//! Verified core of the Radii reachability network.

pub mod brand;
pub mod bridge;
pub mod chain;
pub mod cli;
pub mod codec;
pub mod crawl;
pub mod crawl_config;
pub mod decision;
pub mod fetch_config;
pub mod frame;
pub mod graph;
pub mod head_config;
pub mod headers;
pub mod health;
pub mod paths;
pub mod proto;
pub mod registry;
pub mod relay;
pub mod resolve;
pub mod routing;
pub mod runners;
pub mod show_graph;
pub mod show_head;
pub mod shown;
pub mod table;
pub mod text;
pub mod timing;
pub mod tls;
pub mod upstream;
pub mod validate;
