# Radii

A runtime for header-less content delivery: nodes tell a *Crawl* where they
listen and whom they reach, a *Head* and a *Fetch* plan routes over what the
Crawl knows, and *relays* carry the bytes along the route that was planned.

`src/` is the library. It is written in Verus: every function states what it
returns in its contract, and the proofs are part of the source. It does no I/O.

| Modules | What they hold |
| --- | --- |
| `routing`, `paths`, `resolve` | The graph, the best loop-free routes over it, and where their hops are dialed |
| `proto`, `codec`, `validate`, `frame` | The messages, their bytes, their bounds, their frames |
| `crawl`, `crawl_config` | The registry of nodes and the table of reports |
| `relay`, `chain`, `upstream`, `fetch_config`, `timing` | Chains of relays, from both ends |
| `decision`, `graph`, `headers`, `health`, `bridge`, `registry`, `runners`, `head_config` | The Head |
| `tls` | Who a peer is, and which credentials a node holds |
| `cli`, `brand`, `show_graph`, `show_head` | What the command line takes and prints |
| `text`, `table`, `shown` | Strings, string-keyed tables, and values as an error shows them |

Properties that relate several functions are public proof functions whose names
start with `law_`. What the library takes on trust from other crates stands in
small private functions, each with a comment that names the outside function
and says what is claimed of it.

`app/` is the four programs around the library: sockets, TLS sessions, HTTP,
files, arguments, logs. They are told apart by the name they are run under
(`radii`, `radii-crawl`, `radii-head`, `radii-fetch`).

`tests/` runs the library on concrete values.
