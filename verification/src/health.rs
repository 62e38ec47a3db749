//! Whether a Head can do its job, not merely whether it listens.

use vstd::prelude::*;

verus! {

/// What is known of the graph when health is asked for.
#[derive(Debug, Clone, Copy, PartialEq, Eq)]
pub enum Freshness {
    /// The poller died with the graph in its hands.
    Poisoned,
    /// No poll has succeeded yet.
    Never,
    /// The last success is this many nanoseconds old.
    Aged(u128),
}

/// What health looks at. Without a graph there is no freshness to speak of.
#[derive(Debug, Clone, Copy)]
pub struct HealthWatch {
    pub max_age_ns: Option<u128>,
}

/// The age in nanoseconds at which a graph that is polled so often is stale.
pub open spec fn stale_after(poll_interval_ms: u64) -> u128 {
    ((if poll_interval_ms == 0 {
        1
    } else {
        poll_interval_ms
    }) * 3_000_000) as u128
}

impl Default for HealthWatch {
    fn default() -> (r: Self)
        ensures
            r.max_age_ns is None,
    {
        HealthWatch::none()
    }
}

impl HealthWatch {
    /// How many polls may be missed before the graph is stale. One is a blip,
    /// three are a pattern.
    pub const STALE_AFTER_INTERVALS: u32 = 3;

    /// For a Head without a graph.
    pub fn none() -> (r: Self)
        ensures
            r.max_age_ns is None,
    {
        HealthWatch { max_age_ns: None }
    }

    /// The graph is stale once no poll has succeeded within `max_age_ns`.
    pub fn graph(max_age_ns: u128) -> (r: Self)
        ensures
            r.max_age_ns == Some(max_age_ns),
    {
        HealthWatch { max_age_ns: Some(max_age_ns) }
    }

    /// The watch that goes with a poll interval.
    pub fn from_graph_config(poll_interval_ms: u64) -> (r: Self)
        ensures
            r.max_age_ns == Some(stale_after(poll_interval_ms)),
    {
        let interval: u64 = crate::timing::positive_ms(poll_interval_ms);
        let missed: u128 = HealthWatch::STALE_AFTER_INTERVALS as u128;
        assert(missed == 3);
        let ns: u128 = interval as u128 * 1_000_000;
        assert(ns * missed == interval * 3_000_000) by (nonlinear_arith)
            requires
                missed == 3,
                ns == interval * 1_000_000,
        ;
        HealthWatch::graph(ns * missed)
    }

    /// Whether all is well, and how the graph is.
    pub open spec fn verdict(self, graph: Freshness) -> (bool, Seq<char>) {
        match self.max_age_ns {
            None => (true, "not_configured"@),
            Some(max) => match graph {
                Freshness::Poisoned => (false, "poisoned"@),
                Freshness::Never => (false, "never_refreshed"@),
                Freshness::Aged(age) => if age > max {
                    (false, "stale"@)
                } else {
                    (true, "fresh"@)
                },
            },
        }
    }

    /// Whether all is well, and how the graph is.
    pub fn evaluate(&self, graph: Freshness) -> (r: (bool, &'static str))
        ensures
            (r.0, r.1@) == self.verdict(graph),
    {
        match self.max_age_ns {
            None => (true, "not_configured"),
            Some(max) => match graph {
                Freshness::Poisoned => (false, "poisoned"),
                Freshness::Never => (false, "never_refreshed"),
                Freshness::Aged(age) => if age > max {
                    (false, "stale")
                } else {
                    (true, "fresh")
                },
            },
        }
    }
}

/// The answer to a health check.
#[derive(Debug, Clone, Copy)]
pub struct HealthResponse {
    pub code: u16,
    pub status: &'static str,
    pub graph: &'static str,
}

/// Answers a health check: a Head that is not well says so with 503, so that
/// a load balancer can go around it, and with the reason.
pub fn health(watch: &HealthWatch, graph: Freshness) -> (r: HealthResponse)
    ensures
        r.graph@ == watch.verdict(graph).1,
        r.code == if watch.verdict(graph).0 {
            200u16
        } else {
            503u16
        },
        r.status@ == if watch.verdict(graph).0 {
            "ok"@
        } else {
            "degraded"@
        },
{
    let (healthy, label) = watch.evaluate(graph);
    if healthy {
        HealthResponse { code: 200, status: "ok", graph: label }
    } else {
        HealthResponse { code: 503, status: "degraded", graph: label }
    }
}

/// A Head with a graph is well exactly while its last poll is recent enough,
/// and never becomes well again by waiting.
pub proof fn law_age_only_degrades(watch: HealthWatch, age: u128, later: u128)
    requires
        age <= later,
    ensures
        watch.verdict(Freshness::Aged(later)).0 ==> watch.verdict(Freshness::Aged(age)).0,
        watch.max_age_ns matches Some(max) ==> (watch.verdict(Freshness::Aged(age)).0 <==> age
            <= max),
{
}

/// What a health check says: without a bound on the graph's age all is well;
/// with one, the graph must have come and be no older.
pub proof fn law_what_health_says(watch: HealthWatch, graph: Freshness, max: u128)
    ensures
        watch.max_age_ns is None ==> watch.verdict(graph) == (true, "not_configured"@),
        watch.max_age_ns == Some(max) ==> {
            &&& graph is Poisoned ==> watch.verdict(graph) == (false, "poisoned"@)
            &&& graph is Never ==> watch.verdict(graph) == (false, "never_refreshed"@)
            &&& (graph matches Freshness::Aged(age) ==> (age <= max ==> watch.verdict(graph) == (
                true,
                "fresh"@,
            )) && (age > max ==> watch.verdict(graph) == (false, "stale"@)))
        },
{
}

/// A graph is stale after three intervals between polls, an interval of zero
/// counting as a millisecond.
pub proof fn law_three_missed_polls(poll_interval_ms: u64)
    ensures
        poll_interval_ms > 0 ==> stale_after(poll_interval_ms) == 3_000_000
            * poll_interval_ms,
        poll_interval_ms == 0 ==> stale_after(poll_interval_ms) == 3_000_000,
        HealthWatch::STALE_AFTER_INTERVALS == 3,
{
}

} // verus!
