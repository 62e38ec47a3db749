//! Reaching an upstream: candidates in order, then what is left.

use crate::text::{decimal, strip_prefix, trim};
use vstd::prelude::*;
use vstd::string::*;

verus! {

/// A configured upstream without white space and without a scheme that means
/// a plain connection. `https://` stays: what is behind it is not plain.
pub open spec fn normalized(upstream: Seq<char>) -> Seq<char> {
    let t = crate::text::trimmed(upstream);
    if crate::text::starts(t, "ssh://"@) {
        t.skip("ssh://"@.len() as int)
    } else if crate::text::starts(t, "tcp://"@) {
        t.skip("tcp://"@.len() as int)
    } else if crate::text::starts(t, "http://"@) {
        t.skip("http://"@.len() as int)
    } else {
        t
    }
}

/// Normalizes a configured upstream.
pub fn normalize_upstream(upstream: &str) -> (r: String)
    ensures
        r@ == normalized(upstream@),
{
    let trimmed: &str = trim(upstream);
    if let Some(rest) = strip_prefix(trimmed, "ssh://") {
        return rest.to_owned();
    }
    if let Some(rest) = strip_prefix(trimmed, "tcp://") {
        return rest.to_owned();
    }
    if let Some(rest) = strip_prefix(trimmed, "http://") {
        return rest.to_owned();
    }
    trimmed.to_owned()
}

/// A secure scheme is never taken off: an upstream that starts with it keeps
/// it, whatever stands around.
pub proof fn law_https_is_kept(upstream: Seq<char>)
    requires
        crate::text::starts(crate::text::trimmed(upstream), "https://"@),
    ensures
        normalized(upstream) == crate::text::trimmed(upstream),
{
    reveal_strlit("https://");
    reveal_strlit("http://");
    reveal_strlit("ssh://");
    reveal_strlit("tcp://");
    let t = crate::text::trimmed(upstream);
    assert(t.take(8)[4] == 's');
    assert(t[4] == 's');
    assert(t[0] == t.take(8)[0]);
    if crate::text::starts(t, "http://"@) {
        assert(t.take(7)[4] == ':');
    }
    if crate::text::starts(t, "ssh://"@) {
        assert(t.take(6)[0] == 's');
    }
    if crate::text::starts(t, "tcp://"@) {
        assert(t.take(6)[0] == 't');
    }
}

/// What to do next on the way to an upstream.
#[derive(Debug, Clone, Copy, PartialEq, Eq)]
pub enum Attempt {
    /// Open the candidate at this rank.
    Candidate(usize),
    /// No candidate is left.
    Exhausted,
}

/// A walk along ranked candidates. It goes on only after a failure: once a
/// chain is up, bytes may have flowed, and nothing is tried again.
#[derive(Debug, Clone, Copy)]
pub struct Walk {
    pub failed: usize,
    pub candidates: usize,
}

impl Walk {
    /// Each candidate fails at most once.
    pub open spec fn well_formed(self) -> bool {
        self.failed <= self.candidates
    }

    /// What is tried after so many failures.
    pub open spec fn next_attempt(self) -> Attempt {
        if self.failed < self.candidates {
            Attempt::Candidate(self.failed)
        } else {
            Attempt::Exhausted
        }
    }

    /// At the best of so many candidates.
    pub fn start(candidates: usize) -> (r: Self)
        ensures
            r.well_formed(),
            r.failed == 0,
            r.candidates == candidates,
    {
        Walk { failed: 0, candidates }
    }

    /// What to try now.
    pub fn attempt(&self) -> (r: Attempt)
        ensures
            r == self.next_attempt(),
    {
        if self.failed < self.candidates {
            Attempt::Candidate(self.failed)
        } else {
            Attempt::Exhausted
        }
    }

    /// The candidate that was tried did not come up.
    pub fn fail(&mut self)
        requires
            old(self).well_formed(),
        ensures
            final(self).well_formed(),
            *final(self) == old(self).after_failure(),
    {
        if self.failed < self.candidates {
            self.failed = self.failed + 1;
        }
    }

    /// The walk after one more failure. Where nothing was left to try,
    /// nothing failed.
    pub open spec fn after_failure(self) -> Self {
        Walk {
            failed: if self.failed < self.candidates {
                (self.failed + 1) as usize
            } else {
                self.failed
            },
            candidates: self.candidates,
        }
    }

    /// The walk after `n` failures.
    pub open spec fn after_failures(self, n: nat) -> Self
        decreases n,
    {
        if n == 0 {
            self
        } else {
            self.after_failures((n - 1) as nat).after_failure()
        }
    }
}

/// The candidates are tried in order, each once, and only when all have
/// failed is the walk exhausted.
pub proof fn law_candidates_are_tried_in_order(candidates: usize, n: nat)
    ensures
        ({
            let walk = (Walk { failed: 0, candidates }).after_failures(n);
            &&& walk.well_formed()
            &&& walk.candidates == candidates
            &&& n < candidates ==> walk.next_attempt() == Attempt::Candidate(n as usize)
            &&& n >= candidates ==> walk.next_attempt() == Attempt::Exhausted
        }),
    decreases n,
{
    if n > 0 {
        law_candidates_are_tried_in_order(candidates, (n - 1) as nat);
    }
}

/// Said when the configured upstream does not answer within the bound of an
/// attempt either.
pub open spec fn fallback_timed_out(upstream: Seq<char>, ms: u64) -> Seq<char> {
    "static upstream fallback to "@ + upstream + " timed out after "@ + crate::text::decimal_of(
        ms as nat,
    ) + "ms"@
}

/// The text for a configured upstream that did not answer in time.
pub fn fallback_timeout_text(upstream: &str, ms: u64) -> (r: String)
    ensures
        r@ == fallback_timed_out(upstream@, ms),
{
    let mut r: String = "static upstream fallback to ".to_owned();
    r.append(upstream);
    r.append(" timed out after ");
    r.append(decimal(ms as u128).as_str());
    r.append("ms");
    r
}

/// A scheme of plain connections in front of an address is dropped, the white
/// space round it too; nothing else is touched.
pub proof fn law_schemes_are_dropped(addr: Seq<char>)
    requires
        crate::text::trimmed(addr) == addr,
        !crate::text::starts(addr, "ssh://"@),
        !crate::text::starts(addr, "tcp://"@),
        !crate::text::starts(addr, "http://"@),
    ensures
        normalized(addr) == addr,
        forall|upstream: Seq<char>| #[trigger]
            crate::text::trimmed(upstream) == "ssh://"@ + addr ==> normalized(upstream) == addr,
        forall|upstream: Seq<char>| #[trigger]
            crate::text::trimmed(upstream) == "tcp://"@ + addr ==> normalized(upstream) == addr,
        forall|upstream: Seq<char>| #[trigger]
            crate::text::trimmed(upstream) == "http://"@ + addr ==> normalized(upstream) == addr,
        forall|upstream: Seq<char>| #[trigger]
            crate::text::trimmed(upstream) == addr ==> normalized(upstream) == addr,
{
    reveal_strlit("ssh://");
    reveal_strlit("tcp://");
    reveal_strlit("http://");
    let ssh = "ssh://"@ + addr;
    let tcp = "tcp://"@ + addr;
    let http = "http://"@ + addr;
    assert(ssh.take("ssh://"@.len() as int) =~= "ssh://"@);
    assert(ssh.skip("ssh://"@.len() as int) =~= addr);
    assert(tcp.take("tcp://"@.len() as int) =~= "tcp://"@);
    assert(tcp.skip("tcp://"@.len() as int) =~= addr);
    assert(http.take("http://"@.len() as int) =~= "http://"@);
    assert(http.skip("http://"@.len() as int) =~= addr);
    assert(crate::text::starts(ssh, "ssh://"@));
    assert(crate::text::starts(tcp, "tcp://"@));
    assert(crate::text::starts(http, "http://"@));
    assert(tcp[0] == 't' && http[0] == 'h' && "ssh://"@[0] == 's');
    assert(http.take("tcp://"@.len() as int)[0] == http[0]);
    assert(tcp.take("ssh://"@.len() as int)[0] == tcp[0]);
    assert(http.take("ssh://"@.len() as int)[0] == http[0]);
    assert(!crate::text::starts(tcp, "ssh://"@));
    assert(!crate::text::starts(http, "ssh://"@));
    assert(!crate::text::starts(http, "tcp://"@));
}

/// What is told of a fallback that took too long.
pub proof fn law_a_timeout_names_the_upstream(upstream: Seq<char>, ms: u64)
    ensures
        fallback_timed_out(upstream, ms) == "static upstream fallback to "@ + upstream
            + " timed out after "@ + crate::text::decimal_of(ms as nat) + "ms"@,
{
}

} // verus!
