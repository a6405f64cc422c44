//! The record of URLs already processed by a crawl.
//!
//! `visit` checks membership and inserts in one atomic step, against one
//! exclusive reference, so no two branches of a crawl can both be told to
//! process the same URL.

use vstd::prelude::*;
use crate::strings::str_eq;

verus! {

/// The set of absolute URLs a crawl has already taken on.  It only ever
/// grows.
pub struct VisitedSet {
    urls: Vec<String>,
}

impl View for VisitedSet {
    type V = Set<Seq<char>>;

    closed spec fn view(&self) -> Set<Seq<char>> {
        Set::new(
            |u: Seq<char>| exists|i: int| 0 <= i < self.urls@.len() && self.urls@[i]@ == u,
        )
    }
}

impl VisitedSet {
    /// An empty record.
    pub fn new() -> (s: Self)
        ensures
            s@ == Set::<Seq<char>>::empty(),
    {
        let s = VisitedSet { urls: Vec::new() };
        proof {
            assert(s@ =~= Set::<Seq<char>>::empty());
        }
        s
    }

    /// Whether a URL has been visited.
    pub fn contains_url(&self, url: &str) -> (r: bool)
        ensures
            r == self@.contains(url@),
    {
        let mut i: usize = 0;
        while i < self.urls.len()
            invariant
                i <= self.urls@.len(),
                forall|j: int| 0 <= j < i ==> self.urls@[j]@ != url@,
            decreases self.urls@.len() - i,
        {
            if str_eq(self.urls[i].as_str(), url) {
                return true;
            }
            i = i + 1;
        }
        false
    }

    /// Check membership and insert in one step.  Returns true exactly
    /// when this call performed the insertion, so that of all `visit`
    /// calls ever made with a given URL, the first and only the first is
    /// told to process it.
    pub fn visit(&mut self, url: &str) -> (fresh: bool)
        ensures
            fresh == !old(self)@.contains(url@),
            final(self)@ == old(self)@.insert(url@),
    {
        let mut i: usize = 0;
        while i < self.urls.len()
            invariant
                i <= self.urls@.len(),
                self == old(self),
                forall|j: int| 0 <= j < i ==> self.urls@[j]@ != url@,
            decreases self.urls@.len() - i,
        {
            if str_eq(self.urls[i].as_str(), url) {
                proof {
                    assert(self@.contains(url@));
                    assert(old(self)@.insert(url@) =~= old(self)@);
                }
                return false;
            }
            i = i + 1;
        }
        proof {
            assert(!self@.contains(url@));
        }
        let owned = url.to_owned();
        self.urls.push(owned);
        proof {
            let newv = self.urls@;
            let oldv = old(self).urls@;
            assert(newv[newv.len() - 1]@ == url@);
            assert forall|u: Seq<char>| #[trigger] self@.contains(u) implies old(self)@.insert(
                url@,
            ).contains(u) by {
                let i0 = choose|i0: int| 0 <= i0 < newv.len() && newv[i0]@ == u;
                if i0 < newv.len() - 1 {
                    assert(oldv[i0]@ == u);
                    assert(old(self)@.contains(u));
                }
            }
            assert forall|u: Seq<char>| #[trigger] old(self)@.insert(url@).contains(u) implies self@.contains(
                u,
            ) by {
                if u == url@ {
                    assert(newv[newv.len() - 1]@ == u);
                } else {
                    let i0 = choose|i0: int| 0 <= i0 < oldv.len() && oldv[i0]@ == u;
                    assert(newv[i0]@ == u);
                }
            }
            assert(self@ =~= old(self)@.insert(url@));
        }
        true
    }
}

/// How many of the `visit` calls in `calls` that name `u` are granted
/// (return true) when run in order from the set `s`.
pub open spec fn granted_count(s: Set<Seq<char>>, calls: Seq<Seq<char>>, u: Seq<char>) -> int
    decreases calls.len(),
{
    if calls.len() == 0 {
        0
    } else {
        (if calls[0] == u && !s.contains(u) {
            1int
        } else {
            0int
        }) + granted_count(s.insert(calls[0]), calls.drop_first(), u)
    }
}

/// Once a URL is in the set, no later `visit` of it is ever granted.
pub proof fn lemma_visit_never_regranted(s: Set<Seq<char>>, calls: Seq<Seq<char>>, u: Seq<char>)
    requires
        s.contains(u),
    ensures
        granted_count(s, calls, u) == 0,
    decreases calls.len(),
{
    if calls.len() > 0 {
        lemma_visit_never_regranted(s.insert(calls[0]), calls.drop_first(), u);
    }
}

/// Of any sequence of `visit` calls, exactly one call with a given URL is
/// granted — the first — and none at all if the URL was already visited
/// or never named.  `visit`'s contract makes each call one step of this
/// fold, so this holds of every interleaving of crawl branches.
pub proof fn lemma_visit_exactly_once(s: Set<Seq<char>>, calls: Seq<Seq<char>>, u: Seq<char>)
    requires
        !s.contains(u),
    ensures
        granted_count(s, calls, u) == if calls.contains(u) {
            1int
        } else {
            0int
        },
    decreases calls.len(),
{
    if calls.len() == 0 {
    } else if calls[0] == u {
        lemma_visit_never_regranted(s.insert(u), calls.drop_first(), u);
        assert(calls.contains(u));
    } else {
        lemma_visit_exactly_once(s.insert(calls[0]), calls.drop_first(), u);
        assert(calls.contains(u) == calls.drop_first().contains(u)) by {
            if calls.contains(u) {
                let i0 = choose|i0: int| 0 <= i0 < calls.len() && calls[i0] == u;
                assert(calls.drop_first()[i0 - 1] == u);
            }
            if calls.drop_first().contains(u) {
                let i0 = choose|i0: int|
                    0 <= i0 < calls.drop_first().len() && calls.drop_first()[i0] == u;
                assert(calls[i0 + 1] == u);
            }
        }
    }
}

} // verus!
