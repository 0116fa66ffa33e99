//! The deduplicated set of adjacent color pairs, and its symmetry closure.

use vstd::prelude::*;

use crate::color::PixelPair;
use crate::color::swap_spec;

verus! {

/// A deduplicated set of `PixelPair`s: a pair may be discovered many times
/// but is recorded once.
pub struct AdjacencySet {
    pairs: Vec<PixelPair>,
}

/// The mirror image of a set of pairs: every member with its two colors
/// exchanged.
pub open spec fn swapped_set(s: Set<PixelPair>) -> Set<PixelPair> {
    Set::new(|p: PixelPair| s.contains(swap_spec(p)))
}

/// The symmetry closure of a set of pairs: the set together with the
/// reversal of every member, so adjacency reads as an undirected relation.
pub open spec fn closure_spec(s: Set<PixelPair>) -> Set<PixelPair> {
    s.union(swapped_set(s))
}

impl AdjacencySet {
    /// The mathematical set of recorded pairs.
    pub closed spec fn view(&self) -> Set<PixelPair> {
        self.pairs@.to_set()
    }

    /// Internal invariant: the backing storage holds each pair once.
    pub closed spec fn wf(&self) -> bool {
        self.pairs@.no_duplicates()
    }

    /// The empty set.
    pub fn new() -> (r: AdjacencySet)
        ensures
            r.wf(),
            r@ == Set::<PixelPair>::empty(),
    {
        let r = AdjacencySet { pairs: Vec::new() };
        proof {
            assert(r@ =~= Set::<PixelPair>::empty());
        }
        r
    }

    /// Membership test.
    pub fn contains(&self, p: &PixelPair) -> (r: bool)
        ensures
            r == self@.contains(*p),
    {
        let mut j: usize = 0;
        while j < self.pairs.len()
            invariant
                j <= self.pairs@.len(),
                forall|t: int| 0 <= t < j ==> self.pairs@[t] != *p,
            decreases self.pairs@.len() - j,
        {
            if self.pairs[j] == *p {
                assert(self.pairs@.contains(*p));
                return true;
            }
            j += 1;
        }
        assert(!self.pairs@.contains(*p));
        false
    }

    /// Records one pair; recording an already-present pair changes nothing.
    pub fn insert(&mut self, p: PixelPair)
        requires
            old(self).wf(),
        ensures
            final(self).wf(),
            final(self)@ == old(self)@.insert(p),
    {
        if !self.contains(&p) {
            let ghost prev = self.pairs@;
            self.pairs.push(p);
            proof {
                assert(self.pairs@.drop_last() =~= prev);
                assert(forall|t: int|
                    0 <= t < prev.len() ==> self.pairs@[t] == prev[t] && self.pairs@[t] != p);
                assert(self.pairs@.no_duplicates());
                lemma_push_to_set(prev, p);
                assert(self.pairs@ == prev.push(p));
            }
        } else {
            proof {
                assert(self@ =~= old(self)@.insert(p));
            }
        }
    }

    /// Records every pair of a sequence.
    pub fn insert_all(&mut self, ps: &Vec<PixelPair>)
        requires
            old(self).wf(),
        ensures
            final(self).wf(),
            final(self)@ == old(self)@.union(ps@.to_set()),
    {
        let mut j: usize = 0;
        while j < ps.len()
            invariant
                j <= ps@.len(),
                self.wf(),
                self@ == old(self)@.union(ps@.take(j as int).to_set()),
            decreases ps@.len() - j,
        {
            let ghost before = self@;
            self.insert(ps[j]);
            proof {
                assert(ps@.take(j + 1).drop_last() =~= ps@.take(j as int));
                assert(ps@.take(j + 1)[j as int] == ps@[j as int]);
                assert(ps@.take(j + 1).to_set() =~= ps@.take(j as int).to_set().insert(
                    ps@[j as int],
                )) by {
                    lemma_push_to_set(ps@.take(j as int), ps@[j as int]);
                    assert(ps@.take(j + 1) =~= ps@.take(j as int).push(ps@[j as int]));
                }
                assert(self@ =~= old(self)@.union(ps@.take(j + 1).to_set()));
            }
            j += 1;
        }
        proof {
            assert(ps@.take(ps@.len() as int) =~= ps@);
        }
    }

    /// Set union: records every pair of the other set.
    pub fn extend(&mut self, other: &AdjacencySet)
        requires
            old(self).wf(),
        ensures
            final(self).wf(),
            final(self)@ == old(self)@.union(other@),
    {
        self.insert_all(&other.pairs);
    }

    /// The number of recorded pairs.
    pub fn len(&self) -> (r: usize)
        requires
            self.wf(),
        ensures
            r == self@.len(),
    {
        proof {
            self.pairs@.unique_seq_to_set();
        }
        self.pairs.len()
    }

    /// The recorded pairs as a duplicate-free sequence, in storage order.
    pub fn to_vec(&self) -> (r: Vec<PixelPair>)
        requires
            self.wf(),
        ensures
            r@.no_duplicates(),
            r@.to_set() == self@,
            r@.len() == self@.len(),
    {
        proof {
            self.pairs@.unique_seq_to_set();
        }
        let mut r: Vec<PixelPair> = Vec::new();
        let mut j: usize = 0;
        while j < self.pairs.len()
            invariant
                j <= self.pairs@.len(),
                r@ == self.pairs@.take(j as int),
            decreases self.pairs@.len() - j,
        {
            r.push(self.pairs[j]);
            proof {
                assert(r@ =~= self.pairs@.take(j + 1));
            }
            j += 1;
        }
        proof {
            assert(r@ =~= self.pairs@);
        }
        r
    }

    /// The symmetry closure: this set together with the reversal of every
    /// member, computed from a frozen snapshot of the set.
    pub fn close(&self) -> (r: AdjacencySet)
        requires
            self.wf(),
        ensures
            r.wf(),
            r@ == closure_spec(self@),
    {
        let snapshot = self.to_vec();
        let mut r = AdjacencySet { pairs: self.to_vec() };
        let mut j: usize = 0;
        while j < snapshot.len()
            invariant
                j <= snapshot@.len(),
                snapshot@.to_set() == self@,
                r.wf(),
                r@ == self@.union(swapped_set(snapshot@.take(j as int).to_set())),
            decreases snapshot@.len() - j,
        {
            let p = snapshot[j].swap();
            r.insert(p);
            proof {
                assert(self@.union(swapped_set(snapshot@.take(j as int).to_set())).insert(p)
                    =~= self@.union(swapped_set(snapshot@.take(j + 1).to_set()))) by {
                    let small = snapshot@.take(j as int).to_set();
                    let big = snapshot@.take(j + 1).to_set();
                    assert(snapshot@.take(j + 1) =~= snapshot@.take(j as int).push(
                        snapshot@[j as int],
                    ));
                    lemma_push_to_set(snapshot@.take(j as int), snapshot@[j as int]);
                    assert(big =~= small.insert(snapshot@[j as int]));
                    assert(forall|q: PixelPair| #[trigger] swapped_set(big).contains(q) <==> (
                    swapped_set(small).contains(q) || q == p)) by {
                        assert(forall|q: PixelPair|
                            swap_spec(q) == snapshot@[j as int] <==> q == p) by {
                            assert(forall|q: PixelPair| swap_spec(swap_spec(q)) == q);
                        }
                    }
                }
            }
            j += 1;
        }
        proof {
            assert(snapshot@.take(snapshot@.len() as int) =~= snapshot@);
            assert(r@ =~= closure_spec(self@));
        }
        r
    }
}

/// Symmetry: the closure of any set contains the reversal of each of its
/// members.
pub proof fn lemma_closure_symmetric(s: Set<PixelPair>)
    ensures
        forall|p: PixelPair|
            #[trigger] closure_spec(s).contains(p) ==> closure_spec(s).contains(swap_spec(p)),
{
    assert forall|p: PixelPair| #[trigger] closure_spec(s).contains(p) implies closure_spec(
        s,
    ).contains(swap_spec(p)) by {
        if s.contains(p) {
            assert(swap_spec(swap_spec(p)) == p);
            assert(swapped_set(s).contains(swap_spec(p)));
        } else {
            assert(s.contains(swap_spec(p)));
        }
    }
}

/// Idempotence: closing an already closed set changes nothing.
pub proof fn lemma_closure_idempotent(s: Set<PixelPair>)
    ensures
        closure_spec(closure_spec(s)) == closure_spec(s),
{
    assert(closure_spec(closure_spec(s)) =~= closure_spec(s)) by {
        assert(forall|p: PixelPair| #[trigger] swap_spec(swap_spec(p)) == p);
    }
}

/// Appending one element to a sequence inserts it into the element set.
pub proof fn lemma_push_to_set(s: Seq<PixelPair>, p: PixelPair)
    ensures
        s.push(p).to_set() =~= s.to_set().insert(p),
{
    assert(forall|q: PixelPair| #[trigger] s.push(p).contains(q) <==> (s.contains(q) || q == p))
        by {
        assert(forall|t: int| 0 <= t < s.len() ==> s.push(p)[t] == s[t]);
        assert(s.push(p)[s.len() as int] == p);
        assert(forall|q: PixelPair| s.contains(q) ==> #[trigger] s.push(p).contains(q)) by {
            assert(forall|t: int| 0 <= t < s.len() && s[t] == s.push(p)[t] ==> s.push(p).contains(
                s.push(p)[t],
            ));
        }
        assert(s.push(p).contains(p));
    }
}

} // verus!
