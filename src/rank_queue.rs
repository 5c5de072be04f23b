use vstd::prelude::*;

verus! {

/// Strict lexicographic order on `(load_rank, index)` entries: first by rank, then by index.
pub open spec fn entry_lt(a: (u64, usize), b: (u64, usize)) -> bool {
    a.0 < b.0 || (a.0 == b.0 && a.1 < b.1)
}

/// `e` is the least member of `q` in the `(load_rank, index)` order.
pub open spec fn is_least(q: Set<(u64, usize)>, e: (u64, usize)) -> bool {
    &&& q.contains(e)
    &&& forall|x: (u64, usize)| #[trigger] q.contains(x) ==> x == e || entry_lt(e, x)
}

pub open spec fn sorted_entries(s: Seq<(u64, usize)>) -> bool {
    forall|i: int, j: int| 0 <= i < j < s.len() ==> entry_lt(#[trigger] s[i], #[trigger] s[j])
}

/// An ordered set of `(load_rank, index)` pairs, kept as a strictly increasing vector.
pub struct RankQueue {
    entries: Vec<(u64, usize)>,
}

impl View for RankQueue {
    type V = Set<(u64, usize)>;

    closed spec fn view(&self) -> Set<(u64, usize)> {
        self.entries@.to_set()
    }
}

proof fn lemma_sorted_head_least(s: Seq<(u64, usize)>)
    requires
        sorted_entries(s),
        s.len() > 0,
    ensures
        is_least(s.to_set(), s[0]),
{
    assert(s.to_set().contains(s[0])) by {
        assert(s.contains(s[0]));
    }
    assert forall|x: (u64, usize)| #[trigger] s.to_set().contains(x) implies x == s[0] || entry_lt(
        s[0],
        x,
    ) by {
        let k = choose|k: int| 0 <= k < s.len() && s[k] == x;
        if k > 0 {
            assert(entry_lt(s[0], s[k]));
        }
    }
}

impl RankQueue {
    pub closed spec fn wf(&self) -> bool {
        sorted_entries(self.entries@)
    }

    /// Number of stored entries, used as a termination measure.
    pub closed spec fn size(&self) -> nat {
        self.entries@.len()
    }

    pub fn new() -> (r: RankQueue)
        ensures
            r.wf(),
            r@ == Set::<(u64, usize)>::empty(),
    {
        let r = RankQueue { entries: Vec::new() };
        assert(r@ =~= Set::<(u64, usize)>::empty());
        r
    }

    pub fn is_empty(&self) -> (r: bool)
        requires
            self.wf(),
        ensures
            r == (self@ == Set::<(u64, usize)>::empty()),
    {
        if self.entries.len() == 0 {
            assert(self@ =~= Set::<(u64, usize)>::empty());
            true
        } else {
            assert(self@.contains(self.entries@[0])) by {
                assert(self.entries@.contains(self.entries@[0]));
            }
            false
        }
    }

    /// The least entry, left in place.
    pub fn first(&self) -> (r: Option<(u64, usize)>)
        requires
            self.wf(),
        ensures
            match r {
                None => self@ == Set::<(u64, usize)>::empty(),
                Some(e) => is_least(self@, e),
            },
    {
        if self.entries.len() == 0 {
            assert(self@ =~= Set::<(u64, usize)>::empty());
            None
        } else {
            proof {
                lemma_sorted_head_least(self.entries@);
            }
            Some(self.entries[0])
        }
    }

    /// Removes and returns the least entry.
    pub fn pop_first(&mut self) -> (r: Option<(u64, usize)>)
        requires
            old(self).wf(),
        ensures
            final(self).wf(),
            match r {
                None => old(self)@ == Set::<(u64, usize)>::empty() && final(self)@ == old(self)@,
                Some(e) => is_least(old(self)@, e) && final(self)@ == old(self)@.remove(e),
            },
            r is Some ==> final(self).size() < old(self).size(),
    {
        if self.entries.len() == 0 {
            assert(self@ =~= Set::<(u64, usize)>::empty());
            None
        } else {
            let ghost s = self.entries@;
            proof {
                lemma_sorted_head_least(s);
            }
            let e = self.entries.remove(0);
            let ghost t = self.entries@;
            assert(t =~= s.subrange(1, s.len() as int));
            assert forall|x: (u64, usize)| #[trigger] t.to_set().contains(x) <==> s.to_set().remove(
                e,
            ).contains(x) by {
                if t.to_set().contains(x) {
                    let k = choose|k: int| 0 <= k < t.len() && t[k] == x;
                    assert(s[k + 1] == x);
                    assert(entry_lt(s[0], s[k + 1]));
                    assert(s.contains(x));
                }
                if s.to_set().remove(e).contains(x) {
                    let k = choose|k: int| 0 <= k < s.len() && s[k] == x;
                    assert(k > 0);
                    assert(t[k - 1] == x);
                    assert(t.contains(x));
                }
            }
            assert(self@ =~= old(self)@.remove(e));
            Some(e)
        }
    }

    /// Index of the first entry that is not below `e`.
    fn position_of(&self, e: (u64, usize)) -> (p: usize)
        requires
            self.wf(),
        ensures
            p <= self.entries@.len(),
            forall|k: int| 0 <= k < p ==> entry_lt(#[trigger] self.entries@[k], e),
            p < self.entries@.len() ==> !entry_lt(self.entries@[p as int], e),
    {
        let mut p: usize = 0;
        while p < self.entries.len()
            invariant
                p <= self.entries@.len(),
                forall|k: int| 0 <= k < p ==> entry_lt(#[trigger] self.entries@[k], e),
            decreases self.entries@.len() - p,
        {
            let x = self.entries[p];
            if !(x.0 < e.0 || (x.0 == e.0 && x.1 < e.1)) {
                return p;
            }
            p = p + 1;
        }
        p
    }

    pub fn contains(&self, e: (u64, usize)) -> (r: bool)
        requires
            self.wf(),
        ensures
            r == self@.contains(e),
    {
        let ghost s = self.entries@;
        let p = self.position_of(e);
        if p < self.entries.len() && self.entries[p].0 == e.0 && self.entries[p].1 == e.1 {
            assert(s.contains(e));
            true
        } else {
            assert(!s.contains(e)) by {
                if s.contains(e) {
                    let k = choose|k: int| 0 <= k < s.len() && s[k] == e;
                    if k < p {
                        assert(entry_lt(s[k], e));
                    } else if k > p {
                        assert(entry_lt(s[p as int], s[k]));
                    }
                }
            }
            false
        }
    }

    /// Adds `e`; returns whether it was absent.
    pub fn insert(&mut self, e: (u64, usize)) -> (r: bool)
        requires
            old(self).wf(),
        ensures
            final(self).wf(),
            final(self)@ == old(self)@.insert(e),
            r == !old(self)@.contains(e),
    {
        let ghost s = self.entries@;
        let p = self.position_of(e);
        if p < self.entries.len() && self.entries[p].0 == e.0 && self.entries[p].1 == e.1 {
            assert(s.contains(e));
            assert(self@ =~= old(self)@.insert(e));
            return false;
        }
        assert(!s.contains(e)) by {
            if s.contains(e) {
                let k = choose|k: int| 0 <= k < s.len() && s[k] == e;
                if k < p {
                    assert(entry_lt(s[k], e));
                } else if k > p {
                    assert(entry_lt(s[p as int], s[k]));
                }
            }
        }
        self.entries.insert(p, e);
        let ghost t = self.entries@;
        assert(t =~= s.insert(p as int, e));
        assert forall|i: int, j: int| 0 <= i < j < t.len() implies entry_lt(
            #[trigger] t[i],
            #[trigger] t[j],
        ) by {
            if j < p {
                assert(entry_lt(s[i], s[j]));
            } else if i > p {
                assert(entry_lt(s[i - 1], s[j - 1]));
            } else if i == p {
                assert(!entry_lt(s[p as int], e));
                if j > p + 1 {
                    assert(entry_lt(s[p as int], s[j - 1]));
                }
            } else {
                assert(entry_lt(s[i], e));
                if j > p {
                    assert(entry_lt(s[i], s[j - 1]));
                }
            }
        }
        assert forall|x: (u64, usize)| #[trigger] t.to_set().contains(x) <==> s.to_set().insert(
            e,
        ).contains(x) by {
            if t.to_set().contains(x) {
                let k = choose|k: int| 0 <= k < t.len() && t[k] == x;
                if k < p {
                    assert(s[k] == x);
                    assert(s.contains(x));
                } else if k > p {
                    assert(s[k - 1] == x);
                    assert(s.contains(x));
                }
            }
            if s.to_set().insert(e).contains(x) {
                if x == e {
                    assert(t[p as int] == e);
                    assert(t.contains(x));
                } else {
                    let k = choose|k: int| 0 <= k < s.len() && s[k] == x;
                    if k < p {
                        assert(t[k] == x);
                    } else {
                        assert(t[k + 1] == x);
                    }
                    assert(t.contains(x));
                }
            }
        }
        assert(self@ =~= old(self)@.insert(e));
        true
    }

    /// Drops `e` if present; returns whether it was present.
    pub fn remove(&mut self, e: (u64, usize)) -> (r: bool)
        requires
            old(self).wf(),
        ensures
            final(self).wf(),
            final(self)@ == old(self)@.remove(e),
            r == old(self)@.contains(e),
    {
        let ghost s = self.entries@;
        let p = self.position_of(e);
        if p < self.entries.len() && self.entries[p].0 == e.0 && self.entries[p].1 == e.1 {
            self.entries.remove(p);
            let ghost t = self.entries@;
            assert(t =~= s.remove(p as int));
            assert(s.contains(e));
            assert forall|i: int, j: int| 0 <= i < j < t.len() implies entry_lt(
                #[trigger] t[i],
                #[trigger] t[j],
            ) by {
                if j < p {
                    assert(entry_lt(s[i], s[j]));
                } else if i >= p {
                    assert(entry_lt(s[i + 1], s[j + 1]));
                } else {
                    assert(entry_lt(s[i], s[j + 1]));
                }
            }
            assert forall|x: (u64, usize)| #[trigger] t.to_set().contains(x) <==> s.to_set().remove(
                e,
            ).contains(x) by {
                if t.to_set().contains(x) {
                    let k = choose|k: int| 0 <= k < t.len() && t[k] == x;
                    if k < p {
                        assert(s[k] == x);
                        assert(entry_lt(x, e));
                    } else {
                        assert(s[k + 1] == x);
                        assert(entry_lt(s[p as int], s[k + 1]));
                    }
                    assert(s.contains(x));
                }
                if s.to_set().remove(e).contains(x) {
                    let k = choose|k: int| 0 <= k < s.len() && s[k] == x;
                    if k < p {
                        assert(t[k] == x);
                    } else {
                        assert(k != p);
                        assert(t[k - 1] == x);
                    }
                    assert(t.contains(x));
                }
            }
            assert(self@ =~= old(self)@.remove(e));
            true
        } else {
            assert(!s.contains(e)) by {
                if s.contains(e) {
                    let k = choose|k: int| 0 <= k < s.len() && s[k] == e;
                    if k < p {
                        assert(entry_lt(s[k], e));
                    } else if k > p {
                        assert(entry_lt(s[p as int], s[k]));
                    }
                }
            }
            assert(self@ =~= old(self)@.remove(e));
            false
        }
    }
}

} // verus!
