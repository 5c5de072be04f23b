use vstd::prelude::*;

use std::collections::HashSet;

verus! {

broadcast use vstd::std_specs::hash::group_hash_axioms;

/// Every element plus `n` stays within `i32`.
pub open spec fn adds_in_range(s: Seq<i32>, n: i32) -> bool {
    forall|i: int| 0 <= i < s.len() ==> i32::MIN <= #[trigger] s[i] + n <= i32::MAX
}

pub open spec fn shifted(s: Seq<i32>, n: i32) -> Seq<i32> {
    s.map_values(|x: i32| (x + n) as i32)
}

/// A copy of `v` with `n` added to every element.
pub fn add_n(v: Vec<i32>, n: i32) -> (r: Vec<i32>)
    requires
        adds_in_range(v@, n),
    ensures
        r@ == shifted(v@, n),
{
    let mut ret = v.clone();
    add_n_inplace(&mut ret, n);
    ret
}

/// Adds `n` to every element of `v`.
pub fn add_n_inplace(v: &mut Vec<i32>, n: i32)
    requires
        adds_in_range(old(v)@, n),
    ensures
        final(v)@ == shifted(old(v)@, n),
{
    let len = v.len();
    let mut i: usize = 0;
    while i < len
        invariant
            len == v@.len(),
            len == old(v)@.len(),
            i <= len,
            adds_in_range(old(v)@, n),
            forall|k: int| 0 <= k < i ==> v@[k] == old(v)@[k] + n,
            forall|k: int| i <= k < len ==> v@[k] == old(v)@[k],
        decreases len - i,
    {
        let x = v[i];
        assert(i32::MIN <= old(v)@[i as int] + n <= i32::MAX);
        v.set(i, x + n);
        i = i + 1;
    }
    assert(v@ =~= shifted(old(v)@, n));
}

/// The elements of `s` at their first occurrence, in order.
pub open spec fn first_occurrences(s: Seq<i32>) -> Seq<i32>
    decreases s.len(),
{
    if s.len() == 0 {
        Seq::empty()
    } else {
        let p = first_occurrences(s.drop_last());
        if s.drop_last().contains(s.last()) {
            p
        } else {
            p.push(s.last())
        }
    }
}

proof fn lemma_first_occurrences_len(s: Seq<i32>)
    ensures
        first_occurrences(s).len() <= s.len(),
    decreases s.len(),
{
    if s.len() > 0 {
        lemma_first_occurrences_len(s.drop_last());
    }
}

/// Removes repeated values, keeping the first occurrence of each in its place in the order.
pub fn dedup(v: &mut Vec<i32>)
    ensures
        final(v)@ == first_occurrences(old(v)@),
{
    let ghost s = v@;
    let mut unique: HashSet<i32> = HashSet::new();
    let mut uni_number: usize = 0;
    let size = v.len();
    let mut i: usize = 0;
    while i < size
        invariant
            size == s.len(),
            v@.len() == size,
            i <= size,
            uni_number <= i,
            v@.subrange(0, uni_number as int) == first_occurrences(s.subrange(0, i as int)),
            forall|k: int| i <= k < size ==> v@[k] == s[k],
            forall|x: i32| #[trigger] unique@.contains(x) <==> s.subrange(0, i as int).contains(x),
        decreases size - i,
    {
        let x = v[i];
        let ghost pre = s.subrange(0, i as int);
        let ghost next = s.subrange(0, i + 1 as int);
        assert(next.drop_last() =~= pre);
        assert(next.last() == x);
        proof {
            lemma_first_occurrences_len(pre);
        }
        if unique.insert(x) {
            v.set(uni_number, x);
            uni_number = uni_number + 1;
            assert(v@.subrange(0, uni_number as int) =~= first_occurrences(pre).push(x));
        } else {
            assert(v@.subrange(0, uni_number as int) =~= first_occurrences(pre));
        }
        i = i + 1;
        assert forall|y: i32| #[trigger] unique@.contains(y) <==> next.contains(y) by {
            if next.contains(y) && y != x {
                let k = choose|k: int| 0 <= k < next.len() && next[k] == y;
                assert(pre[k] == y);
            }
            if pre.contains(y) {
                let k = choose|k: int| 0 <= k < pre.len() && pre[k] == y;
                assert(next[k] == y);
            }
            assert(next[i - 1] == x);
        }
    }
    v.truncate(uni_number);
    assert(s.subrange(0, size as int) =~= s);
    assert(v@ =~= first_occurrences(s));
}

} // verus!
