use vstd::prelude::*;

verus! {

/// Some entry of `tagged` carries index `i`.
pub open spec fn has_index<U>(tagged: Seq<(U, usize)>, i: int) -> bool {
    exists|k: int| 0 <= k < tagged.len() && #[trigger] tagged[k].1 == i
}

/// The indices of `tagged` are `0..n`, each exactly once.
pub open spec fn is_index_permutation<U>(tagged: Seq<(U, usize)>, n: nat) -> bool {
    &&& tagged.len() == n
    &&& forall|k: int| 0 <= k < n ==> (#[trigger] tagged[k]).1 < n
    &&& forall|k1: int, k2: int|
        0 <= k1 < n && 0 <= k2 < n && k1 != k2 ==> (#[trigger] tagged[k1]).1 != (
        #[trigger] tagged[k2]).1
    &&& forall|i: int| 0 <= i < n ==> #[trigger] has_index(tagged, i)
}

/// Puts results that arrived in any order, each with the index of its input, back in input
/// order.
pub fn order_by_index<U>(tagged: Vec<(U, usize)>, n: usize) -> (r: Vec<U>)
    requires
        is_index_permutation(tagged@, n as nat),
    ensures
        r@.len() == n,
        forall|k: int| 0 <= k < n ==> r@[(#[trigger] tagged@[k]).1 as int] == tagged@[k].0,
{
    let ghost input = tagged@;
    let mut tagged = tagged;
    let mut slots: Vec<Option<U>> = Vec::new();
    let mut i: usize = 0;
    while i < n
        invariant
            i <= n,
            slots@.len() == i,
            forall|s: int| 0 <= s < i ==> slots@[s] is None,
        decreases n - i,
    {
        slots.push(None);
        i = i + 1;
    }
    while tagged.len() > 0
        invariant
            is_index_permutation(input, n as nat),
            input.len() == n,
            tagged@.len() <= n,
            tagged@ == input.subrange(0, tagged@.len() as int),
            slots@.len() == n,
            forall|k: int|
                tagged@.len() <= k < n ==> slots@[(#[trigger] input[k]).1 as int] == Some(
                    input[k].0,
                ),
            forall|k: int|
                0 <= k < tagged@.len() ==> slots@[(#[trigger] input[k]).1 as int] is None,
        decreases tagged@.len(),
    {
        let (value, index) = tagged.pop().unwrap();
        let ghost m = tagged@.len() as int;
        assert(input[m] == (value, index));
        slots.set(index, Some(value));
        assert forall|k: int| 0 <= k < m implies slots@[(#[trigger] input[k]).1 as int] is None by {
            assert(input[k].1 != input[m].1);
        }
        assert forall|k: int| m <= k < n implies slots@[(#[trigger] input[k]).1 as int] == Some(
            input[k].0,
        ) by {
            if k != m {
                assert(input[k].1 != input[m].1);
            }
        }
    }
    let ghost filled = slots@;
    assert forall|s: int| 0 <= s < n implies #[trigger] filled[s] is Some by {
        assert(has_index(input, s));
        let k = choose|k: int| 0 <= k < input.len() && #[trigger] input[k].1 == s;
        assert(filled[input[k].1 as int] == Some(input[k].0));
    }
    let mut backwards: Vec<U> = Vec::new();
    while slots.len() > 0
        invariant
            slots@ == filled.subrange(0, slots@.len() as int),
            filled.len() == n,
            forall|s: int| 0 <= s < n ==> #[trigger] filled[s] is Some,
            backwards@.len() + slots@.len() == n,
            forall|k: int|
                0 <= k < backwards@.len() ==> Some(#[trigger] backwards@[k]) == filled[n - 1 - k],
        decreases slots@.len(),
    {
        let slot = slots.pop().unwrap();
        assert(slot == filled[slots@.len() as int]);
        let value = slot.unwrap();
        backwards.push(value);
    }
    let ghost rev = backwards@;
    let mut out: Vec<U> = Vec::new();
    while backwards.len() > 0
        invariant
            backwards@ == rev.subrange(0, backwards@.len() as int),
            rev.len() == n,
            filled.len() == n,
            out@.len() + backwards@.len() == n,
            forall|k: int| 0 <= k < n ==> Some(#[trigger] rev[k]) == filled[n - 1 - k],
            forall|s: int| 0 <= s < out@.len() ==> Some(#[trigger] out@[s]) == filled[s],
        decreases backwards@.len(),
    {
        let value = backwards.pop().unwrap();
        assert(value == rev[backwards@.len() as int]);
        out.push(value);
    }
    assert forall|k: int| 0 <= k < n implies out@[(#[trigger] input[k]).1 as int] == input[k].0 by {
        assert(filled[input[k].1 as int] == Some(input[k].0));
    }
    out
}

} // verus!
