//! Keys with the numbers of their places, so that a place is found again after reordering.

use vstd::prelude::*;

verus! {

/// Each key with the number of its place.
pub open spec fn numbered(keys: Seq<u32>) -> Seq<(u32, u32)> {
    Seq::new(keys.len(), |i: int| (keys[i], i as u32))
}

/// The numbers of pairs.
pub open spec fn numbers(pairs: Seq<(u32, u32)>) -> Seq<u32> {
    Seq::new(pairs.len(), |i: int| pairs[i].1)
}

/// Pairs each key with the number of its place.
pub fn number(keys: &[u32]) -> (r: Vec<(u32, u32)>)
    requires
        keys@.len() <= u32::MAX,
    ensures
        r@ == numbered(keys@),
{
    let mut pairs: Vec<(u32, u32)> = Vec::new();
    let mut i: usize = 0;
    while i < keys.len()
        invariant
            i <= keys@.len() <= u32::MAX,
            pairs@.len() == i,
            forall|k: int| 0 <= k < i ==> #[trigger] pairs@[k] == (keys@[k], k as u32),
        decreases keys@.len() - i,
    {
        pairs.push((keys[i], i as u32));
        i += 1;
    }
    assert(pairs@ =~= numbered(keys@));
    pairs
}

/// The numbers of the first `n` pairs.
pub fn first_numbers(pairs: &[(u32, u32)], n: usize) -> (r: Vec<u32>)
    requires
        n <= pairs@.len(),
    ensures
        r@ == numbers(pairs@).take(n as int),
{
    let mut out: Vec<u32> = Vec::new();
    let mut i: usize = 0;
    while i < n
        invariant
            i <= n <= pairs@.len(),
            out@.len() == i,
            forall|k: int| 0 <= k < i ==> #[trigger] out@[k] == pairs@[k].1,
        decreases n - i,
    {
        out.push(pairs[i].1);
        i += 1;
    }
    assert(out@ =~= numbers(pairs@).take(n as int));
    out
}

/// Numbered keys keep their numbers however they are reordered, and each number occurs once.
pub proof fn lemma_reordered(after: Seq<(u32, u32)>, keys: Seq<u32>)
    requires
        keys.len() <= u32::MAX,
        after.to_multiset() == numbered(keys).to_multiset(),
    ensures
        after.len() == keys.len(),
        numbers(after).no_duplicates(),
        forall|i: int|
            0 <= i < after.len() ==> (#[trigger] after[i]).1 < keys.len() && after[i].0
                == keys[after[i].1 as int],
{
    broadcast use vstd::seq_lib::group_to_multiset_ensures;

    let before = numbered(keys);
    assert(after.len() == after.to_multiset().len());
    assert(before.len() == before.to_multiset().len());
    assert(before.no_duplicates()) by {
        assert forall|i: int, j: int|
            0 <= i < before.len() && 0 <= j < before.len() && i != j implies before[i]
            != before[j] by {
            assert(before[i].1 == i as u32 && before[j].1 == j as u32);
        }
    }
    before.lemma_multiset_has_no_duplicates();
    after.lemma_multiset_has_no_duplicates_conv();
    assert forall|i: int| 0 <= i < after.len() implies (#[trigger] after[i]).1 < keys.len()
        && after[i].0 == keys[after[i].1 as int] by {
        assert(after.contains(after[i]));
        assert(before.to_multiset().count(after[i]) > 0);
        assert(before.contains(after[i]));
    }
    assert forall|i: int, j: int| 0 <= i < after.len() && 0 <= j < after.len() && i
        != j implies numbers(after)[i] != numbers(after)[j] by {
        assert(after[i] != after[j]);
    }
}

/// Where a numbered key has come to stand.
pub proof fn lemma_place(after: Seq<(u32, u32)>, keys: Seq<u32>, c: int) -> (j: int)
    requires
        after.to_multiset() == numbered(keys).to_multiset(),
        0 <= c < keys.len(),
    ensures
        0 <= j < after.len(),
        after[j] == (keys[c], c as u32),
{
    broadcast use vstd::seq_lib::group_to_multiset_ensures;

    let pair = numbered(keys)[c];
    assert(numbered(keys).contains(pair));
    assert(after.to_multiset().count(pair) > 0);
    assert(after.contains(pair));
    choose|j: int| 0 <= j < after.len() && after[j] == pair
}


/// A numbered key is the key at the place of its number.
pub proof fn law_keys_are_numbered_by_their_places(keys: Seq<u32>, i: int)
    requires
        0 <= i < keys.len() <= u32::MAX,
    ensures
        numbered(keys).len() == keys.len(),
        numbered(keys)[i].0 == keys[i],
        numbered(keys)[i].1 == i,
        numbers(numbered(keys))[i] == i,
{
}

} // verus!
