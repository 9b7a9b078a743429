//! The raw-key prefix under which one owner's allowances lie, and the test
//! that a scan under it meets nothing but that owner's entries.
//!
//! The store scans a prefix as the range from the prefix up to the prefix
//! with its last byte raised by one. Where the prefix ends in 0xFF bytes
//! these cannot be raised: they become zeros and the byte before them is
//! raised instead. That end lies a little too far: before it come a few keys
//! that are shorter than the prefix and do not begin with it. A store that
//! holds one of them cannot be scanned under this prefix.

use crate::host::{next_key, open_raw_keys, raw_keys, upcoming_keys};
use crate::order::{parts_at, precedes};
use cosmwasm_std::Deps;
use vstd::prelude::*;

verus! {

/// `bytes` behind their number, written in two bytes with the high one first.
pub open spec fn length_prefixed(bytes: Seq<u8>) -> Seq<u8> {
    seq![(bytes.len() / 256) as u8, (bytes.len() % 256) as u8] + bytes
}

/// The raw-key prefix of the entries that the two-key map at `namespace`
/// holds for the owner key `owner`.
pub open spec fn owner_prefix(namespace: Seq<char>, owner: Seq<u8>) -> Seq<u8> {
    length_prefixed(vstd::utf8::encode_utf8(namespace)) + length_prefixed(owner)
}

/// `i` is the place of the last byte of `prefix` that is not 0xFF: the byte
/// that is raised to end the scan.
pub open spec fn is_pivot(prefix: Seq<u8>, i: int) -> bool {
    &&& 0 <= i < prefix.len()
    &&& prefix[i] != 0xFF
    &&& forall|j: int| i < j < prefix.len() ==> prefix[j] == 0xFF
}

/// `key` lies in the range scanned for `prefix` without beginning with it: it
/// agrees with `prefix` up to the pivot, holds the pivot's byte raised by
/// one, goes on with zero bytes only, and is shorter than `prefix`.
pub open spec fn strays_into(key: Seq<u8>, prefix: Seq<u8>) -> bool {
    exists|i: int| stray_at(key, prefix, i)
}

/// `key` strays into the range of `prefix`, whose pivot is `i`.
pub open spec fn stray_at(key: Seq<u8>, prefix: Seq<u8>, i: int) -> bool {
    &&& is_pivot(prefix, i)
    &&& i < key.len() < prefix.len()
    &&& forall|j: int| 0 <= j < i ==> key[j] == prefix[j]
    &&& key[i] == prefix[i] + 1
    &&& forall|j: int| i < j < key.len() ==> key[j] == 0
}

/// A scan under `prefix` over a store with the raw keys `raw` meets only keys
/// that begin with `prefix`: the prefix has a byte to raise, and no raw key
/// strays into its range.
pub open spec fn prefix_is_sound(raw: Set<Seq<u8>>, prefix: Seq<u8>) -> bool {
    &&& exists|i: int| is_pivot(prefix, i)
    &&& forall|key: Seq<u8>| raw.contains(key) ==> !strays_into(key, prefix)
}

/// The least key that strays into the range of `prefix` with pivot `i`:
/// `prefix` up to the pivot, with the pivot's byte raised by one.
pub open spec fn first_stray(prefix: Seq<u8>, i: int) -> Seq<u8> {
    prefix.take(i).push((prefix[i] + 1) as u8)
}

/// The end of the range of `prefix` with pivot `i`: the first stray key
/// filled up with zero bytes to the length of `prefix`.
pub open spec fn range_end(prefix: Seq<u8>, i: int) -> Seq<u8> {
    first_stray(prefix, i) + Seq::new((prefix.len() - 1 - i) as nat, |j: int| 0u8)
}

/// The keys that stray into the range of a prefix are those from the first
/// stray key up to the end of the range.
pub proof fn lemma_strays_fill_the_gap(key: Seq<u8>, prefix: Seq<u8>, i: int)
    requires
        is_pivot(prefix, i),
    ensures
        strays_into(key, prefix) <==> !precedes(key, first_stray(prefix, i)) && precedes(
            key,
            range_end(prefix, i),
        ),
{
    let from = first_stray(prefix, i);
    let end = range_end(prefix, i);
    assert(from.len() == i + 1 && end.len() == prefix.len());
    assert forall|j: int| 0 <= j <= i implies end[j] == from[j] by {}
    assert forall|j: int| i < j < end.len() implies end[j] == 0 by {}
    if strays_into(key, prefix) {
        let p = choose|p: int| stray_at(key, prefix, p);
        assert(p == i) by {
            if p < i {
                assert(prefix[i] == 0xFF);
            } else if i < p {
                assert(prefix[p] == 0xFF);
            }
        }
        assert forall|w: int| !parts_at(key, from, w) by {
            if parts_at(key, from, w) {
                assert(key[w] == from[w]);
            }
        }
        assert(parts_at(key, end, key.len() as int));
    }
    if !precedes(key, from) && precedes(key, end) {
        let w = choose|w: int| parts_at(key, end, w);
        if w <= i {
            assert(parts_at(key, from, w));
        }
        assert(w == key.len());
        assert(stray_at(key, prefix, i));
    }
}

/// Tests whether a scan under `prefix` over the store behind `deps` would
/// meet only keys that begin with `prefix`. Where the prefix ends in 0xFF it
/// asks the store for the first key in the gap before the range's end.
pub fn prefix_scans_cleanly(deps: Deps, prefix: &Vec<u8>) -> (sound: bool)
    ensures
        sound == prefix_is_sound(raw_keys(deps), prefix@),
{
    let mut end: usize = prefix.len();
    while end > 0 && prefix[end - 1] == 0xFF
        invariant
            end <= prefix.len(),
            forall|j: int| end <= j < prefix.len() ==> prefix@[j] == 0xFF,
        decreases end,
    {
        end -= 1;
    }
    if end == 0 {
        assert forall|i: int| !is_pivot(prefix@, i) by {}
        return false;
    }
    let pivot: usize = end - 1;
    assert(is_pivot(prefix@, pivot as int));
    if end == prefix.len() {
        assert forall|key: Seq<u8>| !strays_into(key, prefix@) by {
            assert forall|p: int| !stray_at(key, prefix@, p) by {}
        }
        return true;
    }
    let mut from: Vec<u8> = Vec::new();
    let mut copied: usize = 0;
    while copied < pivot
        invariant
            copied <= pivot < prefix.len(),
            from@ == prefix@.take(copied as int),
        decreases pivot - copied,
    {
        from.push(prefix[copied]);
        copied += 1;
        assert(from@ =~= prefix@.take(copied as int));
    }
    from.push(prefix[pivot] + 1);
    assert(from@ == first_stray(prefix@, pivot as int));
    let mut before: Vec<u8> = Vec::new();
    let mut filled: usize = 0;
    while filled < from.len()
        invariant
            filled <= from.len(),
            before@ == from@.take(filled as int),
        decreases from.len() - filled,
    {
        before.push(from[filled]);
        filled += 1;
        assert(before@ =~= from@.take(filled as int));
    }
    assert(before@ =~= from@);
    while filled < prefix.len()
        invariant
            from.len() <= filled <= prefix.len(),
            before@ == from@ + Seq::new((filled - from.len()) as nat, |j: int| 0u8),
        decreases prefix.len() - filled,
    {
        before.push(0u8);
        filled += 1;
        assert(before@ =~= from@ + Seq::new((filled - from.len()) as nat, |j: int| 0u8));
    }
    assert(before@ == range_end(prefix@, pivot as int));
    let mut gap = open_raw_keys(deps, &from, &before);
    let ghost found = upcoming_keys(gap);
    match next_key(&mut gap) {
        Some(_) => {
            proof {
                assert(found.contains(found[0]));
                lemma_strays_fill_the_gap(found[0], prefix@, pivot as int);
            }
            false
        },
        None => {
            assert forall|key: Seq<u8>| raw_keys(deps).contains(key) implies !strays_into(
                key,
                prefix@,
            ) by {
                lemma_strays_fill_the_gap(key, prefix@, pivot as int);
                if strays_into(key, prefix@) {
                    assert(found.contains(key));
                }
            }
            true
        },
    }
}

} // verus!
