//! Byte-wise lexicographic order on keys, and ascending listings of key sets.

use vstd::prelude::*;

verus! {

/// `a` and `b` agree on their first `i` bytes, and at position `i` either `a`
/// has ended while `b` goes on, or `a` holds the smaller byte.
pub open spec fn parts_at(a: Seq<u8>, b: Seq<u8>, i: int) -> bool {
    &&& 0 <= i <= a.len()
    &&& i < b.len()
    &&& forall|j: int| 0 <= j < i ==> a[j] == b[j]
    &&& (i == a.len() || a[i] < b[i])
}

/// Strict lexicographic order on byte strings: the order in which the store
/// walks its keys.
pub open spec fn precedes(a: Seq<u8>, b: Seq<u8>) -> bool {
    exists|i: int| parts_at(a, b, i)
}

/// Whether key `k` lies past the exclusive lower bound `start`.
pub open spec fn beyond(start: Option<Seq<u8>>, k: Seq<u8>) -> bool {
    match start {
        None => true,
        Some(s) => precedes(s, k),
    }
}

/// Every element precedes all later ones.
pub open spec fn ascending(s: Seq<Seq<u8>>) -> bool {
    forall|i: int, j: int| 0 <= i < j < s.len() ==> precedes(#[trigger] s[i], #[trigger] s[j])
}

/// `s` holds exactly the members of `keys` that lie beyond `start`, in
/// ascending order.
pub open spec fn lists(s: Seq<Seq<u8>>, keys: Set<Seq<u8>>, start: Option<Seq<u8>>) -> bool {
    &&& ascending(s)
    &&& forall|k: Seq<u8>| #[trigger] s.contains(k) <==> keys.contains(k) && beyond(start, k)
}

/// `s` holds exactly the members of `keys` from `from` on that lie before
/// `before`, in ascending order.
pub open spec fn lists_between(
    s: Seq<Seq<u8>>,
    keys: Set<Seq<u8>>,
    from: Seq<u8>,
    before: Seq<u8>,
) -> bool {
    &&& ascending(s)
    &&& forall|k: Seq<u8>| #[trigger]
        s.contains(k) <==> keys.contains(k) && !precedes(k, from) && precedes(k, before)
}

/// The ascending listing of the members of `keys` beyond `start`.
pub open spec fn listing(keys: Set<Seq<u8>>, start: Option<Seq<u8>>) -> Seq<Seq<u8>> {
    choose|s: Seq<Seq<u8>>| lists(s, keys, start)
}

/// The members of `keys` beyond `start` can be listed in ascending order:
/// there are finitely many of them. The listing functions establish this of
/// the store they read.
pub open spec fn has_listing(keys: Set<Seq<u8>>, start: Option<Seq<u8>>) -> bool {
    lists(listing(keys, start), keys, start)
}

/// No key precedes itself.
pub proof fn lemma_precedes_irreflexive(a: Seq<u8>)
    ensures
        !precedes(a, a),
{
    assert forall|i: int| !parts_at(a, a, i) by {}
}

/// Two keys never precede each other.
pub proof fn lemma_precedes_asymmetric(a: Seq<u8>, b: Seq<u8>)
    requires
        precedes(a, b),
    ensures
        !precedes(b, a),
{
    let i = choose|i: int| parts_at(a, b, i);
    assert forall|j: int| !parts_at(b, a, j) by {
        if parts_at(b, a, j) {
            if i < j {
                assert(b[i] == a[i]);
            } else if j < i {
                assert(a[j] == b[j]);
            }
        }
    }
}

/// The order is transitive.
pub proof fn lemma_precedes_transitive(a: Seq<u8>, b: Seq<u8>, c: Seq<u8>)
    requires
        precedes(a, b),
        precedes(b, c),
    ensures
        precedes(a, c),
{
    let i = choose|i: int| parts_at(a, b, i);
    let j = choose|j: int| parts_at(b, c, j);
    let k = if i <= j { i } else { j };
    assert forall|t: int| 0 <= t < k implies a[t] == c[t] by {
        assert(a[t] == b[t]);
        assert(b[t] == c[t]);
    }
    if i < j {
        assert(b[i] == c[i]);
    } else if j < i {
        assert(a[j] == b[j]);
    }
    assert(parts_at(a, c, k));
}

/// A key precedes itself extended by a zero byte.
pub proof fn lemma_precedes_zero_extension(a: Seq<u8>)
    ensures
        precedes(a, a.push(0u8)),
{
    assert(parts_at(a, a.push(0u8), a.len() as int));
}

/// A key extended by a zero byte is the least key above it: whatever lies
/// above the key is that extension or lies above the extension too.
pub proof fn lemma_zero_extension_is_next(a: Seq<u8>, c: Seq<u8>)
    requires
        precedes(a, c),
    ensures
        c == a.push(0u8) || precedes(a.push(0u8), c),
{
    let next = a.push(0u8);
    let i = choose|i: int| parts_at(a, c, i);
    if i < a.len() {
        assert(parts_at(next, c, i));
    } else if c[i] > 0 {
        assert(parts_at(next, c, i));
    } else if c.len() == a.len() + 1 {
        assert(c =~= next);
    } else {
        assert(parts_at(next, c, i + 1));
    }
}

/// Nothing lies strictly between a key and its zero extension, so a scan
/// bounded below by the extension leaves out the key itself.
pub proof fn lemma_key_not_beyond_its_extension(a: Seq<u8>)
    ensures
        !precedes(a.push(0u8), a),
{
    lemma_precedes_zero_extension(a);
    lemma_precedes_asymmetric(a, a.push(0u8));
}

/// An ascending sequence holds no key twice.
pub proof fn lemma_ascending_is_duplicate_free(s: Seq<Seq<u8>>)
    requires
        ascending(s),
    ensures
        s.no_duplicates(),
{
    assert forall|i: int, j: int| 0 <= i < s.len() && 0 <= j < s.len() && i != j implies s[i]
        != s[j] by {
        lemma_precedes_irreflexive(s[i]);
        if i < j {
            assert(precedes(s[i], s[j]));
        } else {
            assert(precedes(s[j], s[i]));
        }
    }
}

/// Two ascending sequences with the same members are the same sequence.
pub proof fn lemma_ascending_same_members(s1: Seq<Seq<u8>>, s2: Seq<Seq<u8>>)
    requires
        ascending(s1),
        ascending(s2),
        forall|k: Seq<u8>| s1.contains(k) <==> s2.contains(k),
    ensures
        s1 == s2,
    decreases s1.len(),
{
    if s1.len() == 0 {
        if s2.len() > 0 {
            assert(s2.contains(s2[0]));
        }
        assert(s1 =~= s2);
    } else {
        assert(s1.contains(s1[0]));
        assert(s2.contains(s1[0]));
        let j = choose|j: int| 0 <= j < s2.len() && s2[j] == s1[0];
        assert(s2.contains(s2[0]));
        assert(s1.contains(s2[0]));
        let k = choose|k: int| 0 <= k < s1.len() && s1[k] == s2[0];
        if j > 0 && k > 0 {
            assert(precedes(s2[0], s2[j]));
            assert(precedes(s1[0], s1[k]));
            lemma_precedes_asymmetric(s1[0], s2[0]);
        }
        assert(s1[0] == s2[0]);
        let t1 = s1.drop_first();
        let t2 = s2.drop_first();
        assert(ascending(t1)) by {
            assert forall|i: int, j: int| 0 <= i < j < t1.len() implies precedes(
                #[trigger] t1[i],
                #[trigger] t1[j],
            ) by {
                assert(precedes(s1[i + 1], s1[j + 1]));
            }
        }
        assert(ascending(t2)) by {
            assert forall|i: int, j: int| 0 <= i < j < t2.len() implies precedes(
                #[trigger] t2[i],
                #[trigger] t2[j],
            ) by {
                assert(precedes(s2[i + 1], s2[j + 1]));
            }
        }
        assert forall|x: Seq<u8>| t1.contains(x) <==> t2.contains(x) by {
            lemma_precedes_irreflexive(x);
            if t1.contains(x) {
                let i = choose|i: int| 0 <= i < t1.len() && t1[i] == x;
                assert(s1[i + 1] == x);
                assert(precedes(s1[0], s1[i + 1]));
                assert(s1.contains(x));
                let m = choose|m: int| 0 <= m < s2.len() && s2[m] == x;
                assert(m > 0);
                assert(t2[m - 1] == x);
            }
            if t2.contains(x) {
                let i = choose|i: int| 0 <= i < t2.len() && t2[i] == x;
                assert(s2[i + 1] == x);
                assert(precedes(s2[0], s2[i + 1]));
                assert(s2.contains(x));
                let m = choose|m: int| 0 <= m < s1.len() && s1[m] == x;
                assert(m > 0);
                assert(t1[m - 1] == x);
            }
        }
        lemma_ascending_same_members(t1, t2);
        assert(s1 =~= seq![s1[0]] + t1);
        assert(s2 =~= seq![s2[0]] + t2);
    }
}

/// A key set has at most one ascending listing beyond a given bound, so any
/// sequence that lists it is `listing`.
pub proof fn lemma_listing_is_unique(
    s: Seq<Seq<u8>>,
    keys: Set<Seq<u8>>,
    start: Option<Seq<u8>>,
)
    requires
        lists(s, keys, start),
    ensures
        s == listing(keys, start),
{
    let l = listing(keys, start);
    assert(lists(l, keys, start));
    assert forall|k: Seq<u8>| s.contains(k) <==> l.contains(k) by {}
    lemma_ascending_same_members(s, l);
}

/// Two different keys are ordered one way or the other.
pub proof fn lemma_precedes_total(a: Seq<u8>, b: Seq<u8>)
    requires
        a != b,
    ensures
        precedes(a, b) || precedes(b, a),
{
    lemma_ordered_past_common_prefix(a, b, 0);
}

/// Two different keys that agree on their first `i` bytes are ordered one way
/// or the other.
proof fn lemma_ordered_past_common_prefix(a: Seq<u8>, b: Seq<u8>, i: int)
    requires
        a != b,
        0 <= i <= a.len(),
        i <= b.len(),
        forall|j: int| 0 <= j < i ==> a[j] == b[j],
    ensures
        precedes(a, b) || precedes(b, a),
    decreases a.len() - i,
{
    if i == a.len() {
        if i == b.len() {
            assert(a =~= b);
        } else {
            assert(parts_at(a, b, i));
        }
    } else if i == b.len() {
        assert(parts_at(b, a, i));
    } else if a[i] < b[i] {
        assert(parts_at(a, b, i));
    } else if b[i] < a[i] {
        assert(parts_at(b, a, i));
    } else {
        lemma_ordered_past_common_prefix(a, b, i + 1);
    }
}

/// The ascending sequence `s` with the key `x` put in its place.
pub open spec fn with_key(s: Seq<Seq<u8>>, x: Seq<u8>) -> Seq<Seq<u8>>
    decreases s.len(),
{
    if s.len() == 0 || precedes(x, s[0]) {
        seq![x] + s
    } else {
        seq![s[0]] + with_key(s.drop_first(), x)
    }
}

/// Putting a new key in its place keeps the sequence ascending and adds that
/// key to its members, and nothing else.
pub proof fn lemma_with_key(s: Seq<Seq<u8>>, x: Seq<u8>)
    requires
        ascending(s),
        !s.contains(x),
    ensures
        ascending(with_key(s, x)),
        with_key(s, x).len() == s.len() + 1,
        forall|k: Seq<u8>| #[trigger] with_key(s, x).contains(k) <==> s.contains(k) || k == x,
    decreases s.len(),
{
    let r = with_key(s, x);
    if s.len() == 0 || precedes(x, s[0]) {
        assert forall|i: int, j: int| 0 <= i < j < r.len() implies precedes(
            #[trigger] r[i],
            #[trigger] r[j],
        ) by {
            if i == 0 {
                if j > 1 {
                    assert(precedes(s[0], s[j - 1]));
                    lemma_precedes_transitive(x, s[0], s[j - 1]);
                }
            } else {
                assert(precedes(s[i - 1], s[j - 1]));
            }
        }
        assert forall|k: Seq<u8>| r.contains(k) <==> s.contains(k) || k == x by {
            if r.contains(k) {
                let i = choose|i: int| 0 <= i < r.len() && r[i] == k;
                if i > 0 {
                    assert(s[i - 1] == k);
                }
            }
            if s.contains(k) {
                let i = choose|i: int| 0 <= i < s.len() && s[i] == k;
                assert(r[i + 1] == k);
            }
            if k == x {
                assert(r[0] == k);
            }
        }
    } else {
        let tail = s.drop_first();
        let put = with_key(tail, x);
        assert(s.contains(s[0]));
        lemma_precedes_total(x, s[0]);
        assert(ascending(tail)) by {
            assert forall|i: int, j: int| 0 <= i < j < tail.len() implies precedes(
                #[trigger] tail[i],
                #[trigger] tail[j],
            ) by {
                assert(precedes(s[i + 1], s[j + 1]));
            }
        }
        assert(!tail.contains(x)) by {
            if tail.contains(x) {
                let i = choose|i: int| 0 <= i < tail.len() && tail[i] == x;
                assert(s[i + 1] == x);
            }
        }
        lemma_with_key(tail, x);
        assert forall|i: int, j: int| 0 <= i < j < r.len() implies precedes(
            #[trigger] r[i],
            #[trigger] r[j],
        ) by {
            if i == 0 {
                assert(put.contains(put[j - 1]));
                if put[j - 1] != x {
                    let m = choose|m: int| 0 <= m < tail.len() && tail[m] == put[j - 1];
                    assert(precedes(s[0], s[m + 1]));
                }
            } else {
                assert(precedes(put[i - 1], put[j - 1]));
            }
        }
        assert forall|k: Seq<u8>| r.contains(k) <==> s.contains(k) || k == x by {
            if r.contains(k) {
                let i = choose|i: int| 0 <= i < r.len() && r[i] == k;
                if i > 0 {
                    assert(put[i - 1] == k);
                    assert(put.contains(k));
                    if tail.contains(k) {
                        let m = choose|m: int| 0 <= m < tail.len() && tail[m] == k;
                        assert(s[m + 1] == k);
                    }
                }
            }
            if s.contains(k) {
                let i = choose|i: int| 0 <= i < s.len() && s[i] == k;
                if i == 0 {
                    assert(r[0] == k);
                } else {
                    assert(tail[i - 1] == k);
                    assert(put.contains(k));
                    let m = choose|m: int| 0 <= m < put.len() && put[m] == k;
                    assert(r[m + 1] == k);
                }
            }
            if k == x {
                assert(put.contains(x));
                let m = choose|m: int| 0 <= m < put.len() && put[m] == x;
                assert(r[m + 1] == x);
            }
        }
    }
}

/// The members of a finite key set, put in ascending order one by one.
pub open spec fn in_order(keys: Set<Seq<u8>>) -> Seq<Seq<u8>>
    decreases keys.len(),
    when keys.finite()
{
    if keys.len() == 0 {
        Seq::empty()
    } else {
        with_key(in_order(keys.remove(keys.choose())), keys.choose())
    }
}

/// `in_order` lists the whole of a finite key set.
pub proof fn lemma_in_order_lists(keys: Set<Seq<u8>>)
    requires
        keys.finite(),
    ensures
        lists(in_order(keys), keys, None),
        in_order(keys).len() == keys.len(),
    decreases keys.len(),
{
    vstd::set_lib::lemma_set_empty_equivalency_len(keys);
    if keys.len() == 0 {
        assert forall|k: Seq<u8>| !(#[trigger] in_order(keys).contains(k)) by {}
    } else {
        let x = keys.choose();
        let rest = keys.remove(x);
        vstd::set::axiom_set_choose_len(keys);
        vstd::set::axiom_set_remove_len(keys, x);
        vstd::set::axiom_set_remove_finite(keys, x);
        lemma_in_order_lists(rest);
        assert(!in_order(rest).contains(x));
        lemma_with_key(in_order(rest), x);
        assert(in_order(keys) == with_key(in_order(rest), x));
        assert forall|k: Seq<u8>| #[trigger] in_order(keys).contains(k) <==> keys.contains(k) by {
            assert(in_order(rest).contains(k) <==> rest.contains(k));
        }
    }
}

/// Every finite key set can be listed beyond every bound.
pub proof fn law_finite_keys_have_listing(keys: Set<Seq<u8>>, start: Option<Seq<u8>>)
    requires
        keys.finite(),
    ensures
        has_listing(keys, start),
{
    let kept = keys.filter(|k: Seq<u8>| beyond(start, k));
    vstd::set_lib::lemma_set_subset_finite(keys, kept);
    lemma_in_order_lists(kept);
    assert(lists(in_order(kept), keys, start));
}

} // verus!
