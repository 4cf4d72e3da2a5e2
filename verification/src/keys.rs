//! Ordered key sets, the part of an ordered map that fixes iteration order.
//!
//! A key set is built by inserting keys one at a time; inserting a key that
//! is present leaves the set as it was, and a new key goes before the first
//! key that is not smaller than it. Started from nothing, this keeps the set
//! sorted with no key twice, which is the order a `BTreeMap` iterates in.

use vstd::prelude::*;

use crate::text::{str_less, str_same, text_lt};
use crate::seqs::concat_map;

verus! {

/// The views of a vector of strings.
pub open spec fn strs(v: Seq<String>) -> Seq<Seq<char>> {
    v.map_values(|s: String| s@)
}

/// How many leading keys are smaller than `k`.
pub open spec fn lower_bound(ks: Seq<Seq<char>>, k: Seq<char>) -> nat
    decreases ks.len(),
{
    if ks.len() == 0 {
        0
    } else if text_lt(ks[0], k) {
        1 + lower_bound(ks.drop_first(), k)
    } else {
        0
    }
}

pub open spec fn key_insert(ks: Seq<Seq<char>>, k: Seq<char>) -> Seq<Seq<char>> {
    let p = lower_bound(ks, k) as int;
    if p < ks.len() && ks[p] == k {
        ks
    } else {
        ks.insert(p, k)
    }
}

/// The distinct keys of `s`, in key order.
pub open spec fn key_set(s: Seq<Seq<char>>) -> Seq<Seq<char>>
    decreases s.len(),
{
    if s.len() == 0 {
        Seq::empty()
    } else {
        key_insert(key_set(s.drop_last()), s.last())
    }
}

proof fn lemma_lower_bound_le(ks: Seq<Seq<char>>, k: Seq<char>)
    ensures
        lower_bound(ks, k) <= ks.len(),
    decreases ks.len(),
{
    if ks.len() > 0 && text_lt(ks[0], k) {
        lemma_lower_bound_le(ks.drop_first(), k);
    }
}

pub proof fn lemma_key_insert_members(ks: Seq<Seq<char>>, k: Seq<char>)
    ensures
        forall|x: Seq<char>| #[trigger] key_insert(ks, k).contains(x) <==> (ks.contains(x) || x == k),
{
    lemma_lower_bound_le(ks, k);
    let p = lower_bound(ks, k) as int;
    if p < ks.len() && ks[p] == k {
    } else {
        let r = ks.insert(p, k);
        ks.insert_ensures(p, k);
        assert forall|x: Seq<char>| #[trigger] r.contains(x) <==> (ks.contains(x) || x == k) by {
            if r.contains(x) {
                let i = choose|i: int| 0 <= i < r.len() && r[i] == x;
                if i < p {
                    assert(ks[i] == x);
                } else if i > p {
                    assert(ks[i - 1] == x);
                }
            }
            if ks.contains(x) {
                let i = choose|i: int| 0 <= i < ks.len() && ks[i] == x;
                if i < p {
                    assert(r[i] == x);
                } else {
                    assert(r[i + 1] == x);
                }
            }
            if x == k {
                assert(r[p] == x);
            }
        }
    }
}

pub proof fn lemma_key_set_members(s: Seq<Seq<char>>)
    ensures
        forall|x: Seq<char>| #[trigger] key_set(s).contains(x) <==> s.contains(x),
    decreases s.len(),
{
    if s.len() > 0 {
        lemma_key_set_members(s.drop_last());
        lemma_key_insert_members(key_set(s.drop_last()), s.last());
        assert forall|x: Seq<char>| #[trigger] key_set(s).contains(x) <==> s.contains(x) by {
            if s.drop_last().contains(x) {
                let i = choose|i: int| 0 <= i < s.drop_last().len() && s.drop_last()[i] == x;
                assert(s[i] == x);
            }
            if s.contains(x) && x != s.last() {
                let i = choose|i: int| 0 <= i < s.len() && s[i] == x;
                assert(s.drop_last()[i] == x);
            }
        }
    }
}

/// Inserts `k` into the key set `ks`.
pub fn insert_key(ks: &mut Vec<String>, k: &str)
    ensures
        strs(final(ks)@) == key_insert(strs(old(ks)@), k@),
{
    let ghost v = strs(ks@);
    let mut i: usize = 0;
    assert(v.skip(0) =~= v);
    while i < ks.len() && str_less(ks[i].as_str(), k)
        invariant
            v == strs(ks@),
            i <= ks.len(),
            lower_bound(v, k@) == i + lower_bound(v.skip(i as int), k@),
        decreases ks.len() - i,
    {
        assert(v.skip(i as int).drop_first() =~= v.skip(i + 1));
        i = i + 1;
    }
    assert(lower_bound(v, k@) == i) by {
        if i < ks.len() {
            assert(v.skip(i as int)[0] == v[i as int]);
        }
    }
    if i < ks.len() && str_same(ks[i].as_str(), k) {
        return;
    }
    let mut owned = String::new();
    owned.append(k);
    ks.insert(i, owned);
    assert(strs(ks@) =~= v.insert(i as int, k@));
}

/// How many leading keys are smaller than `k`.
pub open spec fn lower_bound_int(ks: Seq<i64>, k: i64) -> nat
    decreases ks.len(),
{
    if ks.len() == 0 {
        0
    } else if ks[0] < k {
        1 + lower_bound_int(ks.drop_first(), k)
    } else {
        0
    }
}

pub open spec fn key_insert_int(ks: Seq<i64>, k: i64) -> Seq<i64> {
    let p = lower_bound_int(ks, k) as int;
    if p < ks.len() && ks[p] == k {
        ks
    } else {
        ks.insert(p, k)
    }
}

/// The distinct values of `s`, in increasing order.
pub open spec fn key_set_int(s: Seq<i64>) -> Seq<i64>
    decreases s.len(),
{
    if s.len() == 0 {
        Seq::empty()
    } else {
        key_insert_int(key_set_int(s.drop_last()), s.last())
    }
}

proof fn lemma_lower_bound_int_le(ks: Seq<i64>, k: i64)
    ensures
        lower_bound_int(ks, k) <= ks.len(),
    decreases ks.len(),
{
    if ks.len() > 0 && ks[0] < k {
        lemma_lower_bound_int_le(ks.drop_first(), k);
    }
}

pub proof fn lemma_key_insert_int_members(ks: Seq<i64>, k: i64)
    ensures
        forall|x: i64| #[trigger] key_insert_int(ks, k).contains(x) <==> (ks.contains(x) || x == k),
{
    lemma_lower_bound_int_le(ks, k);
    let p = lower_bound_int(ks, k) as int;
    if p < ks.len() && ks[p] == k {
    } else {
        let r = ks.insert(p, k);
        ks.insert_ensures(p, k);
        assert forall|x: i64| #[trigger] r.contains(x) <==> (ks.contains(x) || x == k) by {
            if r.contains(x) {
                let i = choose|i: int| 0 <= i < r.len() && r[i] == x;
                if i < p {
                    assert(ks[i] == x);
                } else if i > p {
                    assert(ks[i - 1] == x);
                }
            }
            if ks.contains(x) {
                let i = choose|i: int| 0 <= i < ks.len() && ks[i] == x;
                if i < p {
                    assert(r[i] == x);
                } else {
                    assert(r[i + 1] == x);
                }
            }
            if x == k {
                assert(r[p] == x);
            }
        }
    }
}

pub proof fn lemma_key_set_int_members(s: Seq<i64>)
    ensures
        forall|x: i64| #[trigger] key_set_int(s).contains(x) <==> s.contains(x),
    decreases s.len(),
{
    if s.len() > 0 {
        lemma_key_set_int_members(s.drop_last());
        lemma_key_insert_int_members(key_set_int(s.drop_last()), s.last());
        assert forall|x: i64| #[trigger] key_set_int(s).contains(x) <==> s.contains(x) by {
            if s.drop_last().contains(x) {
                let i = choose|i: int| 0 <= i < s.drop_last().len() && s.drop_last()[i] == x;
                assert(s[i] == x);
            }
            if s.contains(x) && x != s.last() {
                let i = choose|i: int| 0 <= i < s.len() && s[i] == x;
                assert(s.drop_last()[i] == x);
            }
        }
    }
}

/// Inserts `k` into the key set `ks`.
pub fn insert_key_int(ks: &mut Vec<i64>, k: i64)
    ensures
        final(ks)@ == key_insert_int(old(ks)@, k),
{
    let ghost v = ks@;
    let mut i: usize = 0;
    assert(v.skip(0) =~= v);
    while i < ks.len() && ks[i] < k
        invariant
            v == ks@,
            i <= ks.len(),
            lower_bound_int(v, k) == i + lower_bound_int(v.skip(i as int), k),
        decreases ks.len() - i,
    {
        assert(v.skip(i as int).drop_first() =~= v.skip(i + 1));
        i = i + 1;
    }
    assert(lower_bound_int(v, k) == i) by {
        if i < ks.len() {
            assert(v.skip(i as int)[0] == v[i as int]);
        }
    }
    if i < ks.len() && ks[i] == k {
        return;
    }
    ks.insert(i, k);
}

// ---------------------------------------------------------------------------
// Key sets are in strictly increasing order.

/// Strictly increasing: every key before every later one, so none twice.
pub open spec fn strictly_sorted(ks: Seq<Seq<char>>) -> bool {
    forall|i: int, j: int| 0 <= i < j < ks.len() ==> text_lt(#[trigger] ks[i], #[trigger] ks[j])
}

proof fn lemma_lower_bound_splits(ks: Seq<Seq<char>>, k: Seq<char>)
    ensures
        lower_bound(ks, k) <= ks.len(),
        forall|i: int| 0 <= i < lower_bound(ks, k) ==> text_lt(#[trigger] ks[i], k),
        lower_bound(ks, k) < ks.len() ==> !text_lt(ks[lower_bound(ks, k) as int], k),
    decreases ks.len(),
{
    if ks.len() > 0 && text_lt(ks[0], k) {
        lemma_lower_bound_splits(ks.drop_first(), k);
        assert forall|i: int| 0 <= i < lower_bound(ks, k) implies text_lt(#[trigger] ks[i], k) by {
            if i > 0 {
                assert(ks[i] == ks.drop_first()[i - 1]);
            }
        }
    }
}

proof fn lemma_key_insert_sorted(ks: Seq<Seq<char>>, k: Seq<char>)
    requires
        strictly_sorted(ks),
    ensures
        strictly_sorted(key_insert(ks, k)),
{
    lemma_lower_bound_splits(ks, k);
    let p = lower_bound(ks, k) as int;
    if p < ks.len() && ks[p] == k {
    } else {
        if p < ks.len() {
            crate::text::lemma_text_lt_total(ks[p], k);
            assert(text_lt(k, ks[p]));
        }
        let r = ks.insert(p, k);
        assert forall|i: int, j: int| 0 <= i < j < r.len() implies text_lt(#[trigger] r[i], #[trigger] r[j]) by {
            if j < p {
                assert(r[i] == ks[i] && r[j] == ks[j]);
            } else if j == p {
                assert(r[i] == ks[i]);
            } else if i < p {
                assert(r[i] == ks[i] && r[j] == ks[j - 1]);
                assert(text_lt(ks[i], k));
                if j - 1 > p {
                    assert(text_lt(ks[p], ks[j - 1]));
                    crate::text::lemma_text_lt_transitive(k, ks[p], ks[j - 1]);
                }
                crate::text::lemma_text_lt_transitive(ks[i], k, ks[j - 1]);
            } else if i == p {
                assert(r[j] == ks[j - 1]);
                if j - 1 > p {
                    assert(text_lt(ks[p], ks[j - 1]));
                    crate::text::lemma_text_lt_transitive(k, ks[p], ks[j - 1]);
                }
            } else {
                assert(r[i] == ks[i - 1] && r[j] == ks[j - 1]);
            }
        }
    }
}

/// A key set is strictly increasing.
pub proof fn lemma_key_set_sorted(s: Seq<Seq<char>>)
    ensures
        strictly_sorted(key_set(s)),
    decreases s.len(),
{
    if s.len() > 0 {
        lemma_key_set_sorted(s.drop_last());
        lemma_key_insert_sorted(key_set(s.drop_last()), s.last());
    }
}

pub proof fn lemma_sorted_members_equal(a: Seq<Seq<char>>, b: Seq<Seq<char>>)
    requires
        strictly_sorted(a),
        strictly_sorted(b),
        forall|x: Seq<char>| a.contains(x) <==> b.contains(x),
    ensures
        a == b,
    decreases a.len(),
{
    if a.len() == 0 {
        if b.len() > 0 {
            assert(b.contains(b[0]));
        }
        assert(a =~= b);
    } else {
        assert(a.contains(a[0]));
        let j = choose|j: int| 0 <= j < b.len() && b[j] == a[0];
        assert(b.contains(b[0]));
        let i = choose|i: int| 0 <= i < a.len() && a[i] == b[0];
        if i > 0 && j > 0 {
            assert(text_lt(a[0], a[i]));
            assert(text_lt(b[0], b[j]));
            crate::text::lemma_text_lt_asymmetric(a[0], b[0]);
        }
        assert(a[0] == b[0]);
        let a1 = a.drop_first();
        let b1 = b.drop_first();
        assert forall|x: Seq<char>| a1.contains(x) implies b1.contains(x) by {
            let k = choose|k: int| 0 <= k < a1.len() && a1[k] == x;
            assert(a[k + 1] == x);
            assert(text_lt(a[0], a[k + 1]));
            crate::text::lemma_text_lt_irreflexive(x);
            assert(a.contains(x));
            let m = choose|m: int| 0 <= m < b.len() && b[m] == x;
            assert(m != 0);
            assert(b1[m - 1] == x);
        }
        assert forall|x: Seq<char>| b1.contains(x) implies a1.contains(x) by {
            let k = choose|k: int| 0 <= k < b1.len() && b1[k] == x;
            assert(b[k + 1] == x);
            assert(text_lt(b[0], b[k + 1]));
            crate::text::lemma_text_lt_irreflexive(x);
            assert(b.contains(x));
            let m = choose|m: int| 0 <= m < a.len() && a[m] == x;
            assert(m != 0);
            assert(a1[m - 1] == x);
        }
        assert forall|p: int, q: int| 0 <= p < q < a1.len() implies text_lt(#[trigger] a1[p], #[trigger] a1[q]) by {
            assert(a1[p] == a[p + 1] && a1[q] == a[q + 1]);
        }
        assert forall|p: int, q: int| 0 <= p < q < b1.len() implies text_lt(#[trigger] b1[p], #[trigger] b1[q]) by {
            assert(b1[p] == b[p + 1] && b1[q] == b[q + 1]);
        }
        lemma_sorted_members_equal(a1, b1);
        assert(a =~= seq![a[0]] + a1);
        assert(b =~= seq![b[0]] + b1);
    }
}

/// The order keys arrive in does not matter: two sequences holding the same
/// keys, in any order and any number of times, have the same key set.
pub proof fn key_set_ignores_order(s1: Seq<Seq<char>>, s2: Seq<Seq<char>>)
    requires
        forall|x: Seq<char>| s1.contains(x) <==> s2.contains(x),
    ensures
        key_set(s1) == key_set(s2),
{
    lemma_key_set_members(s1);
    lemma_key_set_members(s2);
    lemma_key_set_sorted(s1);
    lemma_key_set_sorted(s2);
    lemma_sorted_members_equal(key_set(s1), key_set(s2));
}

/// The keys of the elements of `s` that `p` picks, in order.
pub open spec fn picked_keys<A>(s: Seq<A>, key: spec_fn(A) -> Seq<char>, p: spec_fn(A) -> bool) -> Seq<Seq<char>> {
    concat_map(s, |a: A| if p(a) { seq![key(a)] } else { Seq::<Seq<char>>::empty() })
}

/// Picking from elements whose keys increase gives keys that increase,
/// exactly those of the picked elements.
pub proof fn lemma_picked_keys<A>(s: Seq<A>, key: spec_fn(A) -> Seq<char>, p: spec_fn(A) -> bool)
    requires
        forall|i: int, j: int| 0 <= i < j < s.len() ==> text_lt(key(#[trigger] s[i]), key(#[trigger] s[j])),
    ensures
        strictly_sorted(picked_keys(s, key, p)),
        forall|x: Seq<char>|
            #[trigger] picked_keys(s, key, p).contains(x) <==> exists|i: int|
                0 <= i < s.len() && p(#[trigger] s[i]) && key(s[i]) == x,
    decreases s.len(),
{
    if s.len() > 0 {
        let rest = s.drop_last();
        let last = s.last();
        let n = s.len() - 1;
        assert(s[n] == last);
        assert forall|i: int, j: int| 0 <= i < j < rest.len() implies text_lt(key(#[trigger] rest[i]), key(#[trigger] rest[j])) by {
            assert(rest[i] == s[i] && rest[j] == s[j]);
        }
        lemma_picked_keys(rest, key, p);
        let pick = |a: A| if p(a) { seq![key(a)] } else { Seq::<Seq<char>>::empty() };
        let head = picked_keys(rest, key, p);
        let piece = pick(last);
        assert(picked_keys(s, key, p) == head + piece);
        assert forall|x: Seq<char>|
            #[trigger] picked_keys(s, key, p).contains(x) <==> exists|i: int|
                0 <= i < s.len() && p(#[trigger] s[i]) && key(s[i]) == x by {
            if (head + piece).contains(x) {
                let k = choose|k: int| 0 <= k < (head + piece).len() && (head + piece)[k] == x;
                if k < head.len() {
                    assert(head[k] == x);
                    assert(head.contains(x));
                    let i = choose|i: int| 0 <= i < rest.len() && p(#[trigger] rest[i]) && key(rest[i]) == x;
                    assert(s[i] == rest[i]);
                } else {
                    assert(piece[k - head.len()] == x);
                }
            }
            if exists|i: int| 0 <= i < s.len() && p(#[trigger] s[i]) && key(s[i]) == x {
                let i = choose|i: int| 0 <= i < s.len() && p(#[trigger] s[i]) && key(s[i]) == x;
                if i < n {
                    assert(rest[i] == s[i]);
                    assert(head.contains(x));
                    let k = choose|k: int| 0 <= k < head.len() && head[k] == x;
                    assert((head + piece)[k] == x);
                } else {
                    assert(piece[0] == x);
                    assert((head + piece)[head.len() as int] == x);
                }
            }
        }
        assert forall|i: int, j: int| 0 <= i < j < (head + piece).len() implies text_lt(
            #[trigger] (head + piece)[i],
            #[trigger] (head + piece)[j],
        ) by {
            if j < head.len() {
                assert((head + piece)[i] == head[i] && (head + piece)[j] == head[j]);
            } else {
                assert((head + piece)[i] == head[i]);
                assert(head.contains(head[i]));
                let m = choose|m: int| 0 <= m < rest.len() && p(#[trigger] rest[m]) && key(rest[m]) == head[i];
                assert(rest[m] == s[m]);
                assert(text_lt(key(s[m]), key(s[n])));
                assert((head + piece)[j] == key(last));
            }
        }
    } else {
        assert(picked_keys(s, key, p) =~= Seq::<Seq<char>>::empty());
    }
}

} // verus!
