//! Sequence combinators used to state what the differ and renderer produce.

use vstd::prelude::*;

verus! {

/// `f` applied to every element of `s`, the results concatenated in order.
pub open spec fn concat_map<A, B>(s: Seq<A>, f: spec_fn(A) -> Seq<B>) -> Seq<B>
    decreases s.len(),
{
    if s.len() == 0 {
        Seq::empty()
    } else {
        concat_map(s.drop_last(), f) + f(s.last())
    }
}

pub proof fn lemma_concat_map_step<A, B>(s: Seq<A>, f: spec_fn(A) -> Seq<B>, i: int)
    requires
        0 <= i < s.len(),
    ensures
        concat_map(s.take(i + 1), f) == concat_map(s.take(i), f) + f(s[i]),
{
    assert(s.take(i + 1).drop_last() =~= s.take(i));
    assert(s.take(i + 1).last() == s[i]);
}

pub proof fn lemma_concat_map_all<A, B>(s: Seq<A>, f: spec_fn(A) -> Seq<B>)
    ensures
        concat_map(s.take(s.len() as int), f) == concat_map(s, f),
{
    assert(s.take(s.len() as int) =~= s);
}

/// When `f` gives nothing for every element, neither does `concat_map`.
pub proof fn lemma_concat_map_empty<A, B>(s: Seq<A>, f: spec_fn(A) -> Seq<B>)
    requires
        forall|i: int| 0 <= i < s.len() ==> f(#[trigger] s[i]).len() == 0,
    ensures
        concat_map(s, f).len() == 0,
    decreases s.len(),
{
    if s.len() > 0 {
        assert forall|i: int| 0 <= i < s.drop_last().len() implies f(#[trigger] s.drop_last()[i]).len() == 0 by {
            assert(s.drop_last()[i] == s[i]);
        }
        lemma_concat_map_empty(s.drop_last(), f);
        assert(f(s[s.len() - 1]).len() == 0);
    }
}

/// `concat_map` of one element is `f` of it.
pub proof fn lemma_concat_map_single<A, B>(a: A, f: spec_fn(A) -> Seq<B>)
    ensures
        concat_map(seq![a], f) == f(a),
{
    let one = seq![a];
    assert(one.drop_last() =~= Seq::<A>::empty());
    assert(one.last() == a);
    assert(concat_map(one.drop_last(), f) =~= Seq::<B>::empty());
    assert(concat_map(one.drop_last(), f) + f(a) =~= f(a));
}

/// `concat_map` over two lists one after the other.
pub proof fn lemma_concat_map_append<A, B>(x: Seq<A>, y: Seq<A>, f: spec_fn(A) -> Seq<B>)
    ensures
        concat_map(x + y, f) == concat_map(x, f) + concat_map(y, f),
    decreases y.len(),
{
    if y.len() == 0 {
        assert(x + y =~= x);
        assert(concat_map(x, f) + concat_map(y, f) =~= concat_map(x, f));
    } else {
        lemma_concat_map_append(x, y.drop_last(), f);
        assert((x + y).drop_last() =~= x + y.drop_last());
        assert((x + y).last() == y.last());
        assert(concat_map(x, f) + concat_map(y.drop_last(), f) + f(y.last()) =~= concat_map(x, f) + (concat_map(
            y.drop_last(),
            f,
        ) + f(y.last())));
    }
}

/// Mapping the pieces of a `concat_map` again is one `concat_map`.
pub proof fn lemma_concat_map_flatten<A, B, C>(s: Seq<A>, f: spec_fn(A) -> Seq<B>, g: spec_fn(B) -> Seq<C>)
    ensures
        concat_map(concat_map(s, f), g) == concat_map(s, |a: A| concat_map(f(a), g)),
    decreases s.len(),
{
    if s.len() > 0 {
        lemma_concat_map_flatten(s.drop_last(), f, g);
        lemma_concat_map_append(concat_map(s.drop_last(), f), f(s.last()), g);
    }
}

/// What a `concat_map` holds: what some piece holds.
pub proof fn lemma_concat_map_contains<A, B>(s: Seq<A>, f: spec_fn(A) -> Seq<B>, x: B)
    ensures
        concat_map(s, f).contains(x) <==> exists|i: int| 0 <= i < s.len() && #[trigger] f(s[i]).contains(x),
    decreases s.len(),
{
    if s.len() > 0 {
        let rest = s.drop_last();
        lemma_concat_map_contains(rest, f, x);
        let head = concat_map(rest, f);
        let last = f(s.last());
        if concat_map(s, f).contains(x) {
            let k = choose|k: int| 0 <= k < (head + last).len() && (head + last)[k] == x;
            if k < head.len() {
                assert(head[k] == x);
                assert(head.contains(x));
                let i = choose|i: int| 0 <= i < rest.len() && #[trigger] f(rest[i]).contains(x);
                assert(s[i] == rest[i]);
            } else {
                assert(last[k - head.len()] == x);
                assert(f(s[s.len() - 1]).contains(x));
            }
        }
        if exists|i: int| 0 <= i < s.len() && #[trigger] f(s[i]).contains(x) {
            let i = choose|i: int| 0 <= i < s.len() && #[trigger] f(s[i]).contains(x);
            if i < rest.len() {
                assert(rest[i] == s[i]);
                assert(head.contains(x));
                let k = choose|k: int| 0 <= k < head.len() && head[k] == x;
                assert((head + last)[k] == x);
            } else {
                let k = choose|k: int| 0 <= k < last.len() && last[k] == x;
                assert((head + last)[head.len() + k] == x);
            }
        }
    }
}

/// What the first state has and every step that succeeds keeps holds of
/// the state a fold ends in.
pub proof fn lemma_fold_ok_keeps<A, S, E>(
    items: Seq<A>,
    init: S,
    step: spec_fn(S, A) -> Result<S, E>,
    inv: spec_fn(S) -> bool,
)
    requires
        inv(init),
        forall|s: S, a: A|
            inv(s) ==> match #[trigger] step(s, a) {
                Ok(t) => inv(t),
                Err(_) => true,
            },
    ensures
        match fold_ok(items, init, step) {
            Ok(t) => inv(t),
            Err(_) => true,
        },
    decreases items.len(),
{
    if items.len() > 0 {
        lemma_fold_ok_keeps(items.drop_last(), init, step, inv);
    }
}

/// A fold over items renamed by `g`, with a step that treats each renamed
/// item as the other step treats the item, comes to the same.
pub proof fn lemma_fold_ok_renamed<A, B, S, E>(
    items: Seq<A>,
    g: spec_fn(A) -> B,
    init: S,
    step1: spec_fn(S, A) -> Result<S, E>,
    step2: spec_fn(S, B) -> Result<S, E>,
)
    requires
        forall|k: int, st: S| 0 <= k < items.len() ==> #[trigger] step2(st, g(items[k])) == step1(st, items[k]),
    ensures
        fold_ok(items.map_values(g), init, step2) == fold_ok(items, init, step1),
    decreases items.len(),
{
    if items.len() > 0 {
        let rest = items.drop_last();
        assert forall|k: int, st: S| 0 <= k < rest.len() implies #[trigger] step2(st, g(rest[k])) == step1(st, rest[k]) by {
            assert(rest[k] == items[k]);
            assert(step2(st, g(items[k])) == step1(st, items[k]));
        }
        lemma_fold_ok_renamed(rest, g, init, step1, step2);
        assert(items.map_values(g).drop_last() =~= rest.map_values(g));
        assert(items.map_values(g).last() == g(items.last()));
        if let Ok(st) = fold_ok(rest, init, step1) {
            assert(step2(st, g(items[items.len() - 1])) == step1(st, items[items.len() - 1]));
        }
    } else {
        assert(items.map_values(g).len() == 0);
    }
}

/// Two functions that agree on the elements of `s` give the same
/// `concat_map` over it.
pub proof fn lemma_concat_map_pointwise<A, B>(s: Seq<A>, f1: spec_fn(A) -> Seq<B>, f2: spec_fn(A) -> Seq<B>)
    requires
        forall|i: int| 0 <= i < s.len() ==> f1(#[trigger] s[i]) == f2(s[i]),
    ensures
        concat_map(s, f1) == concat_map(s, f2),
    decreases s.len(),
{
    if s.len() > 0 {
        assert forall|i: int| 0 <= i < s.drop_last().len() implies f1(#[trigger] s.drop_last()[i]) == f2(
            s.drop_last()[i],
        ) by {
            assert(s.drop_last()[i] == s[i]);
        }
        lemma_concat_map_pointwise(s.drop_last(), f1, f2);
        assert(f1(s[s.len() - 1]) == f2(s[s.len() - 1]));
    }
}

/// Mapping every piece of a `concat_map` maps the whole.
pub proof fn lemma_concat_map_values<A, B, C>(s: Seq<A>, f: spec_fn(A) -> Seq<B>, g: spec_fn(B) -> C)
    ensures
        concat_map(s, f).map_values(g) == concat_map(s, |a: A| f(a).map_values(g)),
    decreases s.len(),
{
    if s.len() > 0 {
        lemma_concat_map_values(s.drop_last(), f, g);
        assert((concat_map(s.drop_last(), f) + f(s.last())).map_values(g) =~= concat_map(s.drop_last(), f).map_values(
            g,
        ) + f(s.last()).map_values(g));
    } else {
        assert(concat_map(s, f).map_values(g) =~= Seq::<C>::empty());
    }
}

/// The length of `concat_map` is the sum of the pieces' lengths.
pub open spec fn total_len<A, B>(s: Seq<A>, f: spec_fn(A) -> Seq<B>) -> nat
    decreases s.len(),
{
    if s.len() == 0 {
        0
    } else {
        total_len(s.drop_last(), f) + f(s.last()).len()
    }
}

pub proof fn lemma_concat_map_len<A, B>(s: Seq<A>, f: spec_fn(A) -> Seq<B>)
    ensures
        concat_map(s, f).len() == total_len(s, f),
    decreases s.len(),
{
    if s.len() > 0 {
        lemma_concat_map_len(s.drop_last(), f);
    }
}

/// Runs `step` over `items` from the front, stopping at the first error.
pub open spec fn fold_ok<A, S, E>(items: Seq<A>, init: S, step: spec_fn(S, A) -> Result<S, E>) -> Result<S, E>
    decreases items.len(),
{
    if items.len() == 0 {
        Ok(init)
    } else {
        match fold_ok(items.drop_last(), init, step) {
            Ok(s) => step(s, items.last()),
            Err(e) => Err(e),
        }
    }
}

/// One more item: the fold over the first `i + 1` items continues the fold
/// over the first `i`.
pub proof fn lemma_fold_ok_step<A, S, E>(items: Seq<A>, init: S, step: spec_fn(S, A) -> Result<S, E>, i: int)
    requires
        0 <= i < items.len(),
    ensures
        fold_ok(items.take(i + 1), init, step) == match fold_ok(items.take(i), init, step) {
            Ok(s) => step(s, items[i]),
            Err(e) => Err(e),
        },
{
    assert(items.take(i + 1).drop_last() =~= items.take(i));
}

/// An error in a prefix is the error of the whole fold.
pub proof fn lemma_fold_ok_stops<A, S, E>(items: Seq<A>, init: S, step: spec_fn(S, A) -> Result<S, E>, k: int)
    requires
        0 <= k <= items.len(),
        fold_ok(items.take(k), init, step) is Err,
    ensures
        fold_ok(items, init, step) == fold_ok(items.take(k), init, step),
    decreases items.len() - k,
{
    if k == items.len() {
        assert(items.take(k) =~= items);
    } else {
        assert(items.drop_last().take(k) =~= items.take(k));
        lemma_fold_ok_stops(items.drop_last(), init, step, k);
    }
}

/// The fold over all items is the fold over the prefix of full length.
pub proof fn lemma_fold_ok_whole<A, S, E>(items: Seq<A>, init: S, step: spec_fn(S, A) -> Result<S, E>)
    ensures
        fold_ok(items.take(items.len() as int), init, step) == fold_ok(items, init, step),
{
    assert(items.take(items.len() as int) =~= items);
}

} // verus!
