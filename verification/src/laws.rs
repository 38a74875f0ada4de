//! What holds of every fold: that it goes round the slots, that it uses each
//! input once, that its outcome is fixed by the inputs, their order, the
//! buffer and the operation, and how it moves on by one input.

use crate::lanes::{
    lemma_lane_len_next, lemma_lane_of_prefix, lemma_lane_position, lemma_lane_push,
    lemma_rounds_and_rest,
};
use crate::model::{
    accepts, admits, computes, deterministic, digest, digests_to, folds_to, lane, lane_index,
    lane_len, total,
};
use vstd::arithmetic::div_mod::lemma_fundamental_div_mod_converse;
use vstd::prelude::*;

verus! {

/// The write position goes round: after slot `k % n` comes the next slot, and
/// after the last slot the first.
pub proof fn lemma_slot_advances(k: int, n: int)
    requires
        0 < n,
        0 <= k,
    ensures
        0 <= k % n < n,
        (k + 1) % n == if k % n + 1 == n { 0 } else { k % n + 1 },
{
    lemma_rounds_and_rest(k, n);
    let q = k / n;
    let r = k % n;
    if r + 1 < n {
        lemma_fundamental_div_mod_converse(k + 1, n, q, r + 1);
    } else {
        assert((q + 1) * n == q * n + n) by (nonlinear_arith);
        lemma_fundamental_div_mod_converse(k + 1, n, q + 1, 0);
    }
}

/// Round-robin coverage: inputs that fill `rounds` whole rounds over `n`
/// slots give every slot exactly `rounds` inputs, and slot `j` gets them in
/// the order of arrival: input `j`, then input `j + n`, and so on.
pub proof fn lemma_whole_rounds<A>(xs: Seq<A>, n: int, rounds: int, j: int)
    requires
        0 < n,
        0 <= rounds,
        xs.len() == n * rounds,
        0 <= j < n,
    ensures
        lane(xs, j, n).len() == rounds,
        forall|t: int|
            0 <= t < rounds ==> {
                &&& 0 <= #[trigger] lane_index(j, t, n) < xs.len()
                &&& lane(xs, j, n)[t] == xs[lane_index(j, t, n)]
            },
{
    assert(n * rounds == rounds * n) by (nonlinear_arith);
    lemma_fundamental_div_mod_converse(xs.len() as int, n, rounds, 0);
    assert forall|t: int| 0 <= t < rounds implies {
        &&& 0 <= #[trigger] lane_index(j, t, n) < xs.len()
        &&& lane(xs, j, n)[t] == xs[lane_index(j, t, n)]
    } by {
        lemma_lane_position(xs.len() as int, j, t, n);
    }
}

/// Single consumption, seen from the inputs: input `k` stands in exactly one
/// lane at exactly one position, namely in the lane of slot `k % n` at
/// position `k / n`.
pub proof fn lemma_input_has_one_place<A>(xs: Seq<A>, n: int, k: int)
    requires
        0 < n,
        0 <= k < xs.len(),
    ensures
        0 <= k % n < n,
        0 <= k / n < lane(xs, k % n, n).len(),
        lane(xs, k % n, n)[k / n] == xs[k],
        forall|j: int, t: int|
            0 <= j < n && 0 <= t && k == #[trigger] lane_index(j, t, n) ==> j == k % n && t == k
                / n,
{
    lemma_rounds_and_rest(k, n);
    lemma_lane_position(xs.len() as int, k % n, k / n, n);
    assert forall|j: int, t: int|
        0 <= j < n && 0 <= t && k == #[trigger] lane_index(j, t, n) implies j == k % n && t == k
        / n by {
        lemma_lane_position(xs.len() as int, j, t, n);
    }
}

/// Single consumption, seen from the lanes: every position of every lane
/// holds an input of the sequence, and no two positions hold the same one.
pub proof fn lemma_place_has_one_input<A>(xs: Seq<A>, n: int, j: int, t: int)
    requires
        0 < n,
        0 <= j < n,
        0 <= t < lane(xs, j, n).len(),
    ensures
        0 <= lane_index(j, t, n) < xs.len(),
        lane(xs, j, n)[t] == xs[lane_index(j, t, n)],
        lane_index(j, t, n) % n == j,
        lane_index(j, t, n) / n == t,
{
    lemma_lane_position(xs.len() as int, j, t, n);
}

/// An empty buffer stays empty, whatever the inputs are.
pub proof fn lemma_empty_buffer<'a, T, F>(op: F, xs: Seq<T>, after: Seq<T>) where
    F: Fn(&T, &'a T) -> T,

    ensures
        digests_to(op, Seq::<T>::empty(), xs, after) <==> after == Seq::<T>::empty(),
{
    if after.len() == 0 {
        assert(after =~= Seq::<T>::empty());
    }
}

/// Without inputs the buffer stays as it is.
pub proof fn lemma_no_input<'a, T, F>(op: F, before: Seq<T>, after: Seq<T>) where
    F: Fn(&T, &'a T) -> T,

    ensures
        digests_to(op, before, Seq::<T>::empty(), after) <==> after == before,
        accepts(op, before, Seq::<T>::empty()),
{
    let none = Seq::<T>::empty();
    let n = before.len() as int;
    assert forall|j: int| 0 <= j < n implies (#[trigger] lane(none, j, n)).len() == 0 by {
        lemma_lane_len_next(0, j, n);
        lemma_lane_position(0, j, 0, n);
    }
    if digests_to(op, before, none, after) {
        assert forall|j: int| 0 <= j < n implies after[j] == before[j] by {
            assert(lane(none, j, n).len() == 0);
        }
        assert(after =~= before);
    }
    if after == before {
        assert forall|j: int| 0 <= j < n implies folds_to(
            op,
            before[j],
            lane(none, j, n),
            #[trigger] after[j],
        ) by {
            assert(lane(none, j, n).len() == 0);
        }
    }
    assert forall|j: int| 0 <= j < n implies admits(op, #[trigger] before[j], lane(none, j, n)) by {
        assert(lane(none, j, n).len() == 0);
    }
}

/// An operation that accepts every pair of operands accepts every fold.
pub proof fn lemma_total_accepts<'a, T, F>(op: F, before: Seq<T>, xs: Seq<T>) where
    F: Fn(&T, &'a T) -> T,

    requires
        total(op),
    ensures
        accepts(op, before, xs),
{
}

/// Where the whole input is accepted, the call that folds input `k` is one
/// that the operation accepts, whatever the inputs before it have given.
pub proof fn lemma_next_call_accepted<'a, T, F>(
    op: F,
    before: Seq<T>,
    xs: Seq<T>,
    k: int,
    now: Seq<T>,
) where F: Fn(&T, &'a T) -> T
    requires
        0 <= k < xs.len(),
        before.len() > 0,
        accepts(op, before, xs),
        digests_to(op, before, xs.take(k), now),
    ensures
        op.requires((&now[k % (before.len() as int)], &xs[k])),
{
    let n = before.len() as int;
    let i = k % n;
    lemma_slot_advances(k, n);
    let t = lane_len(k, i, n);
    lemma_lane_len_next(k, i, n);
    lemma_lane_position(xs.len() as int, i, t, n);
    lemma_lane_of_prefix(xs, k, i, n);
    assert(admits(op, before[i], lane(xs, i, n)));
    assert(folds_to(op, before[i], lane(xs, i, n).take(t), now[i]));
    assert(lane(xs, i, n)[t] == xs[k]);
}

/// Fold and advance: folding one more input `x` after the inputs `xs` changes
/// one slot, `xs.len() % n`, to a result of the operation on that slot's value
/// and `x`, and leaves the other slots as they are.
pub proof fn lemma_digests_one_more<'a, T, F>(
    op: F,
    before: Seq<T>,
    xs: Seq<T>,
    x: T,
    now: Seq<T>,
    r: T,
) where F: Fn(&T, &'a T) -> T
    requires
        before.len() > 0,
        digests_to(op, before, xs, now),
        op.ensures((&now[xs.len() as int % before.len() as int], &x), r),
    ensures
        digests_to(
            op,
            before,
            xs.push(x),
            now.update(xs.len() as int % before.len() as int, r),
        ),
{
    let n = before.len() as int;
    let i = xs.len() as int % n;
    lemma_slot_advances(xs.len() as int, n);
    let then = now.update(i, r);
    assert forall|j: int| 0 <= j < n implies folds_to(
        op,
        before[j],
        lane(xs.push(x), j, n),
        #[trigger] then[j],
    ) by {
        lemma_lane_push(xs, x, j, n);
        assert(folds_to(op, before[j], lane(xs, j, n), now[j]));
        if j == i {
            let grown = lane(xs, j, n).push(x);
            assert(grown.drop_last() =~= lane(xs, j, n));
            assert(folds_to(op, before[j], grown.drop_last(), now[j]) && op.ensures(
                (&now[j], &grown.last()),
                r,
            ));
        }
    }
}

/// Folding the same elements into the same value with an operation that gives
/// one result per pair of operands gives one value.
pub proof fn lemma_folds_to_one_value<'a, T, F>(op: F, acc: T, ys: Seq<T>, out1: T, out2: T) where
    F: Fn(&T, &'a T) -> T,

    requires
        deterministic(op),
        folds_to(op, acc, ys, out1),
        folds_to(op, acc, ys, out2),
    ensures
        out1 == out2,
    decreases ys.len(),
{
    if ys.len() > 0 {
        let mid1 = choose|mid: T|
            folds_to(op, acc, ys.drop_last(), mid) && #[trigger] op.ensures(
                (&mid, &ys.last()),
                out1,
            );
        let mid2 = choose|mid: T|
            folds_to(op, acc, ys.drop_last(), mid) && #[trigger] op.ensures(
                (&mid, &ys.last()),
                out2,
            );
        lemma_folds_to_one_value(op, acc, ys.drop_last(), mid1, mid2);
    }
}

/// Determinism: folding the same inputs into buffers with the same contents,
/// with the same operation, gives the same buffer. The operation is taken to
/// be a function: one result for each pair of operands.
pub proof fn lemma_same_fold_same_buffer<'a, T, F>(
    op: F,
    before: Seq<T>,
    xs: Seq<T>,
    after1: Seq<T>,
    after2: Seq<T>,
) where F: Fn(&T, &'a T) -> T
    requires
        deterministic(op),
        digests_to(op, before, xs, after1),
        digests_to(op, before, xs, after2),
    ensures
        after1 == after2,
{
    let n = before.len() as int;
    assert forall|j: int| 0 <= j < n implies after1[j] == after2[j] by {
        lemma_folds_to_one_value(op, before[j], lane(xs, j, n), after1[j], after2[j]);
    }
    assert(after1 =~= after2);
}

/// Where the operation computes the function `f`, a fold of `ys` into `acc`
/// gives the left fold of `f` over `ys` from `acc`.
pub proof fn lemma_folds_to_left_fold<'a, T, F>(
    op: F,
    f: spec_fn(T, T) -> T,
    acc: T,
    ys: Seq<T>,
    out: T,
) where F: Fn(&T, &'a T) -> T
    requires
        computes(op, f),
        folds_to(op, acc, ys, out),
    ensures
        out == ys.fold_left(acc, f),
    decreases ys.len(),
{
    if ys.len() > 0 {
        let mid = choose|mid: T|
            folds_to(op, acc, ys.drop_last(), mid) && #[trigger] op.ensures(
                (&mid, &ys.last()),
                out,
            );
        lemma_folds_to_left_fold(op, f, acc, ys.drop_last(), mid);
    }
}

/// Where the operation computes the function `f`, folding gives the digest
/// under `f` and nothing else.
pub proof fn lemma_digests_to_digest<'a, T, F>(
    op: F,
    f: spec_fn(T, T) -> T,
    before: Seq<T>,
    xs: Seq<T>,
    after: Seq<T>,
) where F: Fn(&T, &'a T) -> T
    requires
        computes(op, f),
        digests_to(op, before, xs, after),
    ensures
        after == digest(f, before, xs),
{
    let n = before.len() as int;
    assert forall|j: int| 0 <= j < n implies after[j] == digest(f, before, xs)[j] by {
        lemma_folds_to_left_fold(op, f, before[j], lane(xs, j, n), after[j]);
    }
    assert(after =~= digest(f, before, xs));
}

/// Where the operation computes the function `f`, it is enough to look at
/// the fold step by step: the whole input is accepted if, for each input `k`,
/// the operation accepts the value that slot `k % n` has after the inputs
/// before `k`, together with input `k`.
pub proof fn lemma_accepts_step_by_step<'a, T, F>(
    op: F,
    f: spec_fn(T, T) -> T,
    before: Seq<T>,
    xs: Seq<T>,
) where F: Fn(&T, &'a T) -> T
    requires
        computes(op, f),
        forall|k: int|
            0 <= k < xs.len() ==> op.requires(
                (&digest(f, before, #[trigger] xs.take(k))[k % (before.len() as int)], &xs[k]),
            ),
    ensures
        accepts(op, before, xs),
{
    let n = before.len() as int;
    assert forall|j: int| 0 <= j < n implies admits(op, #[trigger] before[j], lane(xs, j, n)) by {
        let ys = lane(xs, j, n);
        assert forall|t: int, mid: T|
            0 <= t < ys.len() && #[trigger] folds_to(op, before[j], ys.take(t), mid) implies op.requires(
            (&mid, &ys[t]),
        ) by {
            let k = lane_index(j, t, n);
            lemma_lane_position(xs.len() as int, j, t, n);
            lemma_lane_of_prefix(xs, k, j, n);
            lemma_folds_to_left_fold(op, f, before[j], ys.take(t), mid);
            assert(mid == digest(f, before, xs.take(k))[j]);
        }
    }
}

/// The digest without inputs is the buffer itself.
pub proof fn lemma_digest_no_input<T>(f: spec_fn(T, T) -> T, before: Seq<T>)
    ensures
        digest(f, before, Seq::<T>::empty()) == before,
{
    let none = Seq::<T>::empty();
    let n = before.len() as int;
    assert forall|j: int| 0 <= j < n implies digest(f, before, none)[j] == before[j] by {
        lemma_lane_len_next(0, j, n);
        lemma_lane_position(0, j, 0, n);
        assert(lane(none, j, n).len() == 0);
    }
    assert(digest(f, before, none) =~= before);
}

/// Fold and advance, for a function: one more input `x` after the inputs `xs`
/// replaces the value `v` of slot `xs.len() % n` by `f(v, x)`.
pub proof fn lemma_digest_one_more<T>(f: spec_fn(T, T) -> T, before: Seq<T>, xs: Seq<T>, x: T)
    requires
        before.len() > 0,
    ensures
        digest(f, before, xs.push(x)) == {
            let i = xs.len() as int % before.len() as int;
            let now = digest(f, before, xs);
            now.update(i, f(now[i], x))
        },
{
    let n = before.len() as int;
    let i = xs.len() as int % n;
    lemma_slot_advances(xs.len() as int, n);
    let now = digest(f, before, xs);
    let then = now.update(i, f(now[i], x));
    assert forall|j: int| 0 <= j < n implies digest(f, before, xs.push(x))[j] == then[j] by {
        lemma_lane_push(xs, x, j, n);
        if j == i {
            let grown = lane(xs, j, n).push(x);
            assert(grown.drop_last() =~= lane(xs, j, n));
        }
    }
    assert(digest(f, before, xs.push(x)) =~= then);
}

/// Order sensitivity: with two slots, the inputs `a, b` put `a` into the
/// first slot and `b` into the second, and the inputs `b, a` the other way
/// round. The two buffers are the same only where `f` cannot tell `a` from
/// `b` in either slot.
pub proof fn lemma_order_matters<T>(f: spec_fn(T, T) -> T, before: Seq<T>, a: T, b: T)
    requires
        before.len() == 2,
    ensures
        digest(f, before, seq![a, b]) == seq![f(before[0], a), f(before[1], b)],
        digest(f, before, seq![b, a]) == seq![f(before[0], b), f(before[1], a)],
        digest(f, before, seq![a, b]) == digest(f, before, seq![b, a]) <==> f(before[0], a) == f(
            before[0],
            b,
        ) && f(before[1], b) == f(before[1], a),
{
    let none = Seq::<T>::empty();
    lemma_digest_no_input(f, before);
    lemma_digest_one_more(f, before, none, a);
    lemma_digest_one_more(f, before, none.push(a), b);
    lemma_digest_one_more(f, before, none, b);
    lemma_digest_one_more(f, before, none.push(b), a);
    assert(none.push(a).push(b) =~= seq![a, b]);
    assert(none.push(b).push(a) =~= seq![b, a]);
    let ab = seq![f(before[0], a), f(before[1], b)];
    let ba = seq![f(before[0], b), f(before[1], a)];
    assert(digest(f, before, seq![a, b]) =~= ab);
    assert(digest(f, before, seq![b, a]) =~= ba);
    if ab == ba {
        assert(ab[0] == ba[0]);
        assert(ab[1] == ba[1]);
    }
    if f(before[0], a) == f(before[0], b) && f(before[1], b) == f(before[1], a) {
        assert(ab =~= ba);
    }
}

} // verus!
