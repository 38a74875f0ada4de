//! The mathematical model of folding.
//!
//! A buffer of `n` slots takes the inputs round-robin: the input at position
//! `k` (counted from zero) goes to slot `k % n`. Seen from one slot, the fold
//! is an ordinary left fold over the inputs that land there, its *lane*. The
//! whole fold is `n` such left folds that never touch each other.
//!
//! The combining operation is an executable function value, so all that is
//! known of it is its contract: `op.requires(..)` says on which operands it
//! may be called, `op.ensures(..)` relates operands to results and need not be
//! a function. The model therefore comes in two layers: relations over the
//! operation as it is ([`folds_to`], [`digests_to`]), and a closed form over a
//! mathematical function that the operation computes ([`digest`]).

use vstd::prelude::*;

verus! {

/// How many of the first `len` inputs land in slot `j` of a buffer of `n`
/// slots: every slot gets `len / n` of them, and the first `len % n` slots one
/// more.
pub open spec fn lane_len(len: int, j: int, n: int) -> int
    recommends
        0 < n,
        0 <= j < n,
        0 <= len,
{
    len / n + if j < len % n { 1int } else { 0int }
}

/// Which input stands at position `t` of the lane of slot `j`: the slot's
/// first input is input `j`, and from one input of a slot to the next the
/// fold goes once round all `n` slots.
pub open spec fn lane_index(j: int, t: int, n: int) -> int {
    j + t * n
}

/// The lane of slot `j`: the inputs `xs[j]`, `xs[j + n]`, `xs[j + 2 * n]`, ...
/// in the order in which they arrive.
pub open spec fn lane<A>(xs: Seq<A>, j: int, n: int) -> Seq<A>
    recommends
        0 < n,
        0 <= j < n,
{
    Seq::new(lane_len(xs.len() as int, j, n) as nat, |t: int| xs[lane_index(j, t, n)])
}

/// `out` is a value that folding `ys` into `acc` can give: there are
/// intermediate values, one per element of `ys`, each a result that `op`
/// allows for the value before it (first operand) and the element (second
/// operand), and `out` is the last of them. With no elements, `out` is `acc`.
pub open spec fn folds_to<'a, T, F>(op: F, acc: T, ys: Seq<T>, out: T) -> bool where
    F: Fn(&T, &'a T) -> T,

    decreases ys.len(),
{
    if ys.len() == 0 {
        out == acc
    } else {
        exists|mid: T|
            folds_to(op, acc, ys.drop_last(), mid) && #[trigger] op.ensures(
                (&mid, &ys.last()),
                out,
            )
    }
}

/// `op` may be called at every step of folding `ys` into `acc`: whatever value
/// the fold of a proper prefix of `ys` has given, `op` accepts it together with
/// the element that comes next.
pub open spec fn admits<'a, T, F>(op: F, acc: T, ys: Seq<T>) -> bool where
    F: Fn(&T, &'a T) -> T,
 {
    forall|t: int, mid: T|
        0 <= t < ys.len() && #[trigger] folds_to(op, acc, ys.take(t), mid) ==> op.requires(
            (&mid, &ys[t]),
        )
}

/// `op` may be called at every step of folding the inputs `xs` into a buffer
/// that holds `before`: each slot's lane is admitted from that slot's value.
pub open spec fn accepts<'a, T, F>(op: F, before: Seq<T>, xs: Seq<T>) -> bool where
    F: Fn(&T, &'a T) -> T,
 {
    forall|j: int|
        0 <= j < before.len() ==> admits(op, #[trigger] before[j], lane(xs, j, before.len() as int))
}

/// `after` is a buffer that folding the inputs `xs` into `before` can give: it
/// has the length of `before`, and each slot holds a fold of that slot's lane
/// into the slot's value in `before`.
pub open spec fn digests_to<'a, T, F>(op: F, before: Seq<T>, xs: Seq<T>, after: Seq<T>) -> bool where
    F: Fn(&T, &'a T) -> T,
 {
    &&& after.len() == before.len()
    &&& forall|j: int|
        0 <= j < before.len() ==> folds_to(
            op,
            before[j],
            lane(xs, j, before.len() as int),
            #[trigger] after[j],
        )
}

/// `op` accepts every pair of operands.
pub open spec fn total<'a, T, F>(op: F) -> bool where F: Fn(&T, &'a T) -> T {
    forall|a: T, b: T| #[trigger] op.requires((&a, &b))
}

/// `op` gives at most one result for each pair of operands.
pub open spec fn deterministic<'a, T, F>(op: F) -> bool where F: Fn(&T, &'a T) -> T {
    forall|a: T, b: T, r1: T, r2: T|
        #[trigger] op.ensures((&a, &b), r1) && #[trigger] op.ensures((&a, &b), r2) ==> r1 == r2
}

/// Every result of `op` is the value of `f` on the same operands.
pub open spec fn computes<'a, T, F>(op: F, f: spec_fn(T, T) -> T) -> bool where
    F: Fn(&T, &'a T) -> T,
 {
    forall|a: T, b: T, r: T| #[trigger] op.ensures((&a, &b), r) ==> r == f(a, b)
}

/// The buffer after folding the inputs `xs` into `before` with the function
/// `f`: slot `j` holds the left fold of `f` over lane `j`, starting from
/// `before[j]`.
pub open spec fn digest<T>(f: spec_fn(T, T) -> T, before: Seq<T>, xs: Seq<T>) -> Seq<T> {
    Seq::new(
        before.len(),
        |j: int| lane(xs, j, before.len() as int).fold_left(before[j], f),
    )
}

} // verus!
