//! Facts about lanes: how long they are, which inputs they hold, and how they
//! grow when one more input arrives.

use crate::model::{lane, lane_index, lane_len};
use vstd::arithmetic::div_mod::{
    lemma_fundamental_div_mod, lemma_fundamental_div_mod_converse, lemma_mod_bound,
};
use vstd::arithmetic::mul::{lemma_mul_inequality, lemma_mul_is_commutative};
use vstd::prelude::*;

verus! {

/// A count of inputs splits into full rounds over the `n` slots and a rest
/// that is shorter than a round.
pub proof fn lemma_rounds_and_rest(len: int, n: int)
    requires
        0 < n,
        0 <= len,
    ensures
        len == (len / n) * n + len % n,
        0 <= len % n < n,
        0 <= len / n,
{
    lemma_fundamental_div_mod(len, n);
    lemma_mod_bound(len, n);
    lemma_mul_is_commutative(n, len / n);
    if len / n < 0 {
        lemma_mul_inequality(len / n, -1, n);
    }
}

/// Position `t` of lane `j` holds input `j + t * n`, and the other way round
/// an input's slot and position are the remainder and the quotient of its
/// index. Position `t` lies in the lane of the first `len` inputs exactly if
/// input `j + t * n` is among them.
pub proof fn lemma_lane_position(len: int, j: int, t: int, n: int)
    requires
        0 < n,
        0 <= j < n,
        0 <= len,
        0 <= t,
    ensures
        t < lane_len(len, j, n) <==> lane_index(j, t, n) < len,
        0 <= lane_index(j, t, n),
        lane_index(j, t, n) % n == j,
        lane_index(j, t, n) / n == t,
{
    lemma_rounds_and_rest(len, n);
    let q = len / n;
    lemma_mul_inequality(0, t, n);
    if t <= q {
        lemma_mul_inequality(t, q, n);
    }
    if t <= q - 1 {
        lemma_mul_inequality(t, q - 1, n);
        assert((q - 1) * n == q * n - n) by (nonlinear_arith);
    }
    if q + 1 <= t {
        lemma_mul_inequality(q + 1, t, n);
        assert((q + 1) * n == q * n + n) by (nonlinear_arith);
    }
    if q <= t {
        lemma_mul_inequality(q, t, n);
    }
    lemma_fundamental_div_mod_converse(j + t * n, n, t, j);
}

/// One more input makes the lane of its own slot, `len % n`, longer by one
/// and leaves the other lanes as long as they were. It stands at the end of
/// its lane.
pub proof fn lemma_lane_len_next(len: int, j: int, n: int)
    requires
        0 < n,
        0 <= j < n,
        0 <= len,
    ensures
        0 <= lane_len(len, j, n),
        lane_len(len + 1, j, n) == lane_len(len, j, n) + if j == len % n { 1int } else { 0int },
        j == len % n ==> lane_index(j, lane_len(len, j, n), n) == len,
{
    lemma_rounds_and_rest(len, n);
    let q = len / n;
    let r = len % n;
    if r + 1 < n {
        lemma_fundamental_div_mod_converse(len + 1, n, q, r + 1);
    } else {
        assert((q + 1) * n == q * n + n) by (nonlinear_arith);
        lemma_fundamental_div_mod_converse(len + 1, n, q + 1, 0);
    }
}

/// A lane never shrinks when more inputs arrive.
pub proof fn lemma_lane_len_grows(len1: int, len2: int, j: int, n: int)
    requires
        0 < n,
        0 <= j < n,
        0 <= len1 <= len2,
    ensures
        0 <= lane_len(len1, j, n) <= lane_len(len2, j, n),
    decreases len2 - len1,
{
    lemma_lane_len_next(len1, j, n);
    if len1 < len2 {
        lemma_lane_len_grows(len1 + 1, len2, j, n);
    }
}

/// The lanes of a longer input begin with the lanes of each of its prefixes.
pub proof fn lemma_lane_of_prefix<A>(xs: Seq<A>, k: int, j: int, n: int)
    requires
        0 < n,
        0 <= j < n,
        0 <= k <= xs.len(),
    ensures
        lane_len(k, j, n) <= lane(xs, j, n).len(),
        lane(xs.take(k), j, n) == lane(xs, j, n).take(lane_len(k, j, n)),
{
    lemma_lane_len_grows(k, xs.len() as int, j, n);
    let short = lane(xs.take(k), j, n);
    let long = lane(xs, j, n);
    assert forall|t: int| 0 <= t < lane_len(k, j, n) implies short[t] == long[t] by {
        lemma_lane_position(k, j, t, n);
    }
    assert(short =~= long.take(lane_len(k, j, n)));
}

/// Appending an input extends the lane of slot `xs.len() % n` by that input
/// and leaves every other lane as it was.
pub proof fn lemma_lane_push<A>(xs: Seq<A>, x: A, j: int, n: int)
    requires
        0 < n,
        0 <= j < n,
    ensures
        lane(xs.push(x), j, n) == if j == xs.len() as int % n {
            lane(xs, j, n).push(x)
        } else {
            lane(xs, j, n)
        },
{
    let len = xs.len() as int;
    lemma_lane_len_next(len, j, n);
    lemma_lane_of_prefix(xs.push(x), len, j, n);
    assert(xs.push(x).take(len) =~= xs);
    let grown = lane(xs.push(x), j, n);
    if j == len % n {
        assert(grown =~= lane(xs, j, n).push(x));
    } else {
        assert(grown =~= lane(xs, j, n));
    }
}

} // verus!
