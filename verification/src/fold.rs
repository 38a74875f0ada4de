//! Folding a run of inputs into a buffer in one pass.

use crate::laws::{lemma_digests_one_more, lemma_next_call_accepted, lemma_slot_advances};
use crate::model::{accepts, digests_to};
use vstd::prelude::*;
use vstd::std_specs::iter::IteratorSpec;

verus! {

/// Digests `inp` into `sbox` in place, in a single pass.
///
/// The inputs are taken in order, each exactly once. The input at position
/// `k` is folded into slot `k % sbox.len()`: the slot's value `v` becomes
/// `op(&v, input)`, the slot's value first and the input second. So the slots
/// are written round-robin from slot 0 on, and each slot ends up as the fold
/// of the inputs that landed in it, in the order in which they came.
///
/// `op` can be any function that acts like a binary operator. It need not be
/// commutative, and the order of its operands is never swapped.
///
/// An empty `sbox` is left as it is, and `inp` is then not looked at, so in
/// that case `inp` may even be endless. For an `sbox` with slots, `inp` has
/// to come to an end, and `op` has to accept every call that the fold comes
/// to make ([`accepts`]); an `op` without a precondition accepts them all.
pub fn hasher_single<'a, T, I, F>(inp: I, sbox: &mut [T], op: F) where
    T: 'a,
    I: Iterator<Item = &'a T>,
    F: Fn(&T, &'a T) -> T,

    requires
        old(sbox)@.len() > 0 ==> {
            &&& inp.obeys_prophetic_iter_laws()
            &&& inp.decrease() is Some
            &&& accepts(op, old(sbox)@, inp.remaining().unref())
        },
    ensures
        digests_to(op, old(sbox)@, inp.remaining().unref(), final(sbox)@),
        old(sbox)@.len() == 0 ==> final(sbox)@ == old(sbox)@,
{
    if sbox.len() == 0 {
        return ;
    }
    let ghost before = sbox@;
    let ghost xs = inp.remaining().unref();
    let mut rest = inp;
    let mut i: usize = 0;
    // how many inputs have been folded so far
    let ghost mut k: int = 0;
    proof {
        assert(xs.take(0) =~= Seq::<T>::empty());
        assert(inp.remaining().skip(0) =~= inp.remaining());
    }
    loop
        invariant
            xs == inp.remaining().unref(),
            rest.obeys_prophetic_iter_laws(),
            rest.decrease() is Some,
            0 <= k <= inp.remaining().len(),
            rest.remaining() == inp.remaining().skip(k),
            sbox@.len() == before.len(),
            sbox@.len() > 0,
            i == k % (sbox@.len() as int),
            accepts(op, before, xs),
            digests_to(op, before, xs.take(k), sbox@),
        ensures
            digests_to(op, before, xs, sbox@),
        decreases rest.decrease()->0,
    {
        match rest.next() {
            None => {
                proof {
                    assert(xs.take(k) =~= xs);
                }
                break ;
            },
            Some(b) => {
                proof {
                    assert(*b == xs[k]);
                    lemma_slot_advances(k, sbox@.len() as int);
                    lemma_next_call_accepted(op, before, xs, k, sbox@);
                }
                let ghost now = sbox@;
                let folded = op(&sbox[i], b);
                proof {
                    let seen = xs.take(k);
                    lemma_digests_one_more(op, before, seen, *b, now, folded);
                    assert(seen.push(*b) =~= xs.take(k + 1));
                }
                sbox[i] = folded;
                i += 1;
                if i >= sbox.len() {
                    i = 0;
                }
                proof {
                    assert(rest.remaining() =~= inp.remaining().skip(k + 1));
                    k = k + 1;
                }
            },
        }
    }
}

} // verus!
