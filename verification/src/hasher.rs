//! A folder that stays bound to one buffer: a write position and the buffer
//! it points into, kept together from one call to the next.

use vstd::prelude::*;

verus! {

/// A write position `i` is one that a buffer of `len` slots can have: a slot
/// of the buffer, or 0 where the buffer has no slot.
pub open spec fn cursor_fits(i: int, len: int) -> bool {
    if len == 0 {
        i == 0
    } else {
        0 <= i < len
    }
}

/// A write position together with the buffer that it points into.
///
/// The buffer is borrowed for as long as the folder lives, so nobody else can
/// write to it in between. When the folder is gone the buffer is the caller's
/// again, with the contents that the folder left in it
/// (see [`Hasher::lemma_released`]).
pub struct Hasher<'a, T> {
    /// index of the slot that the next input is folded into
    i: usize,
    /// the buffer that holds the digest as far as it has come
    sbox: &'a mut [T],
}

impl<'a, T> Hasher<'a, T> {
    /// The write position.
    pub closed spec fn cursor(&self) -> int {
        self.i as int
    }

    /// The borrow of the buffer that this folder holds.
    pub closed spec fn borrowed(&self) -> &'a mut [T] {
        self.sbox
    }

    /// What the buffer holds now.
    pub open spec fn state(&self) -> Seq<T> {
        self.borrowed()@
    }

    /// The write position points into the buffer.
    pub open spec fn wf(&self) -> bool {
        cursor_fits(self.cursor(), self.state().len() as int)
    }

    /// Once a folder is no longer used, the buffer that it gives back holds
    /// the folder's last state.
    pub proof fn lemma_released(self)
        requires
            has_resolved(self),
        ensures
            final(self.borrowed())@ == self.state(),
    {
    }

    /// Binds a folder to the buffer `iv`, the initialization vector, with
    /// `start` as the slot to write to first. The buffer is taken as it is.
    ///
    /// `start` has to be a slot of `iv`, or 0 where `iv` is empty.
    pub fn new(start: usize, iv: &'a mut [T]) -> (h: Self)
        requires
            cursor_fits(start as int, old(iv)@.len() as int),
        ensures
            h.wf(),
            h.cursor() == start,
            h.state() == old(iv)@,
            final(iv)@ == final(h.borrowed())@,
    {
        Hasher { i: start, sbox: iv }
    }

    /// The next element of the folder's output: always `None`.
    ///
    /// This is a choice. A folder holds neither inputs nor an operation, so
    /// there is nothing that it could fold at this point, and its slots are
    /// borrowed values of any type, so there is none that it could hand out.
    /// What is read out of a finished buffer is up to the buffer's owner.
    /// The output of a folder is therefore the empty sequence: this is the
    /// end of it at the first call and at every later one, for an empty
    /// buffer as for any other, and no call folds, moves or writes anything.
    pub fn next(&mut self) -> (out: Option<T>)
        ensures
            out is None,
            *final(self) == *old(self),
    {
        None
    }
}

} // verus!
