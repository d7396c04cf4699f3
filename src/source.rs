//! Transactional, position-tracked cursors over an input of bytes.
//!
//! A fork is a cheap copy of a cursor (a reference to the items and a
//! position). Reads and consumption on a fork are invisible to its parent
//! until the parent joins it; dropping a fork rolls its work back.
use vstd::prelude::*;
use vstd::slice::slice_subrange;

verus! {

/// `fork` is what `parent.fork()` returns: same input, same position.
pub open spec fn is_fork<S: SourceBase>(fork: S, parent: S) -> bool {
    &&& fork.wf()
    &&& fork.input() == parent.input()
    &&& fork.pos() == parent.pos()
}

/// `after` is `before` after `consume(len)`.
pub open spec fn is_consumed<S: SourceBase>(after: S, before: S, len: nat) -> bool {
    &&& after.wf()
    &&& after.input() == before.input()
    &&& after.pos() == before.pos() + len
}

/// `after` is `before` after `join(fork)`.
pub open spec fn is_joined<S: SourceBase>(after: S, before: S, fork: S) -> bool {
    &&& after.wf()
    &&& after.input() == before.input()
    &&& after.pos() == fork.pos()
}

/// What every cursor offers: consumption, the position, and committing a fork.
pub trait SourceBase: Sized {
    /// The whole input, from its true start.
    spec fn input(&self) -> Seq<u8>;

    /// How many items have been consumed from the true start of the input.
    spec fn pos(&self) -> nat;

    /// The cursor's internal invariant.
    spec fn wf(&self) -> bool;

    proof fn lemma_wf(&self)
        requires
            self.wf(),
        ensures
            self.pos() <= self.input().len(),
    ;

    /// Advances the position by `len` items, which must be available.
    fn consume(&mut self, len: usize)
        requires
            old(self).wf(),
            old(self).pos() + len <= old(self).input().len(),
        ensures
            final(self).wf(),
            final(self).input() == old(self).input(),
            final(self).pos() == old(self).pos() + len,
    ;

    fn position(&self) -> (r: usize)
        requires
            self.wf(),
        ensures
            r == self.pos(),
    ;

    /// Commits the work of `fork`, a fork of this cursor, into this cursor.
    fn join(&mut self, fork: Self)
        requires
            old(self).wf(),
            fork.wf(),
            fork.input() == old(self).input(),
            old(self).pos() <= fork.pos(),
        ensures
            final(self).wf(),
            final(self).input() == old(self).input(),
            final(self).pos() == fork.pos(),
    ;
}

/// Items that are still to be read from `pos` on, at most `len` of them.
pub open spec fn window(input: Seq<u8>, pos: nat, len: nat) -> Seq<u8> {
    if pos + len <= input.len() {
        input.subrange(pos as int, (pos + len) as int)
    } else {
        input.subrange(pos as int, input.len() as int)
    }
}

/// A cursor that can be forked and read without consuming.
pub trait Source: SourceBase {
    /// A speculative copy of this cursor, at the same position.
    fn fork(&self) -> (r: Self)
        requires
            self.wf(),
        ensures
            r.wf(),
            r.input() == self.input(),
            r.pos() == self.pos(),
    ;

    /// The next `len` items, or all that remain when fewer are left.
    fn read(&self, len: usize) -> (r: &[u8])
        requires
            self.wf(),
        ensures
            r@ == window(self.input(), self.pos(), len as nat),
    ;
}

/// A cursor over an in-memory slice; reads never wait.
pub struct SliceSource<'a> {
    items: &'a [u8],
    position: usize,
}

/// A root cursor at the start of `slice`.
pub fn from_slice<'a>(slice: &'a [u8]) -> (r: SliceSource<'a>)
    ensures
        r.wf(),
        r.input() == slice@,
        r.pos() == 0,
{
    SliceSource { items: slice, position: 0 }
}

impl<'a> SourceBase for SliceSource<'a> {
    closed spec fn input(&self) -> Seq<u8> {
        self.items@
    }

    closed spec fn pos(&self) -> nat {
        self.position as nat
    }

    closed spec fn wf(&self) -> bool {
        self.position <= self.items@.len()
    }

    proof fn lemma_wf(&self) {
    }

    fn consume(&mut self, len: usize) {
        proof {
            assert(self.items@.len() == self.items.len());
        }
        self.position = self.position + len;
    }

    fn position(&self) -> (r: usize) {
        self.position
    }

    fn join(&mut self, fork: Self) {
        self.position = fork.position;
    }
}

impl<'a> Source for SliceSource<'a> {
    fn fork(&self) -> (r: Self) {
        SliceSource { items: self.items, position: self.position }
    }

    fn read(&self, len: usize) -> (r: &[u8]) {
        let available = self.items.len() - self.position;
        let n = if len < available {
            len
        } else {
            available
        };
        slice_subrange(self.items, self.position, self.position + n)
    }
}

} // verus!
