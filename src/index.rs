use vstd::prelude::*;

verus! {

/// What a handle type offers the containers of this crate: a position in
/// storage, a successor and predecessor, and a largest value that is kept
/// back as the "no value" marker.
pub trait StableIndex: Copy + Sized {
    /// The storage position this handle denotes.
    spec fn pos(&self) -> nat;

    /// The position of the largest value of the handle type.
    spec fn limit() -> nat;

    proof fn lemma_bounds(&self)
        ensures
            self.pos() <= Self::limit(),
            0 < Self::limit() <= usize::MAX,
    ;

    fn cast_to(self) -> (r: usize)
        ensures
            r == self.pos(),
    ;

    fn cast_from(n: usize) -> (r: Self)
        requires
            n < Self::limit(),
        ensures
            r.pos() == n,
    ;

    fn max_value() -> (r: Self)
        ensures
            r.pos() == Self::limit(),
    ;

    fn next_value(self) -> (r: Self)
        requires
            self.pos() < Self::limit(),
        ensures
            r.pos() == self.pos() + 1,
    ;

    fn prev_value(self) -> (r: Self)
        requires
            self.pos() > 0,
        ensures
            r.pos() == self.pos() - 1,
    ;
}

impl StableIndex for u8 {
    open spec fn pos(&self) -> nat {
        *self as nat
    }

    open spec fn limit() -> nat {
        u8::MAX as nat
    }

    proof fn lemma_bounds(&self) {
    }

    fn cast_to(self) -> (r: usize) {
        self as usize
    }

    fn cast_from(n: usize) -> (r: Self) {
        n as u8
    }

    fn max_value() -> (r: Self) {
        u8::MAX
    }

    fn next_value(self) -> (r: Self) {
        self + 1
    }

    fn prev_value(self) -> (r: Self) {
        self - 1
    }
}

impl StableIndex for u16 {
    open spec fn pos(&self) -> nat {
        *self as nat
    }

    open spec fn limit() -> nat {
        u16::MAX as nat
    }

    proof fn lemma_bounds(&self) {
    }

    fn cast_to(self) -> (r: usize) {
        self as usize
    }

    fn cast_from(n: usize) -> (r: Self) {
        n as u16
    }

    fn max_value() -> (r: Self) {
        u16::MAX
    }

    fn next_value(self) -> (r: Self) {
        self + 1
    }

    fn prev_value(self) -> (r: Self) {
        self - 1
    }
}

impl StableIndex for u32 {
    open spec fn pos(&self) -> nat {
        *self as nat
    }

    open spec fn limit() -> nat {
        u32::MAX as nat
    }

    proof fn lemma_bounds(&self) {
    }

    fn cast_to(self) -> (r: usize) {
        self as usize
    }

    fn cast_from(n: usize) -> (r: Self) {
        n as u32
    }

    fn max_value() -> (r: Self) {
        u32::MAX
    }

    fn next_value(self) -> (r: Self) {
        self + 1
    }

    fn prev_value(self) -> (r: Self) {
        self - 1
    }
}

impl StableIndex for usize {
    open spec fn pos(&self) -> nat {
        *self as nat
    }

    open spec fn limit() -> nat {
        usize::MAX as nat
    }

    proof fn lemma_bounds(&self) {
    }

    fn cast_to(self) -> (r: usize) {
        self
    }

    fn cast_from(n: usize) -> (r: Self) {
        n
    }

    fn max_value() -> (r: Self) {
        usize::MAX
    }

    fn next_value(self) -> (r: Self) {
        self + 1
    }

    fn prev_value(self) -> (r: Self) {
        self - 1
    }
}

} // verus!
