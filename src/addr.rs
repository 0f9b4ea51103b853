use vstd::prelude::*;

verus! {

/// `a` rounded up to the next multiple of `align`.
pub open spec fn align_up_spec(a: usize, align: usize) -> int {
    if a % align == 0 {
        a as int
    } else {
        a + (align - a % align)
    }
}

/// An address held as a plain integer.
pub trait Addr: Sized {
    spec fn value(&self) -> usize;

    fn from_usize(addr: usize) -> (r: Self)
        ensures
            r.value() == addr,
    ;

    fn as_usize(&self) -> (r: usize)
        ensures
            r == self.value(),
    ;

    /// The address rounded up to a multiple of `align`.
    fn align_up(&self, align: usize) -> (r: Self)
        requires
            align > 0,
            self.value() + align - 1 <= usize::MAX,
        ensures
            r.value() == align_up_spec(self.value(), align),
    ;

    fn is_aligned(&self, align: usize) -> (r: bool)
        requires
            align > 0,
        ensures
            r == (self.value() % align == 0),
    ;
}

fn align_up_usize(a: usize, align: usize) -> (r: usize)
    requires
        align > 0,
        a + align - 1 <= usize::MAX,
    ensures
        r == align_up_spec(a, align),
{
    let rem = a % align;
    if rem == 0 {
        a
    } else {
        a + (align - rem)
    }
}

/// A physical address.
#[derive(Clone, Copy, Debug, PartialEq, Eq, Structural)]
pub struct PhysAddr(usize);

/// A virtual address.
#[derive(Clone, Copy, Debug, PartialEq, Eq, Structural)]
pub struct VirtAddr(usize);

impl Addr for PhysAddr {
    closed spec fn value(&self) -> usize {
        self.0
    }

    fn from_usize(addr: usize) -> (r: Self) {
        PhysAddr(addr)
    }

    fn as_usize(&self) -> (r: usize) {
        self.0
    }

    fn align_up(&self, align: usize) -> (r: Self) {
        PhysAddr(align_up_usize(self.0, align))
    }

    fn is_aligned(&self, align: usize) -> (r: bool) {
        self.0 % align == 0
    }
}

impl Addr for VirtAddr {
    closed spec fn value(&self) -> usize {
        self.0
    }

    fn from_usize(addr: usize) -> (r: Self) {
        VirtAddr(addr)
    }

    fn as_usize(&self) -> (r: usize) {
        self.0
    }

    fn align_up(&self, align: usize) -> (r: Self) {
        VirtAddr(align_up_usize(self.0, align))
    }

    fn is_aligned(&self, align: usize) -> (r: bool) {
        self.0 % align == 0
    }
}

} // verus!
