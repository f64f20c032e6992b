//! A growable sequence whose allocations report failure instead of aborting.

use vstd::prelude::*;

verus! {

/// Storage could not be obtained: the allocator refused, or the requested
/// size does not fit in the address space.
#[derive(Debug, Clone, Copy, PartialEq, Eq, Structural)]
pub struct AllocError;

/// A wrapper around `Vec<T>` whose construction, growth and copying return
/// `Err(AllocError)` when memory cannot be had.
#[derive(Debug)]
pub struct VecExtra<T>(Vec<T>);

impl<T> View for VecExtra<T> {
    type V = Seq<T>;

    closed spec fn view(&self) -> Seq<T> {
        self.0@
    }
}

impl<T> VecExtra<T> {
    /// An empty sequence; nothing is allocated.
    pub fn new() -> (r: Self)
        ensures
            r@ == Seq::<T>::empty(),
    {
        VecExtra(Vec::new())
    }

    /// An empty sequence with room reserved for `capacity` elements, or
    /// `Err` when that room cannot be had.
    pub fn with_capacity(capacity: usize) -> (r: Result<Self, AllocError>)
        ensures
            r matches Ok(v) ==> v@ == Seq::<T>::empty(),
    {
        let mut v: Vec<T> = Vec::new();
        match v.try_reserve(capacity) {
            Ok(()) => Ok(VecExtra(v)),
            Err(_) => Err(AllocError),
        }
    }

    /// Appends `value`; on `Err` the sequence is left as it was.
    pub fn try_push(&mut self, value: T) -> (r: Result<(), AllocError>)
        ensures
            r is Ok ==> final(self)@ == old(self)@.push(value),
            r is Err ==> final(self)@ == old(self)@,
    {
        match self.0.try_reserve(1) {
            Ok(()) => {
                self.0.push(value);
                Ok(())
            },
            Err(_) => Err(AllocError),
        }
    }

    /// The number of elements.
    pub fn len(&self) -> (r: usize)
        ensures
            r == self@.len(),
    {
        self.0.len()
    }

    /// Whether there are no elements.
    pub fn is_empty(&self) -> (r: bool)
        ensures
            r == (self@.len() == 0),
    {
        self.0.len() == 0
    }

    /// The element at `index`.
    pub fn get(&self, index: usize) -> (r: &T)
        requires
            index < self@.len(),
        ensures
            *r == self@[index as int],
    {
        &self.0[index]
    }

    /// Replaces the element at `index`.
    pub fn set(&mut self, index: usize, value: T)
        requires
            index < old(self)@.len(),
        ensures
            final(self)@ == old(self)@.update(index as int, value),
    {
        self.0[index] = value;
    }

    /// The elements as a slice.
    pub fn as_slice(&self) -> (r: &[T])
        ensures
            r@ == self@,
    {
        self.0.as_slice()
    }
}

impl<T: Copy> VecExtra<T> {
    /// A sequence holding `count` copies of `value`, or `Err` when the
    /// storage cannot be had.
    pub fn try_filled(value: T, count: usize) -> (r: Result<Self, AllocError>)
        ensures
            r matches Ok(v) ==> v@ == Seq::new(count as nat, |i: int| value),
    {
        let mut v = match VecExtra::with_capacity(count) {
            Ok(v) => v,
            Err(e) => return Err(e),
        };
        let mut i: usize = 0;
        while i < count
            invariant
                i <= count,
                v@ == Seq::new(i as nat, |k: int| value),
            decreases count - i,
        {
            match v.try_push(value) {
                Ok(()) => {},
                Err(e) => return Err(e),
            }
            i = i + 1;
            assert(v@ =~= Seq::new(i as nat, |k: int| value));
        }
        Ok(v)
    }

    /// A sequence holding the elements of `items`, in order, or `Err` when
    /// any of them cannot be stored; no element is dropped silently.
    pub fn try_from_slice(items: &[T]) -> (r: Result<Self, AllocError>)
        ensures
            r matches Ok(v) ==> v@ == items@,
    {
        let mut v = match VecExtra::with_capacity(items.len()) {
            Ok(v) => v,
            Err(e) => return Err(e),
        };
        let mut i: usize = 0;
        while i < items.len()
            invariant
                i <= items@.len(),
                v@ == items@.subrange(0, i as int),
            decreases items@.len() - i,
        {
            match v.try_push(items[i]) {
                Ok(()) => {},
                Err(e) => return Err(e),
            }
            i = i + 1;
            assert(v@ =~= items@.subrange(0, i as int));
        }
        assert(items@.subrange(0, i as int) =~= items@);
        Ok(v)
    }

    /// A copy of this sequence, or `Err` when the copy's storage cannot be had.
    pub fn try_clone(&self) -> (r: Result<Self, AllocError>)
        ensures
            r matches Ok(v) ==> v@ == self@,
    {
        VecExtra::try_from_slice(self.0.as_slice())
    }
}

impl VecExtra<u8> {
    /// The stored bytes, read-only, in order.
    pub fn as_bytes(&self) -> (r: &[u8])
        ensures
            r@ == self@,
    {
        self.0.as_slice()
    }
}

} // verus!
