//! Device-tagged element buffers.
//!
//! A [`Storage`] owns exactly one contiguous buffer of elements. Its length
//! is fixed at construction, the allocation is released exactly once when
//! the storage is dropped, and mutation changes element contents only,
//! never the buffer's identity or length. A storage knows nothing about
//! shapes: strided views over a buffer are the business of [`crate::tensor`].

use vstd::prelude::*;

verus! {

/// Where a buffer's elements live.
///
/// `Metal` is a placeholder for a native accelerator allocation path that
/// does not exist yet; see [`Storage::new`] for the documented fallback.
#[derive(Clone, Copy, Debug, PartialEq, Eq, Structural)]
pub enum Device {
    CPU,
    Metal,
}

/// An owning buffer of `len` elements of `T`, tagged with the device it
/// was requested on.
///
/// A zero-length storage is legal and holds no addressable memory: both
/// slice accessors then return an empty view. The element buffer is viewed
/// as the sequence of its contents.
pub struct Storage<T> {
    data: Vec<T>,
    device: Device,
}

impl<T> View for Storage<T> {
    type V = Seq<T>;

    closed spec fn view(&self) -> Seq<T> {
        self.data@
    }
}

impl<T> Storage<T> {
    /// The device this storage was requested on.
    pub closed spec fn spec_device(&self) -> Device {
        self.device
    }

    /// Element capacity of the buffer.
    pub fn len(&self) -> (n: usize)
        ensures
            n == self@.len(),
    {
        self.data.len()
    }

    /// The device this storage was requested on.
    pub fn device(&self) -> (d: Device)
        ensures
            d == self.spec_device(),
    {
        self.device
    }

    /// A read-only view over exactly `len` elements.
    pub fn as_slice(&self) -> (r: &[T])
        ensures
            r@ == self@,
    {
        self.data.as_slice()
    }

    /// An exclusive, writable view over exactly `len` elements. While this
    /// borrow is live no other view of the storage can exist, and the
    /// buffer's length cannot change through it.
    pub fn as_mut_slice(&mut self) -> (r: &mut [T])
        ensures
            r@ == old(self)@,
            final(self)@ == final(r)@,
            final(self).spec_device() == old(self).spec_device(),
    {
        self.data.as_mut_slice()
    }

    /// Reads the element at linear position `i`.
    pub fn read(&self, i: usize) -> (r: &T)
        requires
            i < self@.len(),
        ensures
            *r == self@[i as int],
    {
        &self.data[i]
    }

    /// Overwrites the element at linear position `i`.
    pub fn write(&mut self, i: usize, value: T)
        requires
            i < old(self)@.len(),
        ensures
            final(self)@ == old(self)@.update(i as int, value),
            final(self).spec_device() == old(self).spec_device(),
    {
        self.data[i] = value;
    }
}

impl<T: Default> Storage<T> {
    /// Allocates a buffer of `size` elements on `device`, every element
    /// starting from `T::default()`. A request for zero elements succeeds
    /// and holds no addressable memory.
    ///
    /// `Metal` has no native allocation path yet: a request for it is
    /// served by the CPU allocator, and only the device tag records where
    /// the buffer was asked to live.
    pub fn new(size: usize, device: Device) -> (s: Self)
        ensures
            s@.len() == size,
            s.spec_device() == device,
    {
        let data: Vec<T> = match device {
            Device::CPU => fresh_buffer(size),
            // No native Metal allocator exists yet: delegate to the CPU path.
            Device::Metal => fresh_buffer(size),
        };
        Storage { data, device }
    }
}

/// Round trip: writing one position of a buffer and reading it back yields
/// the value written, leaves every other position unchanged, and never
/// changes the buffer's length. This is the guarantee [`Storage::write`]
/// and [`Storage::as_mut_slice`] state through `Seq::update`, read back
/// through [`Storage::read`] or [`Storage::as_slice`].
pub proof fn lemma_write_read_round_trip<T>(buf: Seq<T>, i: int, value: T)
    requires
        0 <= i < buf.len(),
    ensures
        buf.update(i, value)[i] == value,
        buf.update(i, value).len() == buf.len(),
        forall|j: int| 0 <= j < buf.len() && j != i ==> buf.update(i, value)[j] == buf[j],
{
}

/// A vector of `size` elements, each obtained from `T::default()`.
fn fresh_buffer<T: Default>(size: usize) -> (v: Vec<T>)
    ensures
        v@.len() == size,
{
    let mut v: Vec<T> = Vec::new();
    while v.len() < size
        invariant
            v@.len() <= size,
        decreases size - v@.len(),
    {
        v.push(T::default());
    }
    v
}

} // verus!
