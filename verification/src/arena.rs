//! Append-only typed storage addressed by dense indices.
use vstd::prelude::*;

verus! {

/// Returns the capacity of a vector.
///
/// Trusted wrapper around `Vec::capacity`. Its contract claims only what the
/// documentation of `Vec` promises: the capacity is at least the length, and
/// a vector never occupies more than `isize::MAX` bytes.
#[verifier::external_body]
pub(crate) fn vec_capacity<T>(v: &Vec<T>) -> (r: usize)
    ensures
        r >= v@.len(),
        r * vstd::layout::size_of::<T>() <= isize::MAX,
{
    v.capacity()
}

/// Bytes reserved for the elements of a vector (capacity times element size).
pub fn vec_bytes<T>(v: &Vec<T>) -> (r: usize)
    ensures
        r >= v@.len() * vstd::layout::size_of::<T>(),
{
    let capacity = vec_capacity(v);
    proof {
        assert(capacity * vstd::layout::size_of::<T>() >= v@.len() * vstd::layout::size_of::<T>())
            by (nonlinear_arith)
            requires
                capacity >= v@.len(),
        ;
    }
    capacity * std::mem::size_of::<T>()
}

/// A vector whose elements are never removed or changed once stored.
pub struct Arena<T> {
    data: Vec<T>,
}

impl<T> View for Arena<T> {
    type V = Seq<T>;

    closed spec fn view(&self) -> Seq<T> {
        self.data@
    }
}

impl<T> Arena<T> {
    pub fn new() -> (r: Self)
        ensures
            r@ == Seq::<T>::empty(),
    {
        Arena { data: Vec::new() }
    }

    /// Stores `value` and returns its index.
    pub fn store(&mut self, value: T) -> (r: usize)
        ensures
            r == old(self)@.len(),
            final(self)@ == old(self)@.push(value),
    {
        let key = self.data.len();
        self.data.push(value);
        key
    }

    pub fn get(&self, index: usize) -> (r: &T)
        requires
            index < self@.len(),
        ensures
            *r == self@[index as int],
    {
        &self.data[index]
    }

    pub fn len(&self) -> (r: usize)
        ensures
            r == self@.len(),
    {
        self.data.len()
    }

    /// Bytes reserved for the element payload (capacity times element size).
    pub fn bytes(&self) -> (r: usize)
        ensures
            r >= self@.len() * vstd::layout::size_of::<T>(),
    {
        vec_bytes(&self.data)
    }
}

} // verus!
