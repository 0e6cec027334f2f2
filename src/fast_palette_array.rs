//! A plain array of values, one per position, with the same positional
//! operations as a palette-compressed container.
use vstd::pervasive::cloned;
use vstd::prelude::*;

verus! {

/// One value per position, without a palette.
pub struct FastPaletteArray<T> {
    inner: Vec<T>,
}

impl<T: Clone> FastPaletteArray<T> {
    /// The values, by position.
    pub closed spec fn values(&self) -> Seq<T> {
        self.inner@
    }

    /// `size` clones of `initial_value`.
    pub fn new(size: usize, initial_value: T) -> (r: Self)
        ensures
            r.values().len() == size,
            forall|i: int| 0 <= i < size ==> cloned(initial_value, #[trigger] r.values()[i]),
    {
        let mut inner: Vec<T> = Vec::new();
        let mut i: usize = 0;
        while i < size
            invariant
                i <= size,
                inner@.len() == i,
                forall|j: int| 0 <= j < i ==> cloned(initial_value, #[trigger] inner@[j]),
            decreases size - i,
        {
            inner.push(initial_value.clone());
            i = i + 1;
        }
        FastPaletteArray { inner }
    }

    pub fn len(&self) -> (r: usize)
        ensures
            r == self.values().len(),
    {
        self.inner.len()
    }

    pub fn get(&self, index: usize) -> (r: &T)
        requires
            index < self.values().len(),
        ensures
            *r == self.values()[index as int],
    {
        &self.inner[index]
    }

    /// Writes a clone of `value` at `index`.
    pub fn set(&mut self, index: usize, value: &T)
        requires
            index < old(self).values().len(),
        ensures
            final(self).values().len() == old(self).values().len(),
            forall|i: int|
                0 <= i < old(self).values().len() && i != index ==> final(self).values()[i]
                    == old(self).values()[i],
            cloned(*value, final(self).values()[index as int]),
    {
        self.inner.set(index, value.clone());
    }
}

} // verus!
