//! A handle on a matrix in row-major flat form.

use vstd::prelude::*;

verus! {

/// Struct holding a borrowed matrix in row-major flat form.
/// It reaches the entries by their offsets. The shared form only reads, and
/// can be copied to whoever needs the operands; the exclusive form is the
/// one way to write.
#[derive(Clone, Copy)]
pub struct MatrixRowPtr<T>(pub T);

impl<'a> MatrixRowPtr<&'a Vec<i32>> {
    /// Get value by index
    ///
    /// # Arguments
    ///
    /// * `offset` - index of value, within the matrix
    pub fn add(&self, offset: usize) -> (value: &'a i32)
        requires
            offset < self.0.len(),
        ensures
            *value == self.0@[offset as int],
    {
        &self.0[offset]
    }
}

impl MatrixRowPtr<Vec<i32>> {
    /// Get value by index, to read it or to write it
    ///
    /// # Arguments
    ///
    /// * `offset` - index of value, within the matrix
    pub fn add_mut(&mut self, offset: usize) -> (value: &mut i32)
        requires
            offset < old(self).0.len(),
        ensures
            *value == old(self).0@[offset as int],
            final(self).0@ == old(self).0@.update(offset as int, *final(value)),
    {
        &mut self.0[offset]
    }
}

} // verus!
