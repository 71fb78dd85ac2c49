//! Checks on the operands, made before any work is handed out.

use crate::matrix_multiplication::model::is_square;
use vstd::prelude::*;

verus! {

/// Why two matrices cannot be multiplied.
#[derive(Debug, Clone, Copy, PartialEq, Eq)]
pub enum SanitizeError {
    /// A matrix has a row whose length is not the number of rows.
    NotSquare,
    /// The two matrices differ in size.
    SizeMismatch,
    /// The tile size does not divide the size of the matrices.
    TileSizeNotDivisor,
}

/// What the check of two operands gives: both have to be square, and then
/// of one size.
pub open spec fn sanitized(a: Seq<Seq<i32>>, b: Seq<Seq<i32>>) -> Result<(), SanitizeError> {
    if !is_square(a) || !is_square(b) {
        Err(SanitizeError::NotSquare)
    } else if a.len() != b.len() {
        Err(SanitizeError::SizeMismatch)
    } else {
        Ok(())
    }
}

/// Whether square tiles of `tile_size` rows cut a matrix of `size` rows into
/// whole tiles. No tile has size zero.
pub open spec fn tile_divides(size: nat, tile_size: nat) -> bool {
    tile_size > 0 && size % tile_size == 0
}

/// What the further check for the tiling algorithm gives.
pub open spec fn tiling_sanitized(size: nat, tile_size: nat) -> Result<(), SanitizeError> {
    if tile_divides(size, tile_size) {
        Ok(())
    } else {
        Err(SanitizeError::TileSizeNotDivisor)
    }
}

/// Whether every row of `m` is as long as `m` has rows.
fn is_square_matrix(m: &Vec<Vec<i32>>) -> (square: bool)
    ensures
        square == is_square(m.deep_view()),
{
    let size = m.len();
    for i in 0..size
        invariant
            size == m.len(),
            forall|r: int| 0 <= r < i ==> (#[trigger] m.deep_view()[r]).len() == size,
    {
        if m[i].len() != size {
            assert(m.deep_view()[i as int].len() != m.deep_view().len());
            return false;
        }
    }
    true
}

/// Checks that both matrices are square and of one size.
pub fn sanitize_matrices(a: &Vec<Vec<i32>>, b: &Vec<Vec<i32>>) -> (r: Result<(), SanitizeError>)
    ensures
        r == sanitized(a.deep_view(), b.deep_view()),
{
    if !is_square_matrix(a) || !is_square_matrix(b) {
        return Err(SanitizeError::NotSquare);
    }
    if a.len() != b.len() {
        return Err(SanitizeError::SizeMismatch);
    }
    Ok(())
}

/// Checks that the tile size divides the size of the matrices, as the
/// tiling algorithm needs: it has no code for tiles that are cut off.
pub fn extra_sanitization_steps_for_tiling_algorithm(size: usize, tile_size: usize) -> (r: Result<
    (),
    SanitizeError,
>)
    ensures
        r == tiling_sanitized(size as nat, tile_size as nat),
{
    if tile_size == 0 || size % tile_size != 0 {
        return Err(SanitizeError::TileSizeNotDivisor);
    }
    Ok(())
}

} // verus!
