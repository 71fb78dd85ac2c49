//! Square matrices to multiply: filled with zeros, or with random values.

use crate::matrix_multiplication::model::is_square;
use vstd::prelude::*;

verus! {

/// The bound on random values where none is given: 11 gives a matrix with
/// values from -10 to 10.
pub const MAX_ABS_VALUE_DEFAULT: i32 = 11;

/// The bound that the values of a matrix stay under.
pub open spec fn modulo_of(max_abs_value: Option<i32>) -> i32 {
    match max_abs_value {
        Some(bound) => bound,
        None => MAX_ABS_VALUE_DEFAULT,
    }
}

/// The remainder of `raw` on division by `modulo` toward zero: it has the
/// sign of `raw`, or is zero.
pub open spec fn remainder(raw: i32, modulo: i32) -> int {
    if raw >= 0 {
        raw as int % modulo as int
    } else {
        -((-raw) % modulo as int)
    }
}

/// Whether every entry of `m` lies strictly between `-bound` and `bound`.
pub open spec fn within(m: Seq<Seq<i32>>, bound: int) -> bool {
    forall|i: int, j: int|
        0 <= i < m.len() && 0 <= j < m[i].len() ==> -bound < #[trigger] m[i][j] < bound
}

/// Whether every entry of `m` is zero.
pub open spec fn all_zero(m: Seq<Seq<i32>>) -> bool {
    forall|i: int, j: int| 0 <= i < m.len() && 0 <= j < m[i].len() ==> #[trigger] m[i][j] == 0
}

/// Calls `rand::random::<i32>()`, which draws from the thread's random
/// number generator. Nothing is claimed of the value: it may be any `i32`,
/// and another one at every call.
#[verifier::external_body]
fn random_i32() -> (value: i32) {
    rand::random::<i32>()
}

/// Brings a random value under the bound: its remainder on division by
/// `modulo`.
pub fn bounded(raw: i32, modulo: i32) -> (value: i32)
    requires
        modulo >= 1,
    ensures
        value == remainder(raw, modulo),
        -modulo < value < modulo,
{
    raw % modulo
}

/// Generates a square matrix of size `size` filled with zeros or random
/// values between -10 and 10
///
/// # Arguments
///
/// * `size` - The size of the matrix
/// * `random_values` - If true, the matrix will be filled with random values
/// * `max_abs_value` - The bound that the random values stay under, 11 if
///   none is given; it has to be greater than 0
///
/// # Returns
///
/// A square matrix of size `size` as a `Vec<Vec<i32>>`
pub fn generate_square_matrix_of_size(
    size: usize,
    random_values: bool,
    max_abs_value: Option<i32>,
) -> (matrix: Vec<Vec<i32>>)
    requires
        modulo_of(max_abs_value) >= 1,
    ensures
        matrix.len() == size,
        is_square(matrix.deep_view()),
        within(matrix.deep_view(), modulo_of(max_abs_value) as int),
        !random_values ==> all_zero(matrix.deep_view()),
{
    let mut matrix: Vec<Vec<i32>> = Vec::with_capacity(size);
    let modulo = max_abs_value.unwrap_or(MAX_ABS_VALUE_DEFAULT);
    for i in 0..size
        invariant
            modulo >= 1,
            matrix@.len() == i,
            forall|r: int| 0 <= r < i ==> (#[trigger] matrix@[r])@.len() == size,
            forall|r: int, u: int|
                0 <= r < i && 0 <= u < size ==> -modulo < #[trigger] matrix@[r]@[u] < modulo,
            !random_values ==> forall|r: int, u: int|
                0 <= r < i && 0 <= u < size ==> #[trigger] matrix@[r]@[u] == 0,
    {
        let mut row: Vec<i32> = Vec::with_capacity(size);
        for j in 0..size
            invariant
                modulo >= 1,
                row@.len() == j,
                forall|u: int| 0 <= u < j ==> -modulo < #[trigger] row@[u] < modulo,
                !random_values ==> forall|u: int| 0 <= u < j ==> #[trigger] row@[u] == 0,
        {
            if random_values {
                row.push(bounded(random_i32(), modulo));
            } else {
                row.push(0);
            }
        }
        matrix.push(row);
    }
    matrix
}

} // verus!
