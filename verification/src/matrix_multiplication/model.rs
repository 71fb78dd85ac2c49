//! The mathematical meaning of the product of two square matrices of `i32`,
//! on matrices given as rows and on their row-major flat form.

use vstd::prelude::*;

verus! {

/// The `i32` that the integer `x` wraps around to: the one value of `i32`
/// that differs from `x` by a multiple of 2^32.
pub open spec fn wrap32(x: int) -> i32 {
    let r = x % 0x1_0000_0000;
    if r > i32::MAX {
        (r - 0x1_0000_0000) as i32
    } else {
        r as i32
    }
}

/// The exact sum of the first `k` products of row `i` of `a` with column `j`
/// of `b`, both in row-major flat form with `size` columns.
pub open spec fn dot(a: Seq<i32>, b: Seq<i32>, size: int, i: int, j: int, k: int) -> int
    decreases k,
{
    if k <= 0 {
        0
    } else {
        dot(a, b, size, i, j, k - 1) + a[i * size + (k - 1)] * b[(k - 1) * size + j]
    }
}

/// Entry (`i`, `j`) of the product: the full sum, wrapped to `i32`.
pub open spec fn product_entry(a: Seq<i32>, b: Seq<i32>, size: int, i: int, j: int) -> i32 {
    wrap32(dot(a, b, size, i, j, size))
}

/// The product of `a` and `b` in row-major flat form.
pub open spec fn product(a: Seq<i32>, b: Seq<i32>, size: int) -> Seq<i32> {
    Seq::new((size * size) as nat, |p: int| product_entry(a, b, size, p / size, p % size))
}

/// Every row is as long as the matrix has rows.
pub open spec fn is_square(m: Seq<Seq<i32>>) -> bool {
    forall|i: int| 0 <= i < m.len() ==> (#[trigger] m[i]).len() == m.len()
}

/// The exact sum of the first `k` products of row `i` of `a` with column `j`
/// of `b`, both given as rows.
pub open spec fn entry_sum(a: Seq<Seq<i32>>, b: Seq<Seq<i32>>, i: int, j: int, k: int) -> int
    decreases k,
{
    if k <= 0 {
        0
    } else {
        entry_sum(a, b, i, j, k - 1) + a[i][k - 1] * b[k - 1][j]
    }
}

/// The product of two square matrices of one size, given as rows: entry
/// (`i`, `j`) is the sum over `k` of `a[i][k] * b[k][j]`, wrapped to `i32`.
pub open spec fn matrix_product(a: Seq<Seq<i32>>, b: Seq<Seq<i32>>) -> Seq<Seq<i32>> {
    Seq::new(
        a.len(),
        |i: int| Seq::new(a.len(), |j: int| wrap32(entry_sum(a, b, i, j, a.len() as int))),
    )
}

/// The row-major flat form of a square matrix.
pub open spec fn flat(m: Seq<Seq<i32>>) -> Seq<i32> {
    Seq::new(m.len() * m.len(), |p: int| m[p / (m.len() as int)][p % (m.len() as int)])
}

/// The rows of a square matrix in row-major flat form.
pub open spec fn rows_of(c: Seq<i32>, size: int) -> Seq<Seq<i32>> {
    Seq::new(size as nat, |i: int| Seq::new(size as nat, |j: int| c[i * size + j]))
}

/// Wrapping addition of two wrapped integers wraps their exact sum.
pub proof fn lemma_wrapping_add(x: int, y: int)
    ensures
        vstd::wrapping::i32_specs::wrapping_add(wrap32(x), wrap32(y)) == wrap32(x + y),
{
}

/// Wrapping multiplication is the wrapped exact product.
pub proof fn lemma_wrapping_mul(x: i32, y: i32)
    ensures
        vstd::wrapping::i32_specs::wrapping_mul(x, y) == wrap32(x * y),
{
}

/// One multiply-accumulate step with wrapping arithmetic extends the wrapped
/// partial sum by one term.
pub proof fn lemma_accumulate(a: Seq<i32>, b: Seq<i32>, size: int, i: int, j: int, k: int, acc: i32)
    requires
        0 <= k,
        acc == wrap32(dot(a, b, size, i, j, k)),
    ensures
        vstd::wrapping::i32_specs::wrapping_add(
            acc,
            vstd::wrapping::i32_specs::wrapping_mul(a[i * size + k], b[k * size + j]),
        ) == wrap32(dot(a, b, size, i, j, k + 1)),
{
    let x = a[i * size + k];
    let y = b[k * size + j];
    lemma_wrapping_mul(x, y);
    lemma_wrapping_add(dot(a, b, size, i, j, k), x * y);
}

/// In a grid of `cols` columns, cell (`i`, `j`) has the offset
/// `i * cols + j`, and the offset gives the cell back.
pub proof fn lemma_cell_offset(rows: int, cols: int, i: int, j: int)
    requires
        0 <= i < rows,
        0 <= j < cols,
    ensures
        0 <= i * cols,
        i * cols + cols <= rows * cols,
        0 <= i * cols + j < rows * cols,
        (i * cols + j) / cols == i,
        (i * cols + j) % cols == j,
{
    assert(0 <= i * cols && i * cols + cols <= rows * cols) by (nonlinear_arith)
        requires
            0 <= i < rows,
            0 < cols,
    ;
    vstd::arithmetic::div_mod::lemma_fundamental_div_mod_converse(i * cols + j, cols, i, j);
}

/// In a grid of `rows` rows and `cols` columns, every offset below
/// `rows * cols` is that of one cell.
pub proof fn lemma_offset_cell(rows: int, cols: int, q: int)
    requires
        0 < cols,
        0 <= q < rows * cols,
    ensures
        0 <= q / cols < rows,
        0 <= q % cols < cols,
        q == (q / cols) * cols + q % cols,
{
    vstd::arithmetic::div_mod::lemma_fundamental_div_mod(q, cols);
    vstd::arithmetic::div_mod::lemma_mod_pos_bound(q, cols);
    vstd::arithmetic::div_mod::lemma_div_pos_is_pos(q, cols);
    let d = q / cols;
    assert(cols * d == d * cols) by (nonlinear_arith);
    assert(d < rows) by (nonlinear_arith)
        requires
            0 < cols,
            d * cols <= q,
            q < rows * cols,
    ;
}

/// The sums are the same on the flat form as on the rows.
pub proof fn lemma_flat_dot(a: Seq<Seq<i32>>, b: Seq<Seq<i32>>, i: int, j: int, k: int)
    requires
        is_square(a),
        is_square(b),
        a.len() == b.len(),
        0 <= i < a.len(),
        0 <= j < a.len(),
        0 <= k <= a.len(),
    ensures
        dot(flat(a), flat(b), a.len() as int, i, j, k) == entry_sum(a, b, i, j, k),
    decreases k,
{
    if k > 0 {
        let n = a.len() as int;
        lemma_flat_dot(a, b, i, j, k - 1);
        lemma_cell_offset(n, n, i, k - 1);
        lemma_cell_offset(n, n, k - 1, j);
    }
}

/// The product of the flat forms is the flat form of the product.
pub proof fn lemma_flat_product(a: Seq<Seq<i32>>, b: Seq<Seq<i32>>)
    requires
        is_square(a),
        is_square(b),
        a.len() == b.len(),
    ensures
        rows_of(product(flat(a), flat(b), a.len() as int), a.len() as int) == matrix_product(a, b),
{
    let n = a.len() as int;
    let rows = rows_of(product(flat(a), flat(b), n), n);
    assert forall|i: int, j: int| 0 <= i < n && 0 <= j < n implies #[trigger] rows[i][j]
        == matrix_product(a, b)[i][j] by {
        lemma_cell_offset(n, n, i, j);
        lemma_flat_dot(a, b, i, j, n);
    }
    assert(rows =~~= matrix_product(a, b));
}

} // verus!
