//! Multiplication of square matrices of `i32` with wraparound arithmetic.
//!
//! Four algorithms give the same product. Two run their loops in one go;
//! two cut the output into jobs, hand the jobs to the workers of a pool and
//! put together what the workers ran.

use crate::matrix_multiplication::algorithms::Algorithm;
use crate::matrix_multiplication::model::{
    dot, flat, is_square, lemma_accumulate, lemma_cell_offset, lemma_flat_product, matrix_product,
    product, rows_of, wrap32,
};
use crate::matrix_multiplication::partition::{
    lemma_dealt_plan, lemma_row_plan, lemma_tile_plan, row_plan, run_all, run_job, schedule,
    tile_plan, Job,
};
use crate::matrix_multiplication::sanitize::{
    extra_sanitization_steps_for_tiling_algorithm, sanitize_matrices, sanitized, tile_divides,
    SanitizeError,
};
use crate::thread_pool::{clamped_threads, dealt, ThreadPool};
use vstd::prelude::*;

pub mod algorithms;
pub mod generate;
pub mod model;
pub mod partition;
pub mod sanitize;
pub mod types;

verus! {

/// What a multiplication gives: the error of the first check that fails, or
/// else the product, whatever the algorithm.
pub open spec fn multiplied(a: Seq<Seq<i32>>, b: Seq<Seq<i32>>, algorithm: Algorithm) -> Result<
    Seq<Seq<i32>>,
    SanitizeError,
> {
    match sanitized(a, b) {
        Err(error) => Err(error),
        Ok(_) => match algorithm {
            Algorithm::ParallelTiling(_, tile_size) => if tile_divides(a.len(), tile_size as nat) {
                Ok(matrix_product(a, b))
            } else {
                Err(SanitizeError::TileSizeNotDivisor)
            },
            _ => Ok(matrix_product(a, b)),
        },
    }
}

/// Whether the pool that `algorithm` asks for can be made: it is asked for
/// at least one worker, and the machine offers at least one thread.
/// An algorithm without a pool asks for nothing.
pub open spec fn pool_can_start(algorithm: Algorithm, available_threads: usize) -> bool {
    match algorithm {
        Algorithm::ParallelILoop(threads) => threads > 0 && available_threads > 0,
        Algorithm::ParallelTiling(threads, _) => threads > 0 && available_threads > 0,
        _ => true,
    }
}

/// Whether `r` is what the multiplication of `a` and `b` by `algorithm` has
/// to give.
pub open spec fn is_multiplied(
    a: Seq<Seq<i32>>,
    b: Seq<Seq<i32>>,
    algorithm: Algorithm,
    r: Result<Vec<Vec<i32>>, SanitizeError>,
) -> bool {
    match r {
        Ok(c) => multiplied(a, b, algorithm) == Ok::<Seq<Seq<i32>>, SanitizeError>(c.deep_view()),
        Err(error) => multiplied(a, b, algorithm) == Err::<Seq<Seq<i32>>, SanitizeError>(error),
    }
}

/// All algorithms give the same: where two of them both take the operands,
/// what they give is one and the same matrix, the product.
pub proof fn lemma_algorithms_agree(
    a: Seq<Seq<i32>>,
    b: Seq<Seq<i32>>,
    first: Algorithm,
    second: Algorithm,
)
    requires
        multiplied(a, b, first) is Ok,
        multiplied(a, b, second) is Ok,
    ensures
        multiplied(a, b, first) == multiplied(a, b, second),
        multiplied(a, b, first) == Ok::<Seq<Seq<i32>>, SanitizeError>(matrix_product(a, b)),
{
}

/// A second run gives what the first gave: two results of multiplying the
/// same operands by the same algorithm are the same error, or matrices with
/// the same entries.
pub proof fn lemma_multiplication_repeats(
    a: Seq<Seq<i32>>,
    b: Seq<Seq<i32>>,
    algorithm: Algorithm,
    first: Result<Vec<Vec<i32>>, SanitizeError>,
    second: Result<Vec<Vec<i32>>, SanitizeError>,
)
    requires
        is_multiplied(a, b, algorithm, first),
        is_multiplied(a, b, algorithm, second),
    ensures
        match (first, second) {
            (Ok(c), Ok(d)) => c.deep_view() == d.deep_view(),
            (Err(error), Err(other)) => error == other,
            _ => false,
        },
{
}

/// Multiplies two square matrices of one size by the given algorithm.
///
/// The operands are checked first, so that no work is handed out on bad
/// input. `available_threads` is the number of threads that the machine
/// offers; a pool never has more workers than that.
pub fn matrix_multiplication(
    a: &Vec<Vec<i32>>,
    b: &Vec<Vec<i32>>,
    algorithm: Algorithm,
    available_threads: usize,
) -> (r: Result<Vec<Vec<i32>>, SanitizeError>)
    requires
        multiplied(a.deep_view(), b.deep_view(), algorithm) is Ok ==> pool_can_start(
            algorithm,
            available_threads,
        ),
    ensures
        is_multiplied(a.deep_view(), b.deep_view(), algorithm, r),
{
    match sanitize_matrices(a, b) {
        Err(error) => {
            return Err(error);
        },
        Ok(_) => {},
    }
    match algorithm {
        Algorithm::ParallelTiling(_, tile_size) => {
            match extra_sanitization_steps_for_tiling_algorithm(a.len(), tile_size) {
                Err(error) => {
                    return Err(error);
                },
                Ok(_) => {},
            }
        },
        _ => {},
    }
    let size = a.len();
    let flat_a = flatten(a);
    let flat_b = flatten(b);
    let c = match algorithm {
        Algorithm::SequentialIjk => matrix_multiplication_sequential_ijk(&flat_a, &flat_b, size),
        Algorithm::SequentialIkj => matrix_multiplication_sequential_ikj(&flat_a, &flat_b, size),
        Algorithm::ParallelILoop(threads) => matrix_multiplication_parallel_i_loop(
            &flat_a,
            &flat_b,
            size,
            threads,
            available_threads,
        ),
        Algorithm::ParallelTiling(threads, tile_size) => matrix_multiplication_parallel_tiling(
            &flat_a,
            &flat_b,
            size,
            tile_size,
            threads,
            available_threads,
        ),
    };
    match c {
        Ok(flat_c) => {
            proof {
                lemma_flat_product(a.deep_view(), b.deep_view());
            }
            Ok(unflatten(&flat_c, size))
        },
        Err(error) => Err(error),
    }
}

/// The row-major flat form of a square matrix.
pub fn flatten(m: &Vec<Vec<i32>>) -> (out: Vec<i32>)
    requires
        is_square(m.deep_view()),
    ensures
        out@ == flat(m.deep_view()),
        out.len() == m.len() * m.len(),
{
    let size = m.len();
    let mut out: Vec<i32> = Vec::new();
    assert(0 * size == 0);
    for i in 0..size
        invariant
            size == m.len(),
            is_square(m.deep_view()),
            out@.len() == i * size,
            forall|p: int|
                0 <= p < out@.len() ==> #[trigger] out@[p] == m.deep_view()[p / (size as int)][p % (
                size as int)],
    {
        let row = &m[i];
        assert(m.deep_view()[i as int].len() == size);
        for j in 0..size
            invariant
                size == m.len(),
                0 <= i < size,
                row == m@[i as int],
                row.len() == size,
                out@.len() == i * size + j,
                forall|p: int|
                    0 <= p < out@.len() ==> #[trigger] out@[p] == m.deep_view()[p / (
                    size as int)][p % (size as int)],
        {
            proof {
                lemma_cell_offset(size as int, size as int, i as int, j as int);
            }
            out.push(row[j]);
        }
        assert((i + 1) * size == i * size + size) by (nonlinear_arith);
    }
    assert(out@ =~= flat(m.deep_view()));
    out
}

/// The rows of a square matrix in row-major flat form.
pub fn unflatten(c: &Vec<i32>, size: usize) -> (m: Vec<Vec<i32>>)
    requires
        c.len() == size * size,
    ensures
        m.deep_view() == rows_of(c@, size as int),
{
    let mut m: Vec<Vec<i32>> = Vec::new();
    for i in 0..size
        invariant
            c.len() == size * size,
            m@.len() == i,
            forall|r: int|
                0 <= r < i ==> (#[trigger] m@[r])@ == Seq::new(
                    size as nat,
                    |u: int| c@[r * size + u],
                ),
    {
        proof {
            lemma_cell_offset(size as int, size as int, i as int, 0);
        }
        let start = i * size;
        let mut row: Vec<i32> = Vec::new();
        for j in 0..size
            invariant
                c.len() == size * size,
                start == i * size,
                start + size <= size * size,
                row@.len() == j,
                forall|u: int| 0 <= u < j ==> #[trigger] row@[u] == c@[start + u],
        {
            row.push(c[start + j]);
        }
        assert(row@ =~= Seq::new(size as nat, |u: int| c@[i * size + u]));
        m.push(row);
    }
    assert(m.deep_view() =~~= rows_of(c@, size as int));
    m
}

/// The product by three nested loops over `i`, `j` and `k`: each entry of
/// the output takes up all its terms before the next entry is begun.
pub fn matrix_multiplication_sequential_ijk(a: &Vec<i32>, b: &Vec<i32>, size: usize) -> (r: Result<
    Vec<i32>,
    SanitizeError,
>)
    requires
        a.len() == size * size,
        b.len() == size * size,
    ensures
        r is Ok,
        r->Ok_0@ == product(a@, b@, size as int),
{
    let ghost expected = product(a@, b@, size as int);
    let mut c: Vec<i32> = vec![0i32; size * size];
    let mut i: usize = 0;
    while i < size
        invariant
            a.len() == size * size,
            b.len() == size * size,
            expected == product(a@, b@, size as int),
            c.len() == size * size,
            i <= size,
            forall|p: int|
                0 <= p < c.len() ==> #[trigger] c@[p] == if p < i * size {
                    expected[p]
                } else {
                    0i32
                },
        decreases size - i,
    {
        proof {
            lemma_cell_offset(size as int, size as int, i as int, 0);
        }
        let row = i * size;
        let mut j: usize = 0;
        while j < size
            invariant
                a.len() == size * size,
                b.len() == size * size,
                expected == product(a@, b@, size as int),
                c.len() == size * size,
                i < size,
                j <= size,
                row == i * size,
                row + size <= size * size,
                forall|p: int|
                    0 <= p < c.len() ==> #[trigger] c@[p] == if p < row + j {
                        expected[p]
                    } else {
                        0i32
                    },
            decreases size - j,
        {
            let at = row + j;
            let mut k: usize = 0;
            while k < size
                invariant
                    a.len() == size * size,
                    b.len() == size * size,
                    expected == product(a@, b@, size as int),
                    c.len() == size * size,
                    i < size,
                    j < size,
                    k <= size,
                    row == i * size,
                    row + size <= size * size,
                    at == row + j,
                    c@[at as int] == wrap32(dot(a@, b@, size as int, i as int, j as int, k as int)),
                    forall|p: int|
                        0 <= p < c.len() && p != at ==> #[trigger] c@[p] == if p < row + j {
                            expected[p]
                        } else {
                            0i32
                        },
                decreases size - k,
            {
                proof {
                    lemma_cell_offset(size as int, size as int, k as int, j as int);
                    lemma_accumulate(
                        a@,
                        b@,
                        size as int,
                        i as int,
                        j as int,
                        k as int,
                        c@[at as int],
                    );
                }
                let x = a[row + k];
                let y = b[k * size + j];
                let acc = c[at];
                c.set(at, acc.wrapping_add(x.wrapping_mul(y)));
                k += 1;
            }
            proof {
                lemma_cell_offset(size as int, size as int, i as int, j as int);
            }
            j += 1;
        }
        assert((i + 1) * size == i * size + size) by (nonlinear_arith);
        i += 1;
    }
    assert(c@ =~= expected);
    Ok(c)
}

/// The product by three nested loops over `i`, `k` and `j`: for each entry
/// of `a`, a whole row of `b` is walked, which lies in one piece.
pub fn matrix_multiplication_sequential_ikj(a: &Vec<i32>, b: &Vec<i32>, size: usize) -> (r: Result<
    Vec<i32>,
    SanitizeError,
>)
    requires
        a.len() == size * size,
        b.len() == size * size,
    ensures
        r is Ok,
        r->Ok_0@ == product(a@, b@, size as int),
{
    if size == 0 {
        let c: Vec<i32> = Vec::new();
        assert(c@ =~= product(a@, b@, size as int));
        return Ok(c);
    }
    proof {
        vstd::arithmetic::div_mod::lemma_mod_self_0(size as int);
    }
    let whole = Job { row: 0, col: 0, rows: size, cols: size, depth: size };
    let c = run_job(a, b, size, whole);
    assert(c@ =~= product(a@, b@, size as int));
    Ok(c)
}

/// The worker that gets the next job, where `target` got the last one: the
/// workers take turns.
fn next_target(target: usize, workers: usize) -> (next: usize)
    requires
        target < workers,
    ensures
        next == if target + 1 < workers {
            target + 1
        } else {
            0
        },
{
    if target + 1 < workers {
        target + 1
    } else {
        0
    }
}

/// Whose turn it is after `n + 1` jobs, from whose turn it was after `n`.
proof fn lemma_next_turn(n: int, workers: int)
    requires
        0 <= n,
        0 < workers,
    ensures
        (n + 1) % workers == if n % workers + 1 < workers {
            n % workers + 1
        } else {
            0
        },
{
    vstd::arithmetic::div_mod::lemma_fundamental_div_mod(n, workers);
    vstd::arithmetic::div_mod::lemma_mod_pos_bound(n, workers);
    let q = n / workers;
    let r = n % workers;
    assert(workers * q == q * workers) by (nonlinear_arith);
    if r + 1 < workers {
        vstd::arithmetic::div_mod::lemma_fundamental_div_mod_converse(n + 1, workers, q, r + 1);
    } else {
        assert((q + 1) * workers == q * workers + workers) by (nonlinear_arith);
        vstd::arithmetic::div_mod::lemma_fundamental_div_mod_converse(n + 1, workers, q + 1, 0);
    }
}

/// Hands the jobs of the row loop to the workers of a pool in turn and
/// sends the pool home: what comes back is, for each worker, the jobs that
/// it has run.
pub fn row_loop_schedule(
    size: usize,
    preferred_number_of_threads: usize,
    available_threads: usize,
) -> (ran: Vec<Vec<Job>>)
    requires
        preferred_number_of_threads > 0,
        available_threads > 0,
    ensures
        schedule(ran@) == dealt(
            row_plan(size),
            clamped_threads(preferred_number_of_threads as nat, available_threads as nat),
        ),
{
    let ghost plan = row_plan(size);
    let mut pool: ThreadPool<Job> = ThreadPool::new(preferred_number_of_threads, available_threads);
    let workers = pool.size();
    let mut target: usize = 0;
    proof {
        vstd::arithmetic::div_mod::lemma_small_mod(0, workers as nat);
        assert(plan.take(0) == Seq::<Job>::empty());
        assert(pool@ =~~= dealt(plan.take(0), workers as nat));
    }
    let mut i: usize = 0;
    while i < size
        invariant
            pool.wf(),
            pool.count() == workers,
            workers > 0,
            i <= size,
            target == i % workers,
            plan == row_plan(size),
            pool@ == dealt(plan.take(i as int), workers as nat),
        decreases size - i,
    {
        let job = Job::row(i, size);
        proof {
            assert(plan.take(i + 1).drop_last() == plan.take(i as int));
            assert(plan.take(i + 1).last() == job);
            lemma_next_turn(i as int, workers as int);
        }
        pool.execute(job, target);
        target = next_target(target, workers);
        i += 1;
    }
    proof {
        assert(plan.take(size as int) == plan);
    }
    let ghost given = pool@;
    let ran = ThreadPool::terminate(pool);
    proof {
        assert(schedule(ran@) =~= given);
    }
    ran
}

/// Hands the jobs of the tiling algorithm to the workers of a pool in turn
/// and sends the pool home: what comes back is, for each worker, the jobs
/// that it has run.
pub fn tiling_schedule(
    size: usize,
    tile_size: usize,
    threads: usize,
    available_threads: usize,
) -> (ran: Vec<Vec<Job>>)
    requires
        tile_divides(size as nat, tile_size as nat),
        threads > 0,
        available_threads > 0,
    ensures
        schedule(ran@) == dealt(
            tile_plan(size, tile_size),
            clamped_threads(threads as nat, available_threads as nat),
        ),
{
    let ghost plan = tile_plan(size, tile_size);
    let ghost across = size as int / tile_size as int;
    let ghost mut tiles_down: int = 0;
    let ghost mut handed_out: int = 0;
    let mut pool: ThreadPool<Job> = ThreadPool::new(threads, available_threads);
    let workers = pool.size();
    let mut target: usize = 0;
    proof {
        vstd::arithmetic::div_mod::lemma_fundamental_div_mod(size as int, tile_size as int);
        assert(across * tile_size == size) by (nonlinear_arith)
            requires
                size == tile_size * across,
        ;
        assert(0 <= across) by (nonlinear_arith)
            requires
                across * tile_size == size,
                tile_size > 0,
                size >= 0,
        ;
        vstd::arithmetic::div_mod::lemma_small_mod(0, workers as nat);
        assert(plan.take(0) == Seq::<Job>::empty());
        assert(pool@ =~~= dealt(plan.take(0), workers as nat));
        assert(0 * across == 0);
        assert(0 * tile_size == 0);
    }
    let mut l: usize = 0;
    while l < size
        invariant
            pool.wf(),
            pool.count() == workers,
            workers > 0,
            tile_size > 0,
            across * tile_size == size,
            0 <= tiles_down <= across,
            l == tiles_down * tile_size,
            l <= size,
            handed_out == tiles_down * across,
            target == handed_out % (workers as int),
            plan == tile_plan(size, tile_size),
            across == size as int / tile_size as int,
            0 <= handed_out <= plan.len(),
            pool@ == dealt(plan.take(handed_out), workers as nat),
        decreases size - l,
    {
        let ghost mut tiles_across: int = 0;
        proof {
            assert(tiles_down < across) by (nonlinear_arith)
                requires
                    tiles_down * tile_size < across * tile_size,
                    tile_size > 0,
            ;
            lemma_cell_offset(across, tile_size as int, tiles_down, 0);
            lemma_cell_offset(across, across, tiles_down, 0);
            assert(0 * tile_size == 0);
        }
        let mut w: usize = 0;
        while w < size
            invariant
                pool.wf(),
                pool.count() == workers,
                workers > 0,
                tile_size > 0,
                across * tile_size == size,
                0 <= tiles_down < across,
                l == tiles_down * tile_size,
                l + tile_size <= size,
                0 <= tiles_across <= across,
                w == tiles_across * tile_size,
                w <= size,
                handed_out == tiles_down * across + tiles_across,
                target == handed_out % (workers as int),
                plan == tile_plan(size, tile_size),
                across == size as int / tile_size as int,
                0 <= handed_out <= plan.len(),
                pool@ == dealt(plan.take(handed_out), workers as nat),
            decreases size - w,
        {
            proof {
                assert(tiles_across < across) by (nonlinear_arith)
                    requires
                        tiles_across * tile_size < across * tile_size,
                        tile_size > 0,
                ;
                lemma_cell_offset(across, tile_size as int, tiles_across, 0);
                lemma_cell_offset(across, across, tiles_down, tiles_across);
            }
            let job = Job::tile(l, w, tile_size);
            proof {
                assert(plan[handed_out] == job);
                assert(plan.take(handed_out + 1).drop_last() == plan.take(handed_out));
                assert(plan.take(handed_out + 1).last() == job);
                lemma_next_turn(handed_out, workers as int);
            }
            pool.execute(job, target);
            target = next_target(target, workers);
            w += tile_size;
            proof {
                assert((tiles_across + 1) * tile_size == tiles_across * tile_size + tile_size)
                    by (nonlinear_arith);
                tiles_across = tiles_across + 1;
                handed_out = handed_out + 1;
            }
        }
        proof {
            assert(tiles_across == across) by (nonlinear_arith)
                requires
                    tiles_across * tile_size == across * tile_size,
                    tile_size > 0,
            ;
            assert((tiles_down + 1) * across == tiles_down * across + across) by (nonlinear_arith);
            assert((tiles_down + 1) * tile_size == tiles_down * tile_size + tile_size)
                by (nonlinear_arith);
        }
        l += tile_size;
        proof {
            tiles_down = tiles_down + 1;
        }
    }
    proof {
        assert(tiles_down == across) by (nonlinear_arith)
            requires
                tiles_down * tile_size == across * tile_size,
                tile_size > 0,
        ;
        assert(plan.take(plan.len() as int) == plan);
    }
    let ghost given = pool@;
    let ran = ThreadPool::terminate(pool);
    proof {
        assert(schedule(ran@) =~= given);
    }
    ran
}

/// The product by one job for each row of the output, the jobs handed to
/// the workers of a pool in turn.
pub fn matrix_multiplication_parallel_i_loop(
    a: &Vec<i32>,
    b: &Vec<i32>,
    size: usize,
    preferred_number_of_threads: usize,
    available_threads: usize,
) -> (r: Result<Vec<i32>, SanitizeError>)
    requires
        a.len() == size * size,
        b.len() == size * size,
        preferred_number_of_threads > 0,
        available_threads > 0,
    ensures
        r is Ok,
        r->Ok_0@ == product(a@, b@, size as int),
{
    let ran = row_loop_schedule(size, preferred_number_of_threads, available_threads);
    proof {
        lemma_row_plan(size);
        lemma_dealt_plan(
            row_plan(size),
            clamped_threads(preferred_number_of_threads as nat, available_threads as nat),
            size as int,
        );
    }
    Ok(run_all(a, b, size, &ran))
}

/// The product by one job for each square tile of the output, the jobs
/// handed to the workers of a pool in turn. A job walks the shared
/// dimension tile by tile too. The tile size has to divide the size.
pub fn matrix_multiplication_parallel_tiling(
    a: &Vec<i32>,
    b: &Vec<i32>,
    size: usize,
    tile_size: usize,
    threads: usize,
    available_threads: usize,
) -> (r: Result<Vec<i32>, SanitizeError>)
    requires
        a.len() == size * size,
        b.len() == size * size,
        tile_divides(size as nat, tile_size as nat),
        threads > 0,
        available_threads > 0,
    ensures
        r is Ok,
        r->Ok_0@ == product(a@, b@, size as int),
{
    let ran = tiling_schedule(size, tile_size, threads, available_threads);
    proof {
        lemma_tile_plan(size, tile_size);
        lemma_dealt_plan(
            tile_plan(size, tile_size),
            clamped_threads(threads as nat, available_threads as nat),
            size as int,
        );
    }
    Ok(run_all(a, b, size, &ran))
}

} // verus!
