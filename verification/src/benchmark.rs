//! Timing the algorithms on random matrices.

use crate::cli::{parse_cli_tiles, parsed_tiles, Cli, Tiling};
use crate::matrix_multiplication::algorithms::Algorithm;
use crate::matrix_multiplication::generate::generate_square_matrix_of_size;
use crate::matrix_multiplication::sanitize::{sanitized, tile_divides};
use crate::matrix_multiplication::{matrix_multiplication, multiplied, pool_can_start};
use std::time::Instant;
use vstd::prelude::*;

verus! {

/// `std::time::Instant`, a reading of the clock. What it holds cannot be
/// seen from here.
#[verifier::external_type_specification]
#[verifier::external_body]
pub struct ExInstant(std::time::Instant);

/// `Instant::now` reads the clock. Nothing is claimed of what it reads.
pub assume_specification[ std::time::Instant::now ]() -> (now: std::time::Instant);

/// `Instant::duration_since` gives the time that has passed since an
/// earlier instant. Nothing is claimed of its length.
pub assume_specification[ std::time::Instant::duration_since ](
    later: &std::time::Instant,
    earlier: std::time::Instant,
) -> (elapsed: std::time::Duration);

/// `Duration::as_millis` gives a duration in whole milliseconds. Nothing is
/// claimed of the number.
pub assume_specification[ std::time::Duration::as_millis ](
    duration: &std::time::Duration,
) -> (millis: u128);

/// What a timed run reports: the time it took, if it ended well.
pub fn reported_time(succeeded: bool, millis: u128) -> (time: Option<u128>)
    ensures
        time == if succeeded {
            Some(millis)
        } else {
            None::<u128>
        },
{
    if succeeded {
        Some(millis)
    } else {
        None
    }
}

/// Benchmarks the execution time of a given matrix multiplication algorithm.
/// Returns the execution time in milliseconds, or `None` if the operands
/// were refused.
pub fn time_algorithm(
    algorithm: &Algorithm,
    a: &Vec<Vec<i32>>,
    b: &Vec<Vec<i32>>,
    available_threads: usize,
) -> (time: Option<u128>)
    requires
        multiplied(a.deep_view(), b.deep_view(), *algorithm) is Ok ==> pool_can_start(
            *algorithm,
            available_threads,
        ),
    ensures
        time is Some <==> multiplied(a.deep_view(), b.deep_view(), *algorithm) is Ok,
{
    let start = Instant::now();
    let res = matrix_multiplication(a, b, *algorithm, available_threads);
    let end = Instant::now();
    reported_time(res.is_ok(), end.duration_since(start).as_millis())
}

/// Whether `algorithm` takes square matrices of `size` rows: all do, but
/// tiling where the tile size does not divide `size`.
pub open spec fn runs_on(algorithm: Algorithm, size: nat) -> bool {
    match algorithm {
        Algorithm::ParallelTiling(_, tile_size) => tile_divides(size, tile_size as nat),
        _ => true,
    }
}

/// Runs the benchmark suite for a given number of iterations: in each, two
/// random matrices of `size` rows, multiplied once by every algorithm.
/// Each algorithm comes back with its times in milliseconds, one for each
/// iteration; a run that was refused counts as 0.
pub fn run_benchmark(
    algorithms: &[Algorithm],
    iterations: usize,
    size: usize,
    available_threads: usize,
) -> (results: Vec<(Algorithm, Vec<u128>)>)
    requires
        forall|k: int|
            0 <= k < algorithms@.len() && runs_on(#[trigger] algorithms@[k], size as nat)
                ==> pool_can_start(algorithms@[k], available_threads),
    ensures
        results@.len() == algorithms@.len(),
        forall|k: int|
            0 <= k < results@.len() ==> (#[trigger] results@[k]).0 == algorithms@[k]
                && results@[k].1@.len() == iterations,
        forall|k: int, t: int|
            0 <= k < results@.len() && 0 <= t < iterations && !runs_on(algorithms@[k], size as nat)
                ==> #[trigger] results@[k].1@[t] == 0,
{
    let mut results: Vec<(Algorithm, Vec<u128>)> = Vec::with_capacity(algorithms.len());
    for k in 0..algorithms.len()
        invariant
            results@.len() == k,
            forall|u: int|
                0 <= u < k ==> (#[trigger] results@[u]).0 == algorithms@[u]
                    && results@[u].1@.len() == 0,
    {
        results.push((algorithms[k], Vec::with_capacity(iterations)));
    }
    for i in 0..iterations
        invariant
            forall|k: int|
                0 <= k < algorithms@.len() && runs_on(#[trigger] algorithms@[k], size as nat)
                    ==> pool_can_start(algorithms@[k], available_threads),
            results@.len() == algorithms@.len(),
            forall|k: int|
                0 <= k < results@.len() ==> (#[trigger] results@[k]).0 == algorithms@[k]
                    && results@[k].1@.len() == i,
            forall|k: int, t: int|
                0 <= k < results@.len() && 0 <= t < i && !runs_on(algorithms@[k], size as nat)
                    ==> #[trigger] results@[k].1@[t] == 0,
    {
        let a = generate_square_matrix_of_size(size, true, None);
        let b = generate_square_matrix_of_size(size, true, None);
        assert(sanitized(a.deep_view(), b.deep_view()) is Ok);
        let algorithms_len = results.len();
        for k in 0..algorithms_len
            invariant
                algorithms_len == results@.len(),
                forall|u: int|
                    0 <= u < algorithms@.len() && runs_on(#[trigger] algorithms@[u], size as nat)
                        ==> pool_can_start(algorithms@[u], available_threads),
                sanitized(a.deep_view(), b.deep_view()) is Ok,
                a.deep_view().len() == size,
                results@.len() == algorithms@.len(),
                forall|u: int|
                    0 <= u < results@.len() ==> (#[trigger] results@[u]).0 == algorithms@[u]
                        && results@[u].1@.len() == if u < k {
                        i + 1
                    } else {
                        i as int
                    },
                forall|u: int, t: int|
                    0 <= u < results@.len() && 0 <= t < results@[u].1@.len() && !runs_on(
                        algorithms@[u],
                        size as nat,
                    ) ==> #[trigger] results@[u].1@[t] == 0,
        {
            let algorithm = results[k].0;
            assert(runs_on(algorithms@[k as int], size as nat) <==> multiplied(
                a.deep_view(),
                b.deep_view(),
                algorithm,
            ) is Ok);
            let time = time_algorithm(&algorithm, &a, &b, available_threads).unwrap_or_default();
            results[k].1.push(time);
        }
    }
    results
}

/// The sum of the times.
pub open spec fn total(times: Seq<u128>) -> nat
    decreases times.len(),
{
    if times.len() == 0 {
        0
    } else {
        total(times.drop_last()) + times.last() as nat
    }
}

/// The average of the times, rounded down.
pub fn average(times: &Vec<u128>) -> (avg: u128)
    requires
        times@.len() > 0,
        total(times@) <= u128::MAX,
    ensures
        avg == total(times@) / times@.len(),
{
    let mut sum: u128 = 0;
    assert(times@.take(0) == Seq::<u128>::empty());
    for t in 0..times.len()
        invariant
            sum == total(times@.take(t as int)),
            total(times@) <= u128::MAX,
    {
        proof {
            assert(times@.take(t + 1).drop_last() == times@.take(t as int));
            lemma_total_grows(times@, t + 1);
        }
        sum = sum + times[t];
    }
    assert(times@.take(times@.len() as int) == times@);
    sum / (times.len() as u128)
}

/// For each algorithm the average of its times.
pub fn averages(results: &Vec<(Algorithm, Vec<u128>)>) -> (summary: Vec<(Algorithm, u128)>)
    requires
        forall|k: int|
            0 <= k < results@.len() ==> (#[trigger] results@[k]).1@.len() > 0 && total(
                results@[k].1@,
            ) <= u128::MAX,
    ensures
        summary@.len() == results@.len(),
        forall|k: int|
            0 <= k < summary@.len() ==> (#[trigger] summary@[k]).0 == results@[k].0 && summary@[k].1
                == total(results@[k].1@) / results@[k].1@.len(),
{
    let mut summary: Vec<(Algorithm, u128)> = Vec::with_capacity(results.len());
    for k in 0..results.len()
        invariant
            forall|u: int|
                0 <= u < results@.len() ==> (#[trigger] results@[u]).1@.len() > 0 && total(
                    results@[u].1@,
                ) <= u128::MAX,
            summary@.len() == k,
            forall|u: int|
                0 <= u < k ==> (#[trigger] summary@[u]).0 == results@[u].0 && summary@[u].1
                    == total(results@[u].1@) / results@[u].1@.len(),
    {
        let avg = average(&results[k].1);
        summary.push((results[k].0, avg));
    }
    summary
}

/// The times sum up to no less than any of their beginnings.
pub proof fn lemma_total_grows(times: Seq<u128>, n: int)
    requires
        0 <= n <= times.len(),
    ensures
        total(times.take(n)) <= total(times),
    decreases times.len(),
{
    if n < times.len() {
        lemma_total_grows(times.drop_last(), n);
        assert(times.drop_last().take(n) == times.take(n));
    } else {
        assert(times.take(n) == times);
    }
}

/// The number of threads to ask for: the number given on the command line,
/// or else the number that the machine offers.
pub open spec fn threads_to_ask_for(threads: Option<usize>, available_threads: usize) -> usize {
    match threads {
        Some(given) => given,
        None => available_threads,
    }
}

/// The algorithms that the benchmark is to run, in their order: the two
/// sequential ones unless only parallel ones are wanted (the first of them
/// unless it is to be skipped), then the two parallel ones.
pub open spec fn algorithms_of(cli: &Cli, available_threads: usize) -> Seq<Algorithm> {
    let threads = threads_to_ask_for(cli.threads, available_threads);
    let sequential = if cli.parallel_only {
        Seq::<Algorithm>::empty()
    } else if cli.skip_sequential_ijk {
        seq![Algorithm::SequentialIkj]
    } else {
        seq![Algorithm::SequentialIjk, Algorithm::SequentialIkj]
    };
    sequential + seq![
        Algorithm::ParallelILoop(threads),
        Algorithm::ParallelTiling(threads, cli.tile_size),
    ]
}

/// The algorithms that the benchmark is to run for these arguments.
pub fn algorithms_to_benchmark(cli: &Cli, available_threads: usize) -> (algorithms: Vec<Algorithm>)
    ensures
        algorithms@ == algorithms_of(cli, available_threads),
{
    let threads = cli.threads.unwrap_or(available_threads);
    let mut algorithms: Vec<Algorithm> = Vec::with_capacity(4);
    if cli.parallel_only == false {
        if cli.skip_sequential_ijk == false {
            algorithms.push(Algorithm::SequentialIjk);
        }
        algorithms.push(Algorithm::SequentialIkj);
    }
    algorithms.push(Algorithm::ParallelILoop(threads));
    algorithms.push(Algorithm::ParallelTiling(threads, cli.tile_size));
    assert(algorithms@ =~= algorithms_of(cli, available_threads));
    algorithms
}

/// The algorithms that the tiling benchmark is to run: tiling with each of
/// the tile sizes given, in their order. Where the tile sizes cannot be
/// read, the message that says so.
pub fn tiling_algorithms_to_benchmark(cli: &Tiling, available_threads: usize) -> (r: Result<
    Vec<Algorithm>,
    String,
>)
    ensures
        match r {
            Ok(algorithms) => parsed_tiles(cli.tiles@) matches Some(tiles) && algorithms@
                == Seq::new(
                tiles.len(),
                |k: int|
                    Algorithm::ParallelTiling(
                        threads_to_ask_for(cli.threads, available_threads),
                        tiles[k],
                    ),
            ),
            Err(message) => parsed_tiles(cli.tiles@) is None && message@
                == "tiles must be a positive integer"@,
        },
{
    let threads = cli.threads.unwrap_or(available_threads);
    let tiles = match parse_cli_tiles(&cli.tiles) {
        Ok(tiles) => tiles,
        Err(err) => {
            return Err(err);
        },
    };
    let mut algorithms: Vec<Algorithm> = Vec::with_capacity(tiles.len());
    for k in 0..tiles.len()
        invariant
            algorithms@.len() == k,
            forall|u: int|
                0 <= u < k ==> #[trigger] algorithms@[u] == Algorithm::ParallelTiling(
                    threads,
                    tiles@[u],
                ),
    {
        algorithms.push(Algorithm::ParallelTiling(threads, tiles[k]));
    }
    assert(algorithms@ =~= Seq::new(
        tiles@.len(),
        |k: int| Algorithm::ParallelTiling(threads, tiles@[k]),
    ));
    Ok(algorithms)
}

} // verus!
