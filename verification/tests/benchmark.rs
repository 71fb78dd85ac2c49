use matmul_bench::benchmark::{
    algorithms_to_benchmark, average, averages, reported_time, run_benchmark,
    tiling_algorithms_to_benchmark, time_algorithm,
};
use matmul_bench::cli::{Cli, Tiling};
use matmul_bench::matrix_multiplication::algorithms::{decimal_string, Algorithm};

fn arguments(threads: Option<usize>, parallel_only: bool, skip_sequential_ijk: bool) -> Cli {
    Cli {
        size: 128,
        iterations: 5,
        threads,
        parallel_only,
        skip_sequential_ijk,
        tile_size: 32,
        subcommands: None,
    }
}

#[test]
fn all_four_algorithms_are_run_unless_told_otherwise() {
    assert_eq!(
        algorithms_to_benchmark(&arguments(None, false, false), 8),
        vec![
            Algorithm::SequentialIjk,
            Algorithm::SequentialIkj,
            Algorithm::ParallelILoop(8),
            Algorithm::ParallelTiling(8, 32),
        ]
    );
    assert_eq!(
        algorithms_to_benchmark(&arguments(Some(3), false, true), 8),
        vec![
            Algorithm::SequentialIkj,
            Algorithm::ParallelILoop(3),
            Algorithm::ParallelTiling(3, 32),
        ]
    );
    assert_eq!(
        algorithms_to_benchmark(&arguments(Some(12), true, false), 8),
        vec![Algorithm::ParallelILoop(12), Algorithm::ParallelTiling(12, 32)]
    );
    assert_eq!(
        algorithms_to_benchmark(&arguments(None, true, true), 2),
        vec![Algorithm::ParallelILoop(2), Algorithm::ParallelTiling(2, 32)]
    );
}

#[test]
fn the_tiling_benchmark_runs_tiling_with_each_tile_size() {
    let tiling = Tiling { size: 128, iterations: 5, threads: None, tiles: String::from("16,32,64") };
    assert_eq!(
        tiling_algorithms_to_benchmark(&tiling, 4),
        Ok(vec![
            Algorithm::ParallelTiling(4, 16),
            Algorithm::ParallelTiling(4, 32),
            Algorithm::ParallelTiling(4, 64),
        ])
    );
    let tiling = Tiling { size: 128, iterations: 5, threads: Some(2), tiles: String::from("8") };
    assert_eq!(tiling_algorithms_to_benchmark(&tiling, 4), Ok(vec![Algorithm::ParallelTiling(2, 8)]));
    let tiling = Tiling { size: 128, iterations: 5, threads: None, tiles: String::from("8;16") };
    assert_eq!(
        tiling_algorithms_to_benchmark(&tiling, 4),
        Err(String::from("tiles must be a positive integer"))
    );
}

#[test]
fn the_average_is_rounded_down() {
    assert_eq!(average(&vec![1, 2, 3, 4]), 2);
    assert_eq!(average(&vec![7]), 7);
    assert_eq!(average(&vec![0, 0, 1]), 0);
    assert_eq!(average(&vec![u128::MAX - 1, 1]), u128::MAX / 2);
}

#[test]
fn every_algorithm_gets_the_average_of_its_times() {
    let results = vec![
        (Algorithm::SequentialIkj, vec![10, 20, 31]),
        (Algorithm::ParallelILoop(2), vec![5]),
    ];
    assert_eq!(
        averages(&results),
        vec![(Algorithm::SequentialIkj, 20), (Algorithm::ParallelILoop(2), 5)]
    );
    assert_eq!(averages(&Vec::new()), Vec::new());
}

#[test]
fn a_run_that_failed_reports_no_time() {
    assert_eq!(reported_time(true, 12), Some(12));
    assert_eq!(reported_time(true, 0), Some(0));
    assert_eq!(reported_time(false, 12), None);
}

#[test]
fn a_time_is_reported_for_operands_that_are_taken() {
    let a = vec![vec![1, 2], vec![3, 4]];
    let b = vec![vec![5, 6], vec![7, 8]];
    let ragged = vec![vec![5, 6], vec![7]];
    let three = vec![vec![0; 3]; 3];
    for algorithm in [
        Algorithm::SequentialIjk,
        Algorithm::SequentialIkj,
        Algorithm::ParallelILoop(2),
        Algorithm::ParallelTiling(2, 2),
    ] {
        assert!(time_algorithm(&algorithm, &a, &b, 4).is_some());
        assert_eq!(time_algorithm(&algorithm, &a, &ragged, 4), None);
        assert_eq!(time_algorithm(&algorithm, &a, &three, 4), None);
    }
    assert_eq!(time_algorithm(&Algorithm::ParallelTiling(2, 3), &a, &b, 4), None);
}

#[test]
fn the_benchmark_gives_every_algorithm_a_time_for_each_iteration() {
    let algorithms = [
        Algorithm::SequentialIjk,
        Algorithm::ParallelTiling(2, 5),
        Algorithm::ParallelILoop(3),
        Algorithm::ParallelTiling(2, 4),
    ];
    let results = run_benchmark(&algorithms, 3, 8, 2);
    assert_eq!(results.len(), 4);
    for (result, algorithm) in results.iter().zip(algorithms.iter()) {
        assert_eq!(result.0, *algorithm);
        assert_eq!(result.1.len(), 3);
    }
    // Tiles of 5 do not divide 8: these runs are refused, and count as 0.
    assert_eq!(results[1].1, vec![0, 0, 0]);
    assert!(run_benchmark(&[], 3, 8, 2).is_empty());
    assert_eq!(run_benchmark(&algorithms, 0, 8, 2)[0].1, Vec::<u128>::new());
}

#[test]
fn an_algorithm_is_named_with_its_numbers() {
    assert_eq!(Algorithm::SequentialIjk.to_string(), "Sequential IJK");
    assert_eq!(Algorithm::SequentialIkj.to_string(), "Sequential IKJ");
    assert_eq!(Algorithm::ParallelILoop(8).to_string(), "Parallel I Loop (8 threads)");
    assert_eq!(
        Algorithm::ParallelTiling(12, 32).to_string(),
        "Parallel Tiling (12 threads, 32 tile size)"
    );
    assert_eq!(
        Algorithm::ParallelTiling(0, 1000).to_string(),
        "Parallel Tiling (0 threads, 1000 tile size)"
    );
}

#[test]
fn a_number_is_written_as_the_standard_library_writes_it() {
    for n in [0usize, 1, 9, 10, 11, 99, 100, 101, 1234567890, usize::MAX - 1, usize::MAX] {
        assert_eq!(decimal_string(n), format!("{}", n));
    }
}
