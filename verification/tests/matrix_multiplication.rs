use matmul_bench::matrix_multiplication::algorithms::Algorithm;
use matmul_bench::matrix_multiplication::partition::{run_all, run_job, Job, OutputRegion};
use matmul_bench::matrix_multiplication::sanitize::{
    extra_sanitization_steps_for_tiling_algorithm, sanitize_matrices, SanitizeError,
};
use matmul_bench::matrix_multiplication::{
    flatten, matrix_multiplication, matrix_multiplication_parallel_i_loop,
    matrix_multiplication_parallel_tiling, matrix_multiplication_sequential_ijk,
    matrix_multiplication_sequential_ikj, row_loop_schedule, tiling_schedule, unflatten,
};

fn get_a() -> Vec<i32> {
    vec![1, 2, 3, 4]
}

fn get_b() -> Vec<i32> {
    vec![5, 6, 7, 8]
}

fn get_c() -> Vec<i32> {
    vec![19, 22, 43, 50]
}

fn get_size() -> usize {
    2
}

/// The product by the schoolbook rule, with wrapping arithmetic.
fn reference_product(a: &Vec<Vec<i32>>, b: &Vec<Vec<i32>>) -> Vec<Vec<i32>> {
    let n = a.len();
    let mut c = vec![vec![0i32; n]; n];
    for i in 0..n {
        for j in 0..n {
            let mut sum: i32 = 0;
            for k in 0..n {
                sum = sum.wrapping_add(a[i][k].wrapping_mul(b[k][j]));
            }
            c[i][j] = sum;
        }
    }
    c
}

/// A matrix with entries that depend on the place, some of them large.
fn sample(n: usize, seed: i32) -> Vec<Vec<i32>> {
    let mut m = Vec::new();
    for i in 0..n {
        let mut row = Vec::new();
        for j in 0..n {
            let x = (i as i32).wrapping_mul(7919).wrapping_add((j as i32).wrapping_mul(104729));
            row.push(x.wrapping_mul(seed).wrapping_sub(seed.wrapping_mul(65537)));
        }
        m.push(row);
    }
    m
}

fn all_algorithms(threads: usize, tile_size: usize) -> Vec<Algorithm> {
    vec![
        Algorithm::SequentialIjk,
        Algorithm::SequentialIkj,
        Algorithm::ParallelILoop(threads),
        Algorithm::ParallelTiling(threads, tile_size),
    ]
}

#[test]
fn test_matrix_multiplication_sequential_ijk() {
    let a = get_a();
    let b = get_b();

    let c = matrix_multiplication_sequential_ijk(&a, &b, get_size()).unwrap();

    assert_eq!(c, get_c());
}

#[test]
fn test_matrix_multiplication_sequential_ikj() {
    let a = get_a();
    let b = get_b();

    let c = matrix_multiplication_sequential_ikj(&a, &b, get_size()).unwrap();

    assert_eq!(c, get_c());
}

#[test]
fn test_matrix_multiplication_parallel_i_loop() {
    let a = get_a();
    let b = get_b();

    let threads: usize = 4;

    let c = matrix_multiplication_parallel_i_loop(&a, &b, get_size(), threads, threads).unwrap();

    assert_eq!(c, get_c());
}

#[test]
fn test_matrix_multiplication_parallel_tiling() {
    let a = get_a();
    let b = get_b();

    let threads: usize = 4;

    let c =
        matrix_multiplication_parallel_tiling(&a, &b, get_size(), 1, threads, threads).unwrap();

    assert_eq!(c, get_c())
}

#[test]
fn two_by_two_by_every_algorithm() {
    let a = vec![vec![1, 2], vec![3, 4]];
    let b = vec![vec![5, 6], vec![7, 8]];
    let expected = vec![vec![19, 22], vec![43, 50]];
    for tile_size in [1usize, 2] {
        for algorithm in all_algorithms(3, tile_size) {
            assert_eq!(matrix_multiplication(&a, &b, algorithm, 8), Ok(expected.clone()));
        }
    }
}

#[test]
fn tile_that_does_not_divide_is_refused() {
    let a = sample(4, 3);
    let b = sample(4, 5);
    assert_eq!(
        matrix_multiplication(&a, &b, Algorithm::ParallelTiling(2, 3), 4),
        Err(SanitizeError::TileSizeNotDivisor)
    );
    assert_eq!(
        extra_sanitization_steps_for_tiling_algorithm(4, 3),
        Err(SanitizeError::TileSizeNotDivisor)
    );
    assert_eq!(extra_sanitization_steps_for_tiling_algorithm(4, 2), Ok(()));
    assert_eq!(extra_sanitization_steps_for_tiling_algorithm(4, 4), Ok(()));
    assert_eq!(
        extra_sanitization_steps_for_tiling_algorithm(4, 8),
        Err(SanitizeError::TileSizeNotDivisor)
    );
}

#[test]
fn tile_of_size_zero_is_refused() {
    let a = sample(4, 3);
    let b = sample(4, 5);
    assert_eq!(
        matrix_multiplication(&a, &b, Algorithm::ParallelTiling(2, 0), 4),
        Err(SanitizeError::TileSizeNotDivisor)
    );
    assert_eq!(
        extra_sanitization_steps_for_tiling_algorithm(0, 0),
        Err(SanitizeError::TileSizeNotDivisor)
    );
}

#[test]
fn matrix_that_is_not_square_is_refused() {
    let square = vec![vec![1, 2], vec![3, 4]];
    let wide = vec![vec![1, 2, 3], vec![4, 5, 6]];
    let ragged = vec![vec![1, 2], vec![3]];
    assert_eq!(sanitize_matrices(&wide, &square), Err(SanitizeError::NotSquare));
    assert_eq!(sanitize_matrices(&square, &wide), Err(SanitizeError::NotSquare));
    assert_eq!(sanitize_matrices(&ragged, &square), Err(SanitizeError::NotSquare));
    for algorithm in all_algorithms(2, 1) {
        assert_eq!(
            matrix_multiplication(&wide, &square, algorithm, 4),
            Err(SanitizeError::NotSquare)
        );
    }
}

#[test]
fn matrices_of_two_sizes_are_refused() {
    let two = vec![vec![1, 2], vec![3, 4]];
    let three = vec![vec![1, 2, 3], vec![4, 5, 6], vec![7, 8, 9]];
    assert_eq!(sanitize_matrices(&two, &three), Err(SanitizeError::SizeMismatch));
    assert_eq!(sanitize_matrices(&two, &two), Ok(()));
    for algorithm in all_algorithms(2, 1) {
        assert_eq!(
            matrix_multiplication(&two, &three, algorithm, 4),
            Err(SanitizeError::SizeMismatch)
        );
    }
}

#[test]
fn shape_is_looked_at_before_size() {
    let two = vec![vec![1, 2], vec![3, 4]];
    let ragged_three = vec![vec![1, 2, 3], vec![4, 5], vec![7, 8, 9]];
    assert_eq!(sanitize_matrices(&two, &ragged_three), Err(SanitizeError::NotSquare));
}

#[test]
fn bad_operands_are_refused_before_the_pool_is_asked_for() {
    let two = vec![vec![1, 2], vec![3, 4]];
    let three = vec![vec![1, 2, 3], vec![4, 5, 6], vec![7, 8, 9]];
    assert_eq!(
        matrix_multiplication(&two, &three, Algorithm::ParallelILoop(0), 4),
        Err(SanitizeError::SizeMismatch)
    );
    assert_eq!(
        matrix_multiplication(&two, &two, Algorithm::ParallelTiling(0, 3), 4),
        Err(SanitizeError::TileSizeNotDivisor)
    );
}

#[test]
fn all_algorithms_agree_with_the_schoolbook_rule() {
    for n in [1usize, 2, 3, 4, 6, 8] {
        let a = sample(n, 3);
        let b = sample(n, 11);
        let expected = reference_product(&a, &b);
        for threads in [1usize, 2, 5] {
            for tile_size in 1..=n {
                if n % tile_size != 0 {
                    continue;
                }
                for algorithm in all_algorithms(threads, tile_size) {
                    assert_eq!(matrix_multiplication(&a, &b, algorithm, 3), Ok(expected.clone()));
                }
            }
        }
    }
}

#[test]
fn sums_wrap_around() {
    let a = vec![vec![i32::MAX, i32::MAX], vec![i32::MIN, 2]];
    let b = vec![vec![2, i32::MIN], vec![3, i32::MAX]];
    // Row 0, column 0: 2 * (2^31 - 1) + 3 * (2^31 - 1) = 5 * 2^31 - 5, which wraps to 2^31 - 5.
    // Row 1, column 0: 2 * -2^31 + 2 * 3 = -2^32 + 6, which wraps to 6.
    let expected = vec![vec![2147483643, -2147483647], vec![6, -2]];
    assert_eq!(reference_product(&a, &b), expected);
    for algorithm in all_algorithms(2, 1) {
        assert_eq!(matrix_multiplication(&a, &b, algorithm, 2), Ok(expected.clone()));
    }
    assert_eq!(
        matrix_multiplication(&a, &b, Algorithm::ParallelTiling(2, 2), 2),
        Ok(expected.clone())
    );
}

#[test]
fn empty_matrices_have_an_empty_product() {
    let a: Vec<Vec<i32>> = Vec::new();
    let b: Vec<Vec<i32>> = Vec::new();
    for algorithm in all_algorithms(2, 3) {
        assert_eq!(matrix_multiplication(&a, &b, algorithm, 2), Ok(Vec::new()));
    }
}

#[test]
fn a_second_call_gives_the_same_product() {
    let a = sample(6, 13);
    let b = sample(6, 17);
    for algorithm in all_algorithms(4, 3) {
        let first = matrix_multiplication(&a, &b, algorithm, 4);
        let second = matrix_multiplication(&a, &b, algorithm, 4);
        assert!(first.is_ok());
        assert_eq!(first, second);
    }
}

#[test]
fn the_number_of_threads_does_not_change_the_product() {
    let a = sample(6, 5);
    let b = sample(6, 7);
    let expected = reference_product(&a, &b);
    for threads in 1..10usize {
        for available in 1..5usize {
            assert_eq!(
                matrix_multiplication(&a, &b, Algorithm::ParallelILoop(threads), available),
                Ok(expected.clone())
            );
            assert_eq!(
                matrix_multiplication(&a, &b, Algorithm::ParallelTiling(threads, 2), available),
                Ok(expected.clone())
            );
        }
    }
}

#[test]
fn flat_form_goes_row_by_row() {
    let m = vec![vec![1, 2, 3], vec![4, 5, 6], vec![7, 8, 9]];
    let flat = flatten(&m);
    assert_eq!(flat, vec![1, 2, 3, 4, 5, 6, 7, 8, 9]);
    assert_eq!(unflatten(&flat, 3), m);
}

#[test]
fn a_job_computes_its_rectangle() {
    let a = sample(4, 3);
    let b = sample(4, 5);
    let expected = reference_product(&a, &b);
    let flat_a = flatten(&a);
    let flat_b = flatten(&b);
    let row = Job::row(2, 4);
    assert_eq!(row, Job { row: 2, col: 0, rows: 1, cols: 4, depth: 4 });
    assert_eq!(run_job(&flat_a, &flat_b, 4, row), expected[2]);
    let tile = Job::tile(2, 0, 2);
    assert_eq!(tile, Job { row: 2, col: 0, rows: 2, cols: 2, depth: 2 });
    assert_eq!(
        run_job(&flat_a, &flat_b, 4, tile),
        vec![expected[2][0], expected[2][1], expected[3][0], expected[3][1]]
    );
}

#[test]
fn a_block_goes_into_its_rectangle_and_nowhere_else() {
    let mut out = OutputRegion::new(3);
    let job = Job { row: 1, col: 1, rows: 2, cols: 2, depth: 1 };
    out.store(job, &vec![1, 2, 3, 4]);
    let row = Job { row: 0, col: 0, rows: 1, cols: 3, depth: 3 };
    out.store(row, &vec![7, 8, 9]);
    assert_eq!(out.into_buffer(), vec![7, 8, 9, 0, 1, 2, 0, 3, 4]);
}

#[test]
fn jobs_may_end_in_any_order() {
    let a = sample(4, 3);
    let b = sample(4, 5);
    let expected = flatten(&reference_product(&a, &b));
    let flat_a = flatten(&a);
    let flat_b = flatten(&b);
    let tiles = vec![Job::tile(0, 0, 2), Job::tile(0, 2, 2), Job::tile(2, 0, 2), Job::tile(2, 2, 2)];
    let one_worker = vec![tiles.clone()];
    assert_eq!(run_all(&flat_a, &flat_b, 4, &one_worker), expected);
    let backwards = vec![vec![tiles[3], tiles[2]], Vec::new(), vec![tiles[1], tiles[0]]];
    assert_eq!(run_all(&flat_a, &flat_b, 4, &backwards), expected);
    let rows = vec![
        vec![Job::row(3, 4)],
        vec![Job::row(1, 4)],
        vec![Job::row(2, 4), Job::row(0, 4)],
    ];
    assert_eq!(run_all(&flat_a, &flat_b, 4, &rows), expected);
}

#[test]
fn rows_are_handed_to_the_workers_in_turn() {
    assert_eq!(
        row_loop_schedule(5, 2, 8),
        vec![
            vec![Job::row(0, 5), Job::row(2, 5), Job::row(4, 5)],
            vec![Job::row(1, 5), Job::row(3, 5)],
        ]
    );
    assert_eq!(row_loop_schedule(2, 9, 3), vec![vec![Job::row(0, 2)], vec![Job::row(1, 2)], vec![]]);
    assert_eq!(row_loop_schedule(0, 2, 2), vec![Vec::<Job>::new(), Vec::new()]);
}

#[test]
fn tiles_are_handed_to_the_workers_in_turn() {
    assert_eq!(
        tiling_schedule(4, 2, 3, 3),
        vec![
            vec![Job::tile(0, 0, 2), Job::tile(2, 2, 2)],
            vec![Job::tile(0, 2, 2)],
            vec![Job::tile(2, 0, 2)],
        ]
    );
    assert_eq!(tiling_schedule(4, 4, 1, 1), vec![vec![Job::tile(0, 0, 4)]]);
    let all = tiling_schedule(6, 1, 4, 4);
    assert_eq!(all.len(), 4);
    assert_eq!(all.iter().map(|jobs| jobs.len()).sum::<usize>(), 36);
    assert_eq!(all[1][2], Job::tile(1, 3, 1));
}
