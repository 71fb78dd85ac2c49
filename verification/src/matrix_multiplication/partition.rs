//! The output of a multiplication as a region cut into rectangles, one for
//! each job: a job computes the entries of its rectangle and of no other.

use crate::matrix_multiplication::model::{
    dot, lemma_accumulate, lemma_cell_offset, lemma_offset_cell, product, product_entry, wrap32,
};
use crate::matrix_multiplication::types::MatrixRowPtr;
use crate::thread_pool::{dealt, lemma_dealt};
use vstd::prelude::*;

verus! {

/// One unit of work: a rectangle of the output, which the job alone writes,
/// and the length of the stretches in which it walks the shared dimension.
#[derive(Clone, Copy, Debug, PartialEq, Eq)]
pub struct Job {
    /// First output row of the rectangle.
    pub row: usize,
    /// First output column of the rectangle.
    pub col: usize,
    /// Number of rows.
    pub rows: usize,
    /// Number of columns.
    pub cols: usize,
    /// Length of one stretch of the shared dimension.
    pub depth: usize,
}

impl Job {
    /// The job lies within a matrix of `size` rows and columns, and its
    /// stretches divide the shared dimension evenly.
    pub open spec fn fits(self, size: int) -> bool {
        &&& self.row + self.rows <= size
        &&& self.col + self.cols <= size
        &&& self.depth > 0
        &&& size % (self.depth as int) == 0
    }

    /// Whether the job writes the output at offset `p`.
    pub open spec fn covers(self, size: int, p: int) -> bool {
        &&& self.row <= p / size < self.row + self.rows
        &&& self.col <= p % size < self.col + self.cols
    }

    /// Whether the job writes the output at offset `p` and, going through
    /// its rectangle row by row, comes to it before it comes to column `j`
    /// of its row `i`.
    pub open spec fn reached(self, size: int, p: int, i: int, j: int) -> bool {
        &&& self.covers(size, p)
        &&& p / size < self.row + i || (p / size == self.row + i && p % size < self.col + j)
    }

    /// Where in the job's block the output entry at offset `p` stands.
    pub open spec fn place(self, size: int, p: int) -> int {
        (p / size - self.row) * self.cols + (p % size - self.col)
    }

    /// The value at position `q` of the job's block once the first `k` terms
    /// of the sum are in.
    pub open spec fn partial_entry(
        self,
        a: Seq<i32>,
        b: Seq<i32>,
        size: int,
        q: int,
        k: int,
    ) -> i32 {
        let i = self.row + q / (self.cols as int);
        let j = self.col + q % (self.cols as int);
        wrap32(dot(a, b, size, i, j, k))
    }

    /// What the job computes: the entries of the product in its rectangle,
    /// row by row.
    pub open spec fn block(self, a: Seq<i32>, b: Seq<i32>, size: int) -> Seq<i32> {
        Seq::new(
            (self.rows * self.cols) as nat,
            |q: int|
                product_entry(
                    a,
                    b,
                    size,
                    self.row + q / (self.cols as int),
                    self.col + q % (self.cols as int),
                ),
        )
    }

    /// The job of one output row: the whole row, the shared dimension in
    /// one stretch.
    pub open spec fn of_row(row: usize, size: usize) -> Job {
        Job { row, col: 0, rows: 1, cols: size, depth: size }
    }

    /// The job of one square output tile: the shared dimension goes in
    /// stretches of the tile's size.
    pub open spec fn of_tile(row: usize, col: usize, tile_size: usize) -> Job {
        Job { row, col, rows: tile_size, cols: tile_size, depth: tile_size }
    }

    /// The job of one output row.
    pub fn row(row: usize, size: usize) -> (job: Job)
        requires
            row < size,
        ensures
            job == Job::of_row(row, size),
            job.fits(size as int),
    {
        proof {
            vstd::arithmetic::div_mod::lemma_mod_self_0(size as int);
        }
        Job { row, col: 0, rows: 1, cols: size, depth: size }
    }

    /// The job of one square output tile.
    pub fn tile(row: usize, col: usize, tile_size: usize) -> (job: Job)
        ensures
            job == Job::of_tile(row, col, tile_size),
    {
        Job { row, col, rows: tile_size, cols: tile_size, depth: tile_size }
    }
}

/// A job's block is no larger than the matrix.
pub proof fn lemma_block_fits(job: Job, size: int)
    requires
        job.fits(size),
    ensures
        job.rows * job.cols <= size * size,
{
    assert(job.rows * job.cols <= size * size) by (nonlinear_arith)
        requires
            0 <= job.rows <= size,
            0 <= job.cols <= size,
    ;
}

/// The stretch that starts at `start` ends within the shared dimension, at
/// the start of the next.
pub proof fn lemma_next_stretch(start: int, depth: int, size: int)
    requires
        0 < depth,
        0 <= start < size,
        start % depth == 0,
        size % depth == 0,
    ensures
        start + depth <= size,
        (start + depth) % depth == 0,
{
    vstd::arithmetic::div_mod::lemma_fundamental_div_mod(start, depth);
    vstd::arithmetic::div_mod::lemma_fundamental_div_mod(size, depth);
    let s = start / depth;
    let t = size / depth;
    assert(s + 1 <= t) by (nonlinear_arith)
        requires
            0 < depth,
            depth * s < depth * t,
    ;
    assert(depth * (s + 1) <= depth * t) by (nonlinear_arith)
        requires
            0 < depth,
            s + 1 <= t,
    ;
    assert(depth * (s + 1) == depth * s + depth) by (nonlinear_arith);
    vstd::arithmetic::div_mod::lemma_fundamental_div_mod_converse(start + depth, depth, s + 1, 0);
}

/// Adds one stretch of the sum to row `i` of a job's block: for each `k` of
/// the stretch, one entry of `a` times a run of a row of `b`.
fn accumulate_row(
    a: &Vec<i32>,
    b: &Vec<i32>,
    size: usize,
    job: Job,
    start: usize,
    i: usize,
    block: &mut Vec<i32>,
)
    requires
        a.len() == size * size,
        b.len() == size * size,
        job.fits(size as int),
        i < job.rows,
        start + job.depth <= size,
        old(block).len() == job.rows * job.cols,
        forall|q: int|
            0 <= q < old(block).len() && i * job.cols <= q < i * job.cols + job.cols ==> old(
                block,
            )@[q] == job.partial_entry(
                a@,
                b@,
                size as int,
                q,
                start as int,
            ),
    ensures
        final(block)@.len() == old(block)@.len(),
        forall|q: int|
            i * job.cols <= q < i * job.cols + job.cols ==> final(block)@[q] == job.partial_entry(
                a@,
                b@,
                size as int,
                q,
                start + job.depth,
            ),
        forall|q: int|
            0 <= q < old(block)@.len() && !(i * job.cols <= q < i * job.cols + job.cols)
                ==> final(block)@[q] == old(block)@[q],
{
    if job.cols == 0 {
        return ;
    }
    proof {
        lemma_cell_offset(job.rows as int, job.cols as int, i as int, 0);
        lemma_cell_offset(size as int, size as int, job.row + i, 0);
    }
    let a_ptr = MatrixRowPtr(a);
    let b_ptr = MatrixRowPtr(b);
    let base = i * job.cols;
    let a_row = (job.row + i) * size;
    let mut k: usize = 0;
    while k < job.depth
        invariant
            a.len() == size * size,
            b.len() == size * size,
            job.fits(size as int),
            job.cols > 0,
            i < job.rows,
            start + job.depth <= size,
            k <= job.depth,
            base == i * job.cols,
            base + job.cols <= job.rows * job.cols,
            a_row == (job.row + i) * size,
            a_row + size <= size * size,
            a_ptr.0 == a,
            b_ptr.0 == b,
            block.len() == job.rows * job.cols,
            block@.len() == old(block)@.len(),
            forall|q: int|
                base <= q < base + job.cols ==> block@[q] == job.partial_entry(
                    a@,
                    b@,
                    size as int,
                    q,
                    start + k,
                ),
            forall|q: int|
                0 <= q < block@.len() && !(base <= q < base + job.cols) ==> block@[q] == old(
                    block,
                )@[q],
        decreases job.depth - k,
    {
        proof {
            lemma_cell_offset(size as int, size as int, start + k, 0);
        }
        let x = *a_ptr.add(a_row + start + k);
        let b_row = (start + k) * size;
        let mut j: usize = 0;
        while j < job.cols
            invariant
                b.len() == size * size,
                job.fits(size as int),
                job.cols > 0,
                i < job.rows,
                start + job.depth <= size,
                k < job.depth,
                j <= job.cols,
                base == i * job.cols,
                base + job.cols <= job.rows * job.cols,
                a_row == (job.row + i) * size,
                a_row + size <= size * size,
                a.len() == size * size,
                x == a@[a_row + start + k],
                b_row == (start + k) * size,
                b_row + size <= size * size,
                b_ptr.0 == b,
                block.len() == job.rows * job.cols,
                block@.len() == old(block)@.len(),
                forall|q: int|
                    base <= q < base + j ==> block@[q] == job.partial_entry(
                        a@,
                        b@,
                        size as int,
                        q,
                        start + k + 1,
                    ),
                forall|q: int|
                    base + j <= q < base + job.cols ==> block@[q] == job.partial_entry(
                        a@,
                        b@,
                        size as int,
                        q,
                        start + k,
                    ),
                forall|q: int|
                    0 <= q < block@.len() && !(base <= q < base + job.cols) ==> block@[q] == old(
                        block,
                    )@[q],
            decreases job.cols - j,
        {
            let y = *b_ptr.add(b_row + job.col + j);
            let q = base + j;
            let acc = block[q];
            proof {
                lemma_cell_offset(job.rows as int, job.cols as int, i as int, j as int);
                lemma_accumulate(
                    a@,
                    b@,
                    size as int,
                    job.row + i,
                    job.col + j,
                    start + k,
                    acc,
                );
            }
            block.set(q, acc.wrapping_add(x.wrapping_mul(y)));
            j += 1;
        }
        k += 1;
    }
}

/// Runs a job: computes the entries of the product in the job's rectangle.
/// For each stretch of the shared dimension in turn, every row of the
/// rectangle takes up the terms of that stretch.
pub fn run_job(a: &Vec<i32>, b: &Vec<i32>, size: usize, job: Job) -> (block: Vec<i32>)
    requires
        a.len() == size * size,
        b.len() == size * size,
        job.fits(size as int),
    ensures
        block@ == job.block(a@, b@, size as int),
{
    proof {
        lemma_block_fits(job, size as int);
    }
    let mut block: Vec<i32> = vec![0i32; job.rows * job.cols];
    let mut start: usize = 0;
    while start < size
        invariant
            a.len() == size * size,
            b.len() == size * size,
            job.fits(size as int),
            start <= size,
            start % job.depth == 0,
            block.len() == job.rows * job.cols,
            forall|q: int|
                0 <= q < block@.len() ==> block@[q] == job.partial_entry(
                    a@,
                    b@,
                    size as int,
                    q,
                    start as int,
                ),
        decreases size - start,
    {
        proof {
            lemma_next_stretch(start as int, job.depth as int, size as int);
        }
        let mut i: usize = 0;
        while i < job.rows
            invariant
                a.len() == size * size,
                b.len() == size * size,
                job.fits(size as int),
                start + job.depth <= size,
                i <= job.rows,
                block.len() == job.rows * job.cols,
                forall|q: int|
                    0 <= q < block@.len() && q < i * job.cols ==> block@[q] == job.partial_entry(
                        a@,
                        b@,
                        size as int,
                        q,
                        start + job.depth,
                    ),
                forall|q: int|
                    0 <= q < block@.len() && i * job.cols <= q ==> block@[q] == job.partial_entry(
                        a@,
                        b@,
                        size as int,
                        q,
                        start as int,
                    ),
            decreases job.rows - i,
        {
            proof {
                if job.cols > 0 {
                    lemma_cell_offset(job.rows as int, job.cols as int, i as int, 0);
                }
                assert((i + 1) * job.cols == i * job.cols + job.cols) by (nonlinear_arith);
            }
            accumulate_row(a, b, size, job, start, i, &mut block);
            i += 1;
        }
        proof {
            assert(i * job.cols == job.rows * job.cols);
        }
        start += job.depth;
    }
    block
}

/// The output after a job's block has been put into its rectangle: the
/// entries that the job covers come from the block, all others stay.
pub open spec fn stored(buffer: Seq<i32>, size: int, job: Job, block: Seq<i32>) -> Seq<i32> {
    Seq::new(
        buffer.len(),
        |p: int|
            if job.covers(size, p) {
                block[job.place(size, p)]
            } else {
                buffer[p]
            },
    )
}

/// The output of one multiplication: a flat buffer of `size * size` entries,
/// zero at first, which the jobs' blocks are put into. It holds the one
/// handle that writes to the buffer; a job never has it, only the block
/// that it hands over.
pub struct OutputRegion {
    buffer: MatrixRowPtr<Vec<i32>>,
    size: usize,
}

impl View for OutputRegion {
    type V = Seq<i32>;

    closed spec fn view(&self) -> Seq<i32> {
        self.buffer.0@
    }
}

impl OutputRegion {
    /// The buffer has one entry for each entry of the matrix.
    pub closed spec fn wf(&self) -> bool {
        self.buffer.0.len() == self.size * self.size
    }

    /// The number of rows, and of columns.
    pub closed spec fn size(&self) -> usize {
        self.size
    }

    /// A zeroed output for matrices of `size` rows and columns.
    pub fn new(size: usize) -> (region: OutputRegion)
        requires
            size * size <= usize::MAX,
        ensures
            region.wf(),
            region.size() == size,
            region@ == Seq::new((size * size) as nat, |p: int| 0i32),
    {
        OutputRegion { buffer: MatrixRowPtr(vec![0i32; size * size]), size }
    }

    /// Puts a job's block into the job's rectangle.
    pub fn store(&mut self, job: Job, block: &Vec<i32>)
        requires
            old(self).wf(),
            job.row + job.rows <= old(self).size(),
            job.col + job.cols <= old(self).size(),
            block.len() == job.rows * job.cols,
        ensures
            final(self).wf(),
            final(self).size() == old(self).size(),
            final(self)@ == stored(old(self)@, old(self).size() as int, job, block@),
    {
        let size = self.size;
        let mut i: usize = 0;
        while i < job.rows
            invariant
                self.size == size,
                size == old(self).size,
                self.buffer.0.len() == size * size,
                self.buffer.0.len() == old(self).buffer.0.len(),
                job.row + job.rows <= size,
                job.col + job.cols <= size,
                block.len() == job.rows * job.cols,
                i <= job.rows,
                forall|p: int|
                    0 <= p < self.buffer.0.len() ==> #[trigger] self.buffer.0@[p] == if job.reached(
                        size as int,
                        p,
                        i as int,
                        0,
                    ) {
                        block@[job.place(size as int, p)]
                    } else {
                        old(self).buffer.0@[p]
                    },
            decreases job.rows - i,
        {
            if job.cols > 0 {
                proof {
                    lemma_cell_offset(size as int, size as int, job.row + i, job.col as int);
                    lemma_cell_offset(job.rows as int, job.cols as int, i as int, 0);
                }
                let out_row = (job.row + i) * size + job.col;
                let in_row = i * job.cols;
                let mut j: usize = 0;
                while j < job.cols
                    invariant
                        self.size == size,
                        self.buffer.0.len() == size * size,
                        self.buffer.0.len() == old(self).buffer.0.len(),
                        job.row + job.rows <= size,
                        job.col + job.cols <= size,
                        block.len() == job.rows * job.cols,
                        i < job.rows,
                        j <= job.cols,
                        out_row == (job.row + i) * size + job.col,
                        out_row + job.cols <= size * size,
                        in_row == i * job.cols,
                        in_row + job.cols <= job.rows * job.cols,
                        forall|p: int|
                            0 <= p < self.buffer.0.len() ==> #[trigger] self.buffer.0@[p]
                                == if job.reached(size as int, p, i as int, j as int) {
                                block@[job.place(size as int, p)]
                            } else {
                                old(self).buffer.0@[p]
                            },
                    decreases job.cols - j,
                {
                    let ghost before = self.buffer.0@;
                    let value = block[in_row + j];
                    *self.buffer.add_mut(out_row + j) = value;
                    proof {
                        lemma_cell_offset(size as int, size as int, job.row + i, job.col + j);
                        assert forall|p: int|
                            0 <= p < self.buffer.0.len() implies #[trigger] self.buffer.0@[p]
                            == if job.reached(size as int, p, i as int, j + 1) {
                            block@[job.place(size as int, p)]
                        } else {
                            old(self).buffer.0@[p]
                        } by {
                            if p != out_row + j {
                                assert(self.buffer.0@[p] == before[p]);
                                lemma_offset_cell(size as int, size as int, p);
                            }
                        }
                    }
                    j += 1;
                }
            }
            i += 1;
        }
        proof {
            assert(self.buffer.0@ =~= stored(old(self).buffer.0@, size as int, job, block@));
        }
    }

    /// Gives up the buffer.
    pub fn into_buffer(self) -> (buffer: Vec<i32>)
        requires
            self.wf(),
        ensures
            buffer@ == self@,
            buffer.len() == self.size() * self.size(),
    {
        self.buffer.0
    }
}

/// Where a job covers an offset, its block holds the product's entry for it.
pub proof fn lemma_block_entry(a: Seq<i32>, b: Seq<i32>, size: int, job: Job, p: int)
    requires
        job.fits(size),
        job.covers(size, p),
    ensures
        0 <= p < size * size,
        0 <= job.place(size, p) < job.rows * job.cols,
        job.block(a, b, size)[job.place(size, p)] == product(a, b, size)[p],
{
    let r = p / size;
    let c = p % size;
    vstd::arithmetic::div_mod::lemma_fundamental_div_mod(p, size);
    assert(size * r == r * size) by (nonlinear_arith);
    lemma_cell_offset(size, size, r, c);
    lemma_cell_offset(job.rows as int, job.cols as int, r - job.row, c - job.col);
}

/// Whether the output holds the expected entries wherever `job` covers it.
pub open spec fn settled(job: Job, size: int, out: Seq<i32>, expected: Seq<i32>) -> bool {
    forall|p: int| 0 <= p < out.len() && job.covers(size, p) ==> #[trigger] out[p] == expected[p]
}

/// Putting a job's block into the output settles that job, and unsettles
/// no other.
pub proof fn lemma_store_settles(
    out: Seq<i32>,
    a: Seq<i32>,
    b: Seq<i32>,
    size: int,
    job: Job,
    other: Job,
)
    requires
        job.fits(size),
        out.len() == size * size,
    ensures
        settled(job, size, stored(out, size, job, job.block(a, b, size)), product(a, b, size)),
        settled(other, size, out, product(a, b, size)) ==> settled(
            other,
            size,
            stored(out, size, job, job.block(a, b, size)),
            product(a, b, size),
        ),
{
    let after = stored(out, size, job, job.block(a, b, size));
    assert forall|p: int| 0 <= p < after.len() && job.covers(size, p) implies #[trigger] after[p]
        == product(a, b, size)[p] by {
        lemma_block_entry(a, b, size, job, p);
    }
}

/// The output after the blocks of `jobs` have been put into `out`, one
/// after the other.
pub open spec fn after_jobs(
    out: Seq<i32>,
    a: Seq<i32>,
    b: Seq<i32>,
    size: int,
    jobs: Seq<Job>,
) -> Seq<i32>
    decreases jobs.len(),
{
    if jobs.len() == 0 {
        out
    } else {
        stored(
            after_jobs(out, a, b, size, jobs.drop_last()),
            size,
            jobs.last(),
            jobs.last().block(a, b, size),
        )
    }
}

/// Once the blocks of `jobs` are in, each of these jobs is settled.
pub proof fn lemma_after_jobs(out: Seq<i32>, a: Seq<i32>, b: Seq<i32>, size: int, jobs: Seq<Job>)
    requires
        out.len() == size * size,
        forall|t: int| 0 <= t < jobs.len() ==> (#[trigger] jobs[t]).fits(size),
    ensures
        after_jobs(out, a, b, size, jobs).len() == out.len(),
        forall|t: int|
            0 <= t < jobs.len() ==> settled(
                #[trigger] jobs[t],
                size,
                after_jobs(out, a, b, size, jobs),
                product(a, b, size),
            ),
    decreases jobs.len(),
{
    if jobs.len() > 0 {
        let earlier = jobs.drop_last();
        lemma_after_jobs(out, a, b, size, earlier);
        let before = after_jobs(out, a, b, size, earlier);
        assert forall|t: int| 0 <= t < jobs.len() implies settled(
            #[trigger] jobs[t],
            size,
            after_jobs(out, a, b, size, jobs),
            product(a, b, size),
        ) by {
            lemma_store_settles(before, a, b, size, jobs.last(), jobs[t]);
            if t < earlier.len() {
                assert(earlier[t] == jobs[t]);
            }
        }
    }
}

/// Whether one of `jobs` covers the output at offset `p`.
pub open spec fn some_covers(jobs: Seq<Job>, size: int, p: int) -> bool {
    exists|t: int| 0 <= t < jobs.len() && (#[trigger] jobs[t]).covers(size, p)
}

/// The order in which the jobs end does not matter. Whatever the order,
/// and whoever ran them: once every entry of the output is covered by a job
/// whose block is in, the output is the product.
pub proof fn lemma_completion_order(
    out: Seq<i32>,
    a: Seq<i32>,
    b: Seq<i32>,
    size: int,
    first: Seq<Job>,
    second: Seq<Job>,
)
    requires
        out.len() == size * size,
        forall|t: int| 0 <= t < first.len() ==> (#[trigger] first[t]).fits(size),
        forall|t: int| 0 <= t < second.len() ==> (#[trigger] second[t]).fits(size),
        forall|p: int| 0 <= p < size * size ==> #[trigger] some_covers(first, size, p),
        forall|p: int| 0 <= p < size * size ==> #[trigger] some_covers(second, size, p),
    ensures
        after_jobs(out, a, b, size, first) == product(a, b, size),
        after_jobs(out, a, b, size, second) == after_jobs(out, a, b, size, first),
{
    lemma_after_jobs(out, a, b, size, first);
    lemma_after_jobs(out, a, b, size, second);
    let expected = product(a, b, size);
    let one = after_jobs(out, a, b, size, first);
    let other = after_jobs(out, a, b, size, second);
    assert forall|p: int| 0 <= p < size * size implies one[p] == expected[p] && other[p]
        == expected[p] by {
        assert(some_covers(first, size, p));
        let t = choose|t: int| 0 <= t < first.len() && (#[trigger] first[t]).covers(size, p);
        assert(settled(first[t], size, one, expected));
        assert(some_covers(second, size, p));
        let u = choose|u: int| 0 <= u < second.len() && (#[trigger] second[u]).covers(size, p);
        assert(settled(second[u], size, other, expected));
    }
    assert(one =~= expected);
    assert(other =~= expected);
}

/// Two jobs of different rows write no common entry.
pub proof fn lemma_rows_disjoint(size: usize, first: usize, second: usize, p: int)
    requires
        first != second,
    ensures
        !(Job::of_row(first, size).covers(size as int, p) && Job::of_row(second, size).covers(
            size as int,
            p,
        )),
{
}

/// Two jobs of different tiles, each tile starting at a multiple of the
/// tile size, write no common entry.
pub proof fn lemma_tiles_disjoint(
    size: usize,
    tile_size: usize,
    first: (usize, usize),
    second: (usize, usize),
    p: int,
)
    requires
        tile_size > 0,
        first.0 % tile_size == 0,
        first.1 % tile_size == 0,
        second.0 % tile_size == 0,
        second.1 % tile_size == 0,
        first != second,
    ensures
        !(Job::of_tile(first.0, first.1, tile_size).covers(size as int, p) && Job::of_tile(
            second.0,
            second.1,
            tile_size,
        ).covers(size as int, p)),
{
    let d = tile_size as int;
    if first.0 < second.0 {
        lemma_next_stretch(first.0 as int, d, second.0 as int);
    } else if second.0 < first.0 {
        lemma_next_stretch(second.0 as int, d, first.0 as int);
    } else if first.1 < second.1 {
        lemma_next_stretch(first.1 as int, d, second.1 as int);
    } else {
        lemma_next_stretch(second.1 as int, d, first.1 as int);
    }
}

/// What the workers ran, as plain sequences: for each worker its jobs, in
/// the order in which it ran them.
pub open spec fn schedule(ran: Seq<Vec<Job>>) -> Seq<Seq<Job>> {
    Seq::new(ran.len(), |id: int| ran[id]@)
}

/// Whether one of `jobs` covers the output at offset `p`.
pub open spec fn covered(jobs: Seq<Seq<Job>>, size: int, p: int) -> bool {
    exists|id: int, t: int|
        0 <= id < jobs.len() && 0 <= t < jobs[id].len() && (#[trigger] jobs[id][t]).covers(size, p)
}

/// Whether every one of `jobs` fits a matrix of `size` rows and columns.
pub open spec fn all_fit(jobs: Seq<Seq<Job>>, size: int) -> bool {
    forall|id: int, t: int|
        0 <= id < jobs.len() && 0 <= t < jobs[id].len() ==> (#[trigger] jobs[id][t]).fits(size)
}

/// The jobs of the row loop in the order in which they are handed out: one
/// for each row of the output, from the first row to the last.
pub open spec fn row_plan(size: usize) -> Seq<Job> {
    Seq::new(size as nat, |i: int| Job::of_row(i as usize, size))
}

/// The jobs of the tiling algorithm in the order in which they are handed
/// out: one for each tile of the output, the tiles taken row by row.
pub open spec fn tile_plan(size: usize, tile_size: usize) -> Seq<Job> {
    let across = size as int / tile_size as int;
    Seq::new(
        (across * across) as nat,
        |n: int|
            Job::of_tile(
                (n / across * tile_size) as usize,
                (n % across * tile_size) as usize,
                tile_size,
            ),
    )
}

/// The jobs of the row loop fit the matrix, and every entry of the output
/// is in the row of one of them.
pub proof fn lemma_row_plan(size: usize)
    ensures
        forall|n: int|
            0 <= n < row_plan(size).len() ==> (#[trigger] row_plan(size)[n]).fits(size as int),
        forall|p: int|
            0 <= p < size * size ==> #[trigger] some_covers(row_plan(size), size as int, p),
{
    let plan = row_plan(size);
    if size > 0 {
        vstd::arithmetic::div_mod::lemma_mod_self_0(size as int);
    }
    assert forall|p: int| 0 <= p < size * size implies #[trigger] some_covers(
        plan,
        size as int,
        p,
    ) by {
        lemma_offset_cell(size as int, size as int, p);
        assert(plan[p / (size as int)].covers(size as int, p));
    }
}

/// The jobs of the tiling algorithm fit the matrix, and every entry of the
/// output is in the tile of one of them.
pub proof fn lemma_tile_plan(size: usize, tile_size: usize)
    requires
        tile_size > 0,
        size % tile_size == 0,
    ensures
        forall|n: int|
            0 <= n < tile_plan(size, tile_size).len() ==> (#[trigger] tile_plan(
                size,
                tile_size,
            )[n]).fits(size as int),
        forall|p: int|
            0 <= p < size * size ==> #[trigger] some_covers(
                tile_plan(size, tile_size),
                size as int,
                p,
            ),
{
    let plan = tile_plan(size, tile_size);
    let tile = tile_size as int;
    let across = size as int / tile;
    vstd::arithmetic::div_mod::lemma_fundamental_div_mod(size as int, tile);
    assert(across * tile == size) by (nonlinear_arith)
        requires
            size == tile * across,
    ;
    assert forall|n: int| 0 <= n < plan.len() implies (#[trigger] plan[n]).fits(size as int) by {
        lemma_offset_cell(across, across, n);
        lemma_cell_offset(across, tile, n / across, 0);
        lemma_cell_offset(across, tile, n % across, 0);
    }
    assert forall|p: int| 0 <= p < size * size implies #[trigger] some_covers(
        plan,
        size as int,
        p,
    ) by {
        lemma_offset_cell(size as int, size as int, p);
        let r = p / (size as int);
        let c = p % (size as int);
        lemma_offset_cell(across, tile, r);
        lemma_offset_cell(across, tile, c);
        let n = (r / tile) * across + c / tile;
        lemma_cell_offset(across, across, r / tile, c / tile);
        lemma_cell_offset(across, tile, r / tile, 0);
        lemma_cell_offset(across, tile, c / tile, 0);
        assert(plan[n].covers(size as int, p));
    }
}

/// No two jobs of the row loop write a common entry of the output.
pub proof fn lemma_row_plan_disjoint(size: usize, n: int, m: int, p: int)
    requires
        0 <= n < row_plan(size).len(),
        0 <= m < row_plan(size).len(),
        n != m,
    ensures
        !(row_plan(size)[n].covers(size as int, p) && row_plan(size)[m].covers(size as int, p)),
{
    lemma_rows_disjoint(size, n as usize, m as usize, p);
}

/// No two jobs of the tiling algorithm write a common entry of the output.
pub proof fn lemma_tile_plan_disjoint(size: usize, tile_size: usize, n: int, m: int, p: int)
    requires
        tile_size > 0,
        size % tile_size == 0,
        0 <= n < tile_plan(size, tile_size).len(),
        0 <= m < tile_plan(size, tile_size).len(),
        n != m,
    ensures
        !(tile_plan(size, tile_size)[n].covers(size as int, p) && tile_plan(
            size,
            tile_size,
        )[m].covers(size as int, p)),
{
    let tile = tile_size as int;
    let across = size as int / tile;
    vstd::arithmetic::div_mod::lemma_fundamental_div_mod(size as int, tile);
    assert(across * tile == size) by (nonlinear_arith)
        requires
            size == tile * across,
    ;
    lemma_offset_cell(across, across, n);
    lemma_offset_cell(across, across, m);
    let first = (n / across * tile, n % across * tile);
    let second = (m / across * tile, m % across * tile);
    lemma_cell_offset(across, tile, n / across, 0);
    lemma_cell_offset(across, tile, n % across, 0);
    lemma_cell_offset(across, tile, m / across, 0);
    lemma_cell_offset(across, tile, m % across, 0);
    vstd::arithmetic::div_mod::lemma_mod_multiples_basic(n / across, tile);
    vstd::arithmetic::div_mod::lemma_mod_multiples_basic(n % across, tile);
    vstd::arithmetic::div_mod::lemma_mod_multiples_basic(m / across, tile);
    vstd::arithmetic::div_mod::lemma_mod_multiples_basic(m % across, tile);
    if n / across != m / across {
        assert(first.0 != second.0) by (nonlinear_arith)
            requires
                first.0 == (n / across) * tile,
                second.0 == (m / across) * tile,
                n / across != m / across,
                tile > 0,
        ;
    } else {
        assert(first.1 != second.1) by (nonlinear_arith)
            requires
                first.1 == (n % across) * tile,
                second.1 == (m % across) * tile,
                n % across != m % across,
                tile > 0,
        ;
    }
    lemma_tiles_disjoint(
        size,
        tile_size,
        (first.0 as usize, first.1 as usize),
        (second.0 as usize, second.1 as usize),
        p,
    );
}

/// Dealt out to workers, the jobs of a plan still fit and still cover what
/// they covered.
pub proof fn lemma_dealt_plan(plan: Seq<Job>, workers: nat, size: int)
    requires
        workers > 0,
        forall|n: int| 0 <= n < plan.len() ==> (#[trigger] plan[n]).fits(size),
    ensures
        all_fit(dealt(plan, workers), size),
        forall|p: int|
            some_covers(plan, size, p) ==> #[trigger] covered(dealt(plan, workers), size, p),
{
    lemma_dealt(plan, workers);
    let jobs = dealt(plan, workers);
    assert forall|id: int, t: int| 0 <= id < jobs.len() && 0 <= t < jobs[id].len() implies (
    #[trigger] jobs[id][t]).fits(size) by {
        let n = choose|n: int| 0 <= n < plan.len() && #[trigger] plan[n] == #[trigger] jobs[id][t];
        assert(plan[n].fits(size));
    }
    assert forall|p: int| some_covers(plan, size, p) implies #[trigger] covered(
        jobs,
        size,
        p,
    ) by {
        let n = choose|n: int| 0 <= n < plan.len() && (#[trigger] plan[n]).covers(size, p);
        let (id, t) = choose|id: int, t: int|
            0 <= id < workers && 0 <= t < jobs[id].len() && #[trigger] jobs[id][t]
                == #[trigger] plan[n];
        assert(jobs[id][t].covers(size, p));
    }
}

/// Runs every job that the workers were given, worker after worker and
/// each worker's jobs in their order, and puts the blocks into one output.
/// Where the jobs cover the output, what comes back is the product.
pub fn run_all(a: &Vec<i32>, b: &Vec<i32>, size: usize, ran: &Vec<Vec<Job>>) -> (c: Vec<i32>)
    requires
        a.len() == size * size,
        b.len() == size * size,
        all_fit(schedule(ran@), size as int),
        forall|p: int| 0 <= p < size * size ==> #[trigger] covered(schedule(ran@), size as int, p),
    ensures
        c@ == product(a@, b@, size as int),
{
    let ghost expected = product(a@, b@, size as int);
    let mut out = OutputRegion::new(size);
    for id in 0..ran.len()
        invariant
            a.len() == size * size,
            b.len() == size * size,
            all_fit(schedule(ran@), size as int),
            expected == product(a@, b@, size as int),
            out.wf(),
            out.size() == size,
            out@.len() == size * size,
            forall|w: int, t: int|
                0 <= w < id && 0 <= t < ran@[w]@.len() ==> settled(
                    #[trigger] ran@[w]@[t],
                    size as int,
                    out@,
                    expected,
                ),
    {
        let jobs = &ran[id];
        for t in 0..jobs.len()
            invariant
                a.len() == size * size,
                b.len() == size * size,
                all_fit(schedule(ran@), size as int),
                expected == product(a@, b@, size as int),
                0 <= id < ran@.len(),
                jobs == ran@[id as int],
                out.wf(),
                out.size() == size,
                out@.len() == size * size,
                forall|w: int, u: int|
                    0 <= w < id && 0 <= u < ran@[w]@.len() ==> settled(
                        #[trigger] ran@[w]@[u],
                        size as int,
                        out@,
                        expected,
                    ),
                forall|u: int|
                    0 <= u < t ==> settled(#[trigger] jobs@[u], size as int, out@, expected),
        {
            let job = jobs[t];
            proof {
                assert(schedule(ran@)[id as int][t as int].fits(size as int));
            }
            let block = run_job(a, b, size, job);
            let ghost before = out@;
            out.store(job, &block);
            proof {
                assert forall|w: int, u: int|
                    0 <= w < id && 0 <= u < ran@[w]@.len() implies settled(
                    #[trigger] ran@[w]@[u],
                    size as int,
                    out@,
                    expected,
                ) by {
                    lemma_store_settles(before, a@, b@, size as int, job, ran@[w]@[u]);
                }
                assert forall|u: int| 0 <= u < t + 1 implies settled(
                    #[trigger] jobs@[u],
                    size as int,
                    out@,
                    expected,
                ) by {
                    lemma_store_settles(before, a@, b@, size as int, job, jobs@[u]);
                }
            }
        }
    }
    proof {
        assert forall|p: int| 0 <= p < size * size implies out@[p] == expected[p] by {
            assert(covered(schedule(ran@), size as int, p));
            let (w, t) = choose|w: int, t: int|
                0 <= w < schedule(ran@).len() && 0 <= t < schedule(ran@)[w].len() && (
                #[trigger] schedule(ran@)[w][t]).covers(size as int, p);
            assert(settled(ran@[w]@[t], size as int, out@, expected));
        }
        assert(out@ =~= expected);
    }
    out.into_buffer()
}

} // verus!
