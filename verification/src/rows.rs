//! How the render driver hands the rows of the image to its workers, and
//! how a worker brings its finished rows into the framebuffer.

use crate::framebuffer::Buffer;
use vstd::prelude::*;

verus! {

/// The number of rows that each worker is given at most.
pub open spec fn rows_per(height: int, threads: int) -> int {
    height / threads + 1
}

/// The first row of worker `i`.
pub open spec fn band_start(height: int, threads: int, i: int) -> int {
    i * rows_per(height, threads)
}

/// The row behind the last row of worker `i`.
pub open spec fn band_end(height: int, threads: int, i: int) -> int {
    if (i + 1) * rows_per(height, threads) < height {
        (i + 1) * rows_per(height, threads)
    } else {
        height
    }
}

/// Whether `row` is one of the rows of worker `i`.
pub open spec fn in_band(height: int, threads: int, i: int, row: int) -> bool {
    band_start(height, threads, i) <= row < band_end(height, threads, i)
}

proof fn lemma_band_fits(height: int, threads: int, i: int)
    requires
        0 <= height,
        0 < threads,
        0 <= i < threads,
    ensures
        0 <= i * rows_per(height, threads),
        (i + 1) * rows_per(height, threads) <= height + threads,
        i * rows_per(height, threads) <= (i + 1) * rows_per(height, threads),
{
    let per = rows_per(height, threads);
    assert(threads * (height / threads) <= height) by (nonlinear_arith)
        requires
            0 <= height,
            0 < threads,
    ;
    assert(0 <= height / threads) by (nonlinear_arith)
        requires
            0 <= height,
            0 < threads,
    ;
    assert((i + 1) * per <= threads * per) by (nonlinear_arith)
        requires
            i + 1 <= threads,
            0 <= per,
    ;
    assert(threads * per == threads * (height / threads) + threads) by (nonlinear_arith)
        requires
            per == height / threads + 1,
    ;
    assert(0 <= i * per && i * per <= (i + 1) * per) by (nonlinear_arith)
        requires
            0 <= i,
            0 <= per,
    ;
}

/// The rows of worker `i` out of `threads`, as the first row and the row
/// behind the last. A worker whose first row lies at or behind its end has
/// no rows.
pub fn row_range(height: usize, threads: usize, i: usize) -> (band: (usize, usize))
    requires
        threads > 0,
        i < threads,
        height + threads <= usize::MAX,
    ensures
        band.0 == band_start(height as int, threads as int, i as int),
        band.1 == band_end(height as int, threads as int, i as int),
{
    proof {
        lemma_band_fits(height as int, threads as int, i as int);
    }
    let per = height / threads + 1;
    let start = i * per;
    let next = (i + 1) * per;
    let end = if next < height {
        next
    } else {
        height
    };
    (start, end)
}

/// The bands part the image: every row belongs to one worker, the one
/// named, and to no other.
pub proof fn lemma_rows_partitioned(height: int, threads: int, row: int)
    requires
        0 < threads,
        0 <= row < height,
    ensures
        0 <= row / rows_per(height, threads) < threads,
        in_band(height, threads, row / rows_per(height, threads), row),
        forall|j: int|
            0 <= j < threads && j != row / rows_per(height, threads) ==> !in_band(
                height,
                threads,
                j,
                row,
            ),
{
    let per = rows_per(height, threads);
    let i = row / per;
    assert(0 <= height / threads) by (nonlinear_arith)
        requires
            0 <= height,
            0 < threads,
    ;
    assert(per > 0);
    assert(0 <= i && i * per <= row < (i + 1) * per) by (nonlinear_arith)
        requires
            i == row / per,
            per > 0,
            0 <= row,
    ;
    assert(height < threads * per) by (nonlinear_arith)
        requires
            per == height / threads + 1,
            0 < threads,
            0 <= height,
    ;
    assert(i < threads) by (nonlinear_arith)
        requires
            i * per <= row,
            row < height,
            height < threads * per,
            per > 0,
    ;
    assert forall|j: int| 0 <= j < threads && j != i implies !in_band(height, threads, j, row) by {
        if j < i {
            assert((j + 1) * per <= i * per) by (nonlinear_arith)
                requires
                    j + 1 <= i,
                    per > 0,
            ;
        } else {
            assert((i + 1) * per <= j * per) by (nonlinear_arith)
                requires
                    i + 1 <= j,
                    per > 0,
            ;
        }
    }
}

/// A finished row that waits to be written: its number and its pixels.
pub struct QueuedRow {
    pub row: usize,
    pub pixels: Vec<u32>,
}

/// `buf` with the pixels of row `row` replaced by `pixels`.
pub open spec fn with_row(buf: Seq<u32>, width: int, row: int, pixels: Seq<u32>) -> Seq<u32> {
    Seq::new(
        buf.len(),
        |i: int|
            if row * width <= i < (row + 1) * width {
                pixels[i - row * width]
            } else {
                buf[i]
            },
    )
}

/// `buf` after the rows of `queue` were written into it, first to last.
pub open spec fn with_rows(buf: Seq<u32>, width: int, queue: Seq<QueuedRow>) -> Seq<u32>
    decreases queue.len(),
{
    if queue.len() == 0 {
        buf
    } else {
        with_row(
            with_rows(buf, width, queue.drop_last()),
            width,
            queue.last().row as int,
            queue.last().pixels@,
        )
    }
}

/// Whether every row of `queue` is `width` pixels long and lies within a
/// buffer of `len` pixels.
pub open spec fn queue_fits(queue: Seq<QueuedRow>, width: int, len: int) -> bool {
    forall|k: int|
        0 <= k < queue.len() ==> (#[trigger] queue[k]).pixels@.len() == width && (queue[k].row
            + 1) * width <= len
}

/// Writes `pixels` over row `row` of the buffer.
pub fn store_row(buf: &mut Buffer, width: usize, row: usize, pixels: &Vec<u32>)
    requires
        pixels@.len() == width,
        (row + 1) * width <= old(buf)@.len(),
    ensures
        final(buf)@ == with_row(old(buf)@, width as int, row as int, pixels@),
{
    let len = buf.len();
    assert(row * width + width == (row + 1) * width) by (nonlinear_arith);
    assert(0 <= row * width) by (nonlinear_arith);
    let base = row * width;
    let mut c: usize = 0;
    while c < width
        invariant
            c <= width,
            base == row * width,
            base + width <= len,
            buf@.len() == len,
            len == old(buf)@.len(),
            pixels@.len() == width,
            forall|i: int| 0 <= i < len && !(base <= i < base + c) ==> buf@[i] == old(buf)@[i],
            forall|i: int| base <= i < base + c ==> buf@[i] == pixels@[i - base],
        decreases width - c,
    {
        buf[base + c] = pixels[c];
        c = c + 1;
    }
    assert(buf@ =~= with_row(old(buf)@, width as int, row as int, pixels@));
}

/// The rows that a worker has finished and not yet written.
pub struct Backlog {
    pub width: usize,
    pub queue: Vec<QueuedRow>,
}

impl Backlog {
    /// An empty backlog for rows of `width` pixels.
    pub fn new(width: usize) -> (backlog: Backlog)
        ensures
            backlog.width == width,
            backlog.queue@.len() == 0,
    {
        Backlog { width, queue: Vec::new() }
    }

    /// Queues a finished row behind those already waiting.
    pub fn push(&mut self, row: usize, pixels: Vec<u32>)
        ensures
            final(self).width == old(self).width,
            final(self).queue@ == old(self).queue@.push(QueuedRow { row, pixels }),
    {
        self.queue.push(QueuedRow { row, pixels });
    }

    /// Writes every waiting row into the buffer, in the order in which they
    /// were queued, and empties the backlog.
    pub fn flush(&mut self, buf: &mut Buffer)
        requires
            queue_fits(old(self).queue@, old(self).width as int, old(buf)@.len() as int),
        ensures
            final(self).width == old(self).width,
            final(self).queue@.len() == 0,
            final(buf)@ == with_rows(old(buf)@, old(self).width as int, old(self).queue@),
    {
        let mut k: usize = 0;
        while k < self.queue.len()
            invariant
                k <= self.queue@.len(),
                self.width == old(self).width,
                self.queue@ == old(self).queue@,
                buf@.len() == old(buf)@.len(),
                queue_fits(self.queue@, self.width as int, buf@.len() as int),
                buf@ == with_rows(old(buf)@, self.width as int, self.queue@.take(k as int)),
            decreases self.queue@.len() - k,
        {
            proof {
                let upto = self.queue@.take(k + 1);
                assert(upto.drop_last() == self.queue@.take(k as int));
                assert(upto.last() == self.queue@[k as int]);
            }
            let entry = &self.queue[k];
            store_row(buf, self.width, entry.row, &entry.pixels);
            k = k + 1;
        }
        proof {
            assert(self.queue@.take(k as int) == self.queue@);
        }
        self.queue.clear();
    }
}

/// Writing keeps the size of the buffer.
pub proof fn lemma_with_rows_len(buf: Seq<u32>, width: int, queue: Seq<QueuedRow>)
    ensures
        with_rows(buf, width, queue).len() == buf.len(),
    decreases queue.len(),
{
    if queue.len() > 0 {
        lemma_with_rows_len(buf, width, queue.drop_last());
    }
}

/// Nothing that was queued is lost: after a flush of rows with distinct
/// numbers, each queued pixel stands at its place in the buffer, and the
/// pixels of rows that were not queued are as they were.
pub proof fn lemma_flush_keeps_rows(buf: Seq<u32>, width: int, queue: Seq<QueuedRow>)
    requires
        0 < width,
        queue_fits(queue, width, buf.len() as int),
        forall|a: int, b: int|
            0 <= a < b < queue.len() ==> (#[trigger] queue[a]).row != (#[trigger] queue[b]).row,
    ensures
        forall|k: int, col: int|
            0 <= k < queue.len() && 0 <= col < width ==> with_rows(buf, width, queue)[queue[k].row
                * width + col] == #[trigger] queue[k].pixels@[col],
        forall|i: int|
            0 <= i < buf.len() && (forall|k: int|
                0 <= k < queue.len() ==> (#[trigger] queue[k]).row != i / width) ==> with_rows(
                buf,
                width,
                queue,
            )[i] == buf[i],
    decreases queue.len(),
{
    if queue.len() > 0 {
        let front = queue.drop_last();
        let last = queue.last();
        let before = with_rows(buf, width, front);
        let after = with_rows(buf, width, queue);
        lemma_with_rows_len(buf, width, front);
        assert(queue_fits(front, width, buf.len() as int)) by {
            assert forall|k: int| 0 <= k < front.len() implies (#[trigger] front[k]).pixels@.len()
                == width && (front[k].row + 1) * width <= buf.len() by {
                assert(front[k] == queue[k]);
            }
        }
        assert forall|a: int, b: int| 0 <= a < b < front.len() implies (#[trigger] front[a]).row != (
        #[trigger] front[b]).row by {
            assert(front[a] == queue[a] && front[b] == queue[b]);
        }
        lemma_flush_keeps_rows(buf, width, front);
        let r = last.row as int;
        assert(queue[queue.len() - 1] == last);
        assert((r + 1) * width == r * width + width) by (nonlinear_arith);
        assert(0 <= r * width) by (nonlinear_arith)
            requires
                0 <= r,
                0 < width,
        ;
        assert forall|k: int, col: int| 0 <= k < queue.len() && 0 <= col < width implies after[queue[k].row
            * width + col] == #[trigger] queue[k].pixels@[col] by {
            let q = queue[k].row as int;
            assert((q + 1) * width == q * width + width) by (nonlinear_arith);
            assert(0 <= q * width) by (nonlinear_arith)
                requires
                    0 <= q,
                    0 < width,
            ;
            if k < front.len() {
                assert(front[k] == queue[k]);
                assert(q != r);
                if q < r {
                    assert((q + 1) * width <= r * width) by (nonlinear_arith)
                        requires
                            q + 1 <= r,
                            0 < width,
                    ;
                } else {
                    assert((r + 1) * width <= q * width) by (nonlinear_arith)
                        requires
                            r + 1 <= q,
                            0 < width,
                    ;
                }
                assert(after[q * width + col] == before[q * width + col]);
            }
        }
        assert forall|i: int|
            0 <= i < buf.len() && (forall|k: int|
                0 <= k < queue.len() ==> (#[trigger] queue[k]).row != i / width) implies after[i]
            == buf[i] by {
            assert(queue[queue.len() - 1].row != i / width);
            assert(!(r * width <= i < (r + 1) * width)) by (nonlinear_arith)
                requires
                    r != i / width,
                    0 < width,
                    0 <= i,
                    0 <= r,
            ;
            assert forall|k: int| 0 <= k < front.len() implies (#[trigger] front[k]).row != i
                / width by {
                assert(front[k] == queue[k]);
            }
        }
    }
}

/// Flushing in between changes nothing: writing one part of the queue
/// and then the rest leaves the buffer as writing all of it at once does.
pub proof fn lemma_flush_in_parts(
    buf: Seq<u32>,
    width: int,
    first: Seq<QueuedRow>,
    rest: Seq<QueuedRow>,
)
    ensures
        with_rows(with_rows(buf, width, first), width, rest) == with_rows(
            buf,
            width,
            first + rest,
        ),
    decreases rest.len(),
{
    if rest.len() == 0 {
        assert(first + rest == first);
    } else {
        lemma_flush_in_parts(buf, width, first, rest.drop_last());
        assert((first + rest).drop_last() == first + rest.drop_last());
        assert((first + rest).last() == rest.last());
    }
}

} // verus!
