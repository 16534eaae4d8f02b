use vstd::prelude::*;
use vstd::arithmetic::div_mod::{lemma_fundamental_div_mod, lemma_mod_bound};

verus! {

/// A message on the work queue: a pixel to render, or the marker that tells
/// one worker that no more work will come.
#[derive(Debug, Clone, Copy, PartialEq, Eq, Structural)]
pub enum WorkItem {
    Pixel { x_pixel: usize, y_pixel: usize },
    Done,
}

/// The position of pixel `(x, y)` in row-major order.
pub open spec fn row_major(width: nat, x: nat, y: nat) -> nat {
    y * width + x
}

/// What the coordinator sends, in order: every pixel of the grid row by row,
/// then one `Done` for each worker.
pub open spec fn work_sequence_ok(items: Seq<WorkItem>, width: nat, height: nat, workers: nat) -> bool {
    &&& items.len() == width * height + workers
    &&& forall|x: nat, y: nat|
        x < width && y < height ==> #[trigger] items[row_major(width, x, y) as int]
            == (WorkItem::Pixel { x_pixel: x as usize, y_pixel: y as usize })
    &&& forall|k: int| width * height <= k < items.len() ==> #[trigger] items[k] == WorkItem::Done
}

proof fn lemma_row_bounds(width: nat, x: nat, y: nat, height: nat)
    requires
        x < width,
        y < height,
    ensures
        y * width <= row_major(width, x, y) < (y + 1) * width,
        (y + 1) * width <= height * width,
{
    assert((y + 1) * width == y * width + width) by (nonlinear_arith);
    assert((y + 1) * width <= height * width) by (nonlinear_arith)
        requires
            y + 1 <= height,
    ;
}

/// The work queue's messages for a `width` × `height` image shared among
/// `workers` workers.
pub fn work_items(width: usize, height: usize, workers: usize) -> (r: Vec<WorkItem>)
    requires
        width * height + workers <= usize::MAX,
    ensures
        work_sequence_ok(r@, width as nat, height as nat, workers as nat),
{
    let mut items: Vec<WorkItem> = Vec::new();
    let mut y: usize = 0;
    while y < height
        invariant
            y <= height,
            width * height + workers <= usize::MAX,
            items.len() == y * width,
            forall|px: nat, py: nat|
                px < width && py < y ==> #[trigger] items@[row_major(width as nat, px, py) as int]
                    == (WorkItem::Pixel { x_pixel: px as usize, y_pixel: py as usize }),
        decreases height - y,
    {
        assert(y * width + width <= width * height) by (nonlinear_arith)
            requires
                y < height,
        ;
        let mut x: usize = 0;
        while x < width
            invariant
                x <= width,
                y < height,
                y * width + width <= width * height,
                width * height + workers <= usize::MAX,
                items.len() == y * width + x,
                forall|px: nat, py: nat|
                    px < width && py < y ==> #[trigger] items@[row_major(width as nat, px, py) as int]
                        == (WorkItem::Pixel { x_pixel: px as usize, y_pixel: py as usize }),
                forall|px: nat|
                    px < x ==> #[trigger] items@[row_major(width as nat, px, y as nat) as int]
                        == (WorkItem::Pixel { x_pixel: px as usize, y_pixel: y }),
            decreases width - x,
        {
            proof {
                assert forall|px: nat, py: nat| px < width && py < y implies row_major(
                    width as nat,
                    px,
                    py,
                ) < items.len() by {
                    lemma_row_bounds(width as nat, px, py, y as nat);
                }
            }
            items.push(WorkItem::Pixel { x_pixel: x, y_pixel: y });
            x = x + 1;
        }
        assert((y + 1) * width == y * width + width) by (nonlinear_arith);
        y = y + 1;
    }
    assert(height * width == width * height) by (nonlinear_arith);
    let ghost pixels = items@;
    let mut n: usize = 0;
    while n < workers
        invariant
            n <= workers,
            width * height + workers <= usize::MAX,
            items.len() == width * height + n,
            items@.subrange(0, width * height) == pixels,
            pixels.len() == width * height,
            forall|k: int| width * height <= k < items.len() ==> #[trigger] items@[k] == WorkItem::Done,
        decreases workers - n,
    {
        items.push(WorkItem::Done);
        assert(items@.subrange(0, width * height) =~= pixels);
        n = n + 1;
    }
    proof {
        assert forall|x: nat, y: nat| x < width && y < height implies #[trigger] items@[row_major(
            width as nat,
            x,
            y,
        ) as int] == (WorkItem::Pixel { x_pixel: x as usize, y_pixel: y as usize }) by {
            lemma_row_bounds(width as nat, x, y, height as nat);
            assert(items@.subrange(0, width * height)[row_major(width as nat, x, y) as int]
                == items@[row_major(width as nat, x, y) as int]);
        }
    }
    items
}

/// The coordinator's queue names every pixel of the image exactly once, names
/// no pixel outside it, and ends with exactly one `Done` for each worker.
pub proof fn lemma_each_pixel_queued_once(items: Seq<WorkItem>, width: nat, height: nat, workers: nat)
    requires
        work_sequence_ok(items, width, height, workers),
        width * height + workers <= usize::MAX,
    ensures
        forall|x: nat, y: nat|
            x < width && y < height ==> row_major(width, x, y) < width * height && #[trigger] items[row_major(
                width,
                x,
                y,
            ) as int] == (WorkItem::Pixel { x_pixel: x as usize, y_pixel: y as usize }),
        forall|k: int|
            0 <= k < items.len() && #[trigger] items[k] is Pixel ==> items[k]->x_pixel < width
                && items[k]->y_pixel < height,
        forall|k1: int, k2: int|
            0 <= k1 < items.len() && 0 <= k2 < items.len() && #[trigger] items[k1] is Pixel
                && #[trigger] items[k2] == items[k1] ==> k1 == k2,
        forall|k: int| 0 <= k < items.len() && #[trigger] items[k] is Done ==> width * height <= k,
{
    // Each position before the markers is the row-major position of its pixel.
    assert forall|k: int| 0 <= k < width * height implies {
        let x = (k % width as int) as nat;
        let y = (k / width as int) as nat;
        &&& x < width && y < height
        &&& row_major(width, x, y) == k
        &&& #[trigger] items[k] == (WorkItem::Pixel { x_pixel: x as usize, y_pixel: y as usize })
    } by {
        assert(width > 0) by (nonlinear_arith)
            requires
                0 <= k < width * height,
        ;
        lemma_fundamental_div_mod(k, width as int);
        lemma_mod_bound(k, width as int);
        let x = (k % width as int) as nat;
        let y = (k / width as int) as nat;
        assert(k / width as int >= 0) by (nonlinear_arith)
            requires
                k >= 0,
                width > 0,
        ;
        assert(y < height) by (nonlinear_arith)
            requires
                k == width * y + x,
                k < width * height,
                x >= 0,
        ;
        assert(row_major(width, x, y) == k) by (nonlinear_arith)
            requires
                k == width * y + x,
        ;
    }
    assert forall|x: nat, y: nat| x < width && y < height implies row_major(width, x, y) < width
        * height by {
        lemma_row_bounds(width, x, y, height);
        assert(height * width == width * height) by (nonlinear_arith);
    }
    assert forall|k1: int, k2: int|
        0 <= k1 < items.len() && 0 <= k2 < items.len() && #[trigger] items[k1] is Pixel
            && #[trigger] items[k2] == items[k1] implies k1 == k2 by {
        assert(k1 < width * height);
        assert(k2 < width * height);
        assert(width <= usize::MAX) by (nonlinear_arith)
            requires
                0 <= k1 < width * height,
                width * height <= usize::MAX,
        ;
        assert(height <= usize::MAX) by (nonlinear_arith)
            requires
                0 <= k1 < width * height,
                width * height <= usize::MAX,
        ;
    }
}

/// Relies on num_cpus::get: the number of CPUs available to this process,
/// which is always at least 1.
#[verifier::external_body]
pub(crate) fn available_parallelism() -> (r: usize)
    ensures
        r >= 1,
{
    num_cpus::get()
}

/// How many workers a render uses: one for each available CPU.
pub fn worker_count() -> (r: usize)
    ensures
        r >= 1,
{
    available_parallelism()
}

} // verus!
