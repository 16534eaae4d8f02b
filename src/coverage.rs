use vstd::prelude::*;
use vstd::set_lib::{lemma_int_range, lemma_subset_equality, set_int_range};

verus! {

/// The number of entries that are still `false`.
pub open spec fn count_unwritten(written: Seq<bool>) -> nat
    decreases written.len(),
{
    if written.len() == 0 {
        0
    } else {
        count_unwritten(written.drop_last()) + if written.last() {
            0nat
        } else {
            1nat
        }
    }
}

proof fn lemma_count_all_false(n: nat)
    ensures
        count_unwritten(Seq::new(n, |k: int| false)) == n,
    decreases n,
{
    if n > 0 {
        assert(Seq::new(n, |k: int| false).drop_last() =~= Seq::new((n - 1) as nat, |k: int| false));
        lemma_count_all_false((n - 1) as nat);
    }
}

proof fn lemma_count_mark(written: Seq<bool>, i: int)
    requires
        0 <= i < written.len(),
        !written[i],
    ensures
        count_unwritten(written.update(i, true)) + 1 == count_unwritten(written),
    decreases written.len(),
{
    let updated = written.update(i, true);
    if i == written.len() - 1 {
        assert(updated.drop_last() =~= written.drop_last());
    } else {
        assert(updated.drop_last() =~= written.drop_last().update(i, true));
        lemma_count_mark(written.drop_last(), i);
    }
}

proof fn lemma_count_zero(written: Seq<bool>)
    ensures
        count_unwritten(written) == 0 <==> forall|k: int| 0 <= k < written.len() ==> written[k],
    decreases written.len(),
{
    if written.len() > 0 {
        lemma_count_zero(written.drop_last());
        if count_unwritten(written) == 0 {
            assert forall|k: int| 0 <= k < written.len() implies written[k] by {
                if k < written.len() - 1 {
                    assert(written.drop_last()[k] == written[k]);
                }
            }
        }
        if forall|k: int| 0 <= k < written.len() ==> written[k] {
            assert forall|k: int| 0 <= k < written.drop_last().len() implies written.drop_last()[k] by {
                assert(written.drop_last()[k] == written[k]);
            }
        }
    }
}

/// Why a pixel result was turned away.
#[derive(Debug, Clone, Copy, PartialEq, Eq, Structural)]
pub enum CoverageError {
    /// The pixel lies outside the image.
    OutOfRange,
    /// The pixel already has its color.
    AlreadyWritten,
}

/// Which pixels of a `width` × `height` image have received their color, so
/// that the collector writes each pixel exactly once and knows when the
/// render is complete.
pub struct PixelCoverage {
    width: usize,
    height: usize,
    written: Vec<bool>,
    remaining: usize,
}

impl View for PixelCoverage {
    type V = Seq<bool>;

    /// For each pixel, row by row, whether it has its color.
    closed spec fn view(&self) -> Seq<bool> {
        self.written@
    }
}

impl PixelCoverage {
    /// One flag for each pixel, and a count that agrees with the flags.
    pub open spec fn wf(&self) -> bool {
        &&& self@.len() == self.spec_width() * self.spec_height()
        &&& self.count_agrees()
    }

    pub closed spec fn count_agrees(&self) -> bool {
        self.remaining == count_unwritten(self.written@)
    }

    pub closed spec fn spec_width(&self) -> nat {
        self.width as nat
    }

    pub closed spec fn spec_height(&self) -> nat {
        self.height as nat
    }

    /// No pixel written yet.
    pub fn new(width: usize, height: usize) -> (r: PixelCoverage)
        requires
            width * height <= usize::MAX,
        ensures
            r.wf(),
            r.spec_width() == width,
            r.spec_height() == height,
            r@ == nothing_written((width * height) as nat),
    {
        let n: usize = width * height;
        let mut written: Vec<bool> = Vec::new();
        let mut i: usize = 0;
        while i < n
            invariant
                i <= n,
                written@ == Seq::new(i as nat, |k: int| false),
            decreases n - i,
        {
            written.push(false);
            assert(written@ =~= Seq::new((i + 1) as nat, |k: int| false));
            i = i + 1;
        }
        proof {
            lemma_count_all_false(n as nat);
        }
        PixelCoverage { width, height, written, remaining: n }
    }

    /// Records that pixel `(x, y)` got its color: refused where the pixel is
    /// outside the image or already has one.
    pub fn record(&mut self, x: usize, y: usize) -> (r: Result<(), CoverageError>)
        requires
            old(self).wf(),
        ensures
            final(self).wf(),
            final(self).spec_width() == old(self).spec_width(),
            final(self).spec_height() == old(self).spec_height(),
            (x >= old(self).spec_width() || y >= old(self).spec_height()) ==> r == Err::<
                (),
                CoverageError,
            >(CoverageError::OutOfRange) && final(self)@ == old(self)@,
            (x < old(self).spec_width() && y < old(self).spec_height()) ==> {
                let k = y * old(self).spec_width() + x;
                &&& old(self)@[k] ==> r == Err::<(), CoverageError>(CoverageError::AlreadyWritten)
                    && final(self)@ == old(self)@
                &&& !old(self)@[k] ==> r == Ok::<(), CoverageError>(()) && final(self)@ == old(
                    self,
                )@.update(k, true)
            },
    {
        if x >= self.width || y >= self.height {
            return Err(CoverageError::OutOfRange);
        }
        proof {
            assert(self.written.len() == self.width * self.height);
            assert(y * self.width + x < self.width * self.height) by (nonlinear_arith)
                requires
                    x < self.width,
                    y < self.height,
            ;
        }
        let k = y * self.width + x;
        if self.written[k] {
            return Err(CoverageError::AlreadyWritten);
        }
        proof {
            lemma_count_mark(self.written@, k as int);
        }
        self.written.set(k, true);
        self.remaining = self.remaining - 1;
        Ok(())
    }

    /// Whether every pixel has its color.
    pub fn is_complete(&self) -> (r: bool)
        requires
            self.wf(),
        ensures
            r == forall|k: int| 0 <= k < self@.len() ==> self@[k],
    {
        proof {
            lemma_count_zero(self.written@);
            assert(self@ == self.written@);
        }
        self.remaining == 0
    }

    /// How many pixels still lack their color.
    pub fn remaining(&self) -> (r: usize)
        requires
            self.wf(),
        ensures
            r == count_unwritten(self@),
    {
        self.remaining
    }
}

/// The coverage of an `n`-pixel image before any result arrives.
pub open spec fn nothing_written(n: nat) -> Seq<bool> {
    Seq::new(n, |i: int| false)
}

/// The coverage after `record` accepts the pixels at row-major positions
/// `positions`, in their order.
pub open spec fn after_recording(written: Seq<bool>, positions: Seq<int>) -> Seq<bool>
    decreases positions.len(),
{
    if positions.len() == 0 {
        written
    } else {
        after_recording(written, positions.drop_last()).update(positions.last(), true)
    }
}

proof fn lemma_after_recording(written: Seq<bool>, positions: Seq<int>)
    requires
        forall|k: int| 0 <= k < positions.len() ==> 0 <= #[trigger] positions[k] < written.len(),
    ensures
        after_recording(written, positions).len() == written.len(),
        forall|j: int|
            0 <= j < written.len() ==> #[trigger] after_recording(written, positions)[j] == (
            written[j] || positions.contains(j)),
    decreases positions.len(),
{
    if positions.len() > 0 {
        let prev = positions.drop_last();
        assert forall|k: int| 0 <= k < prev.len() implies 0 <= #[trigger] prev[k] < written.len() by {
            assert(prev[k] == positions[k]);
        }
        lemma_after_recording(written, prev);
        assert forall|j: int| 0 <= j < written.len() implies #[trigger] after_recording(
            written,
            positions,
        )[j] == (written[j] || positions.contains(j)) by {
            if prev.contains(j) {
                let k = choose|k: int| 0 <= k < prev.len() && prev[k] == j;
                assert(positions[k] == j);
            }
            if positions.contains(j) && j != positions.last() {
                let k = choose|k: int| 0 <= k < positions.len() && positions[k] == j;
                assert(prev[k] == j);
            }
        }
    }
}

/// Results for `n` different pixels of an `n`-pixel image complete its
/// coverage, in whatever order they arrive.
pub proof fn lemma_distinct_results_complete(n: nat, positions: Seq<int>)
    requires
        positions.len() == n,
        positions.no_duplicates(),
        forall|k: int| 0 <= k < positions.len() ==> 0 <= #[trigger] positions[k] < n,
    ensures
        forall|j: int|
            0 <= j < n ==> #[trigger] after_recording(nothing_written(n), positions)[j],
{
    let start = nothing_written(n);
    lemma_after_recording(start, positions);
    let seen = positions.to_set();
    let all = set_int_range(0, n as int);
    positions.unique_seq_to_set();
    lemma_int_range(0, n as int);
    assert(seen.subset_of(all)) by {
        assert forall|j: int| seen.contains(j) implies all.contains(j) by {
            let k = choose|k: int| 0 <= k < positions.len() && positions[k] == j;
        }
    }
    lemma_subset_equality(seen, all);
    assert forall|j: int| 0 <= j < n implies #[trigger] after_recording(start, positions)[j] by {
        assert(all.contains(j));
        assert(seen.contains(j));
    }
}

} // verus!
