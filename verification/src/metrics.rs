//! Counters of how often each square was written and read.

use vstd::prelude::*;

use crate::PUZZLE_DIGITS;

verus! {

/// The sum of a sequence of counters.
pub open spec fn total(counts: Seq<u64>) -> nat
    decreases counts.len(),
{
    if counts.len() == 0 {
        0
    } else {
        total(counts.drop_last()) + counts.last() as nat
    }
}

/// A counter after one more event. A counter that has reached the largest
/// `u64` stays there.
pub open spec fn bump(count: u64) -> u64 {
    if count < u64::MAX {
        (count + 1) as u64
    } else {
        count
    }
}

/// The counters after one more event at square `idx`.
pub open spec fn counted(counts: Seq<u64>, idx: int) -> Seq<u64> {
    if 0 <= idx < counts.len() {
        counts.update(idx, bump(counts[idx]))
    } else {
        counts
    }
}

/// The counters after `times` more events at square `idx`.
pub open spec fn bumped(counts: Seq<u64>, idx: int, times: int) -> Seq<u64> {
    if 0 <= idx < counts.len() {
        counts.update(
            idx,
            if counts[idx] + times <= u64::MAX {
                (counts[idx] + times) as u64
            } else {
                u64::MAX
            },
        )
    } else {
        counts
    }
}

/// How often each square was written; no counters where nothing is counted.
pub open spec fn edits_of(metrics: Option<Metrics>) -> Seq<u64> {
    match metrics {
        Some(metrics) => metrics.edits(),
        None => Seq::empty(),
    }
}

/// How often each square was read; no counters where nothing is counted.
pub open spec fn views_of(metrics: Option<Metrics>) -> Seq<u64> {
    match metrics {
        Some(metrics) => metrics.views(),
        None => Seq::empty(),
    }
}

/// One more event after `times` events makes `times + 1` events, and no
/// event leaves the counters as they are.
pub proof fn lemma_bumped(counts: Seq<u64>, idx: int, times: int)
    requires
        times >= 0,
    ensures
        bumped(counts, idx, 0) == counts,
        counted(bumped(counts, idx, times), idx) == bumped(counts, idx, times + 1),
{
    assert(bumped(counts, idx, 0) =~= counts);
    assert(counted(bumped(counts, idx, times), idx) =~= bumped(counts, idx, times + 1));
}

/// A changed counter changes the sum by as much.
pub proof fn lemma_total_update(counts: Seq<u64>, idx: int, value: u64)
    requires
        0 <= idx < counts.len(),
    ensures
        total(counts.update(idx, value)) == total(counts) - counts[idx] + value,
    decreases counts.len(),
{
    let changed = counts.update(idx, value);
    if idx == counts.len() - 1 {
        assert(changed.drop_last() =~= counts.drop_last());
    } else {
        assert(changed.drop_last() =~= counts.drop_last().update(idx, value));
        lemma_total_update(counts.drop_last(), idx, value);
    }
}

/// `times` events add at most `times` to the sum of the counters.
pub proof fn lemma_total_bumped(counts: Seq<u64>, idx: int, times: int)
    requires
        times >= 0,
    ensures
        total(counts) <= total(bumped(counts, idx, times)) <= total(counts) + times,
{
    if 0 <= idx < counts.len() {
        lemma_total_update(counts, idx, bumped(counts, idx, times)[idx]);
    }
}

#[derive(Clone, Copy)]
pub struct Metrics {
    square_edits: [u64; PUZZLE_DIGITS],
    square_views: [u64; PUZZLE_DIGITS],
}

impl Metrics {
    /// How often each square was written.
    pub closed spec fn edits(&self) -> Seq<u64> {
        self.square_edits@
    }

    /// How often each square was read.
    pub closed spec fn views(&self) -> Seq<u64> {
        self.square_views@
    }

    /// Both sequences have one counter for each square.
    pub proof fn lemma_lengths(&self)
        ensures
            self.edits().len() == PUZZLE_DIGITS,
            self.views().len() == PUZZLE_DIGITS,
    {
    }

    pub fn record_edit(&mut self, idx: usize)
        requires
            idx < PUZZLE_DIGITS,
        ensures
            final(self).edits() == counted(old(self).edits(), idx as int),
            final(self).views() == old(self).views(),
    {
        self.square_edits[idx] = self.square_edits[idx].saturating_add(1);
    }

    pub fn record_view(&mut self, idx: usize)
        requires
            idx < PUZZLE_DIGITS,
        ensures
            final(self).views() == counted(old(self).views(), idx as int),
            final(self).edits() == old(self).edits(),
    {
        self.square_views[idx] = self.square_views[idx].saturating_add(1);
    }

    /// The number of writes over all squares, or the largest `u64` where the
    /// sum is beyond it.
    pub fn total_edits(&self) -> (sum: u64)
        ensures
            sum as nat == if total(self.edits()) <= u64::MAX {
                total(self.edits())
            } else {
                u64::MAX as nat
            },
    {
        saturating_total(&self.square_edits)
    }

    /// The number of reads over all squares, or the largest `u64` where the
    /// sum is beyond it.
    pub fn total_views(&self) -> (sum: u64)
        ensures
            sum as nat == if total(self.views()) <= u64::MAX {
                total(self.views())
            } else {
                u64::MAX as nat
            },
    {
        saturating_total(&self.square_views)
    }
}

impl Default for Metrics {
    fn default() -> (metrics: Self)
        ensures
            forall|i: int| 0 <= i < PUZZLE_DIGITS ==> metrics.edits()[i] == 0,
            forall|i: int| 0 <= i < PUZZLE_DIGITS ==> metrics.views()[i] == 0,
    {
        Self { square_edits: [0; PUZZLE_DIGITS], square_views: [0; PUZZLE_DIGITS] }
    }
}

fn saturating_total(counts: &[u64; PUZZLE_DIGITS]) -> (sum: u64)
    ensures
        sum as nat == if total(counts@) <= u64::MAX {
            total(counts@)
        } else {
            u64::MAX as nat
        },
{
    let mut sum: u64 = 0;
    let mut i: usize = 0;
    while i < PUZZLE_DIGITS
        invariant
            i <= PUZZLE_DIGITS,
            sum as nat == if total(counts@.take(i as int)) <= u64::MAX {
                total(counts@.take(i as int))
            } else {
                u64::MAX as nat
            },
        decreases PUZZLE_DIGITS - i,
    {
        proof {
            assert(counts@.take(i + 1).drop_last() =~= counts@.take(i as int));
        }
        sum = sum.saturating_add(counts[i]);
        i += 1;
    }
    proof {
        assert(counts@.take(PUZZLE_DIGITS as int) =~= counts@);
    }
    sum
}

} // verus!
