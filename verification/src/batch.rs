//! Applying several attributes as one edit: font descriptors go first, so
//! that attributes which name one of a descriptor's parts are applied after
//! it.

use crate::attribute::Attribute;
use crate::overlay::{AttributeSpans, OverlayView};
use crate::span::{ByteRange, SpanError};
use vstd::prelude::*;

verus! {

/// One entry of a batch: an attribute and the range it is applied to.
pub type Edit = (ByteRange, Attribute);

/// The entry is applied in the first round.
pub open spec fn is_early(e: Edit) -> bool {
    e.1.rank() == 0
}

/// The batch in the order in which it is applied: ascending by rank,
/// entries of equal rank in the order in which they were given.
pub open spec fn prioritized(batch: Seq<Edit>) -> Seq<Edit> {
    batch.filter(|e: Edit| is_early(e)) + batch.filter(|e: Edit| !is_early(e))
}

impl OverlayView {
    /// The overlay after the entries of `edits` were added one after the
    /// other.
    pub open spec fn added_all(self, edits: Seq<Edit>) -> OverlayView
        decreases edits.len(),
    {
        if edits.len() == 0 {
            self
        } else {
            self.added_all(edits.drop_last()).added(edits.last().0, edits.last().1)
        }
    }
}

/// Orders a batch for application. The sort is stable.
pub fn prioritize(batch: &Vec<Edit>) -> (out: Vec<Edit>)
    ensures
        out@ == prioritized(batch@),
        forall|j: int| 0 <= j < out@.len() ==> batch@.contains(#[trigger] out@[j]),
{
    let n: usize = batch.len();
    let mut out: Vec<Edit> = Vec::new();
    let mut i: usize = 0;
    while i < n
        invariant
            i <= n,
            n == batch@.len(),
            out@ == batch@.take(i as int).filter(|e: Edit| is_early(e)),
            forall|j: int| 0 <= j < out@.len() ==> batch@.contains(#[trigger] out@[j]),
        decreases n - i,
    {
        let e = batch[i];
        proof {
            reveal(Seq::filter);
            assert(batch@.take(i + 1).drop_last() == batch@.take(i as int));
        }
        if e.1.sort_order() == 0 {
            out.push(e);
        }
        i += 1;
    }
    let ghost first = out@;
    proof {
        assert(batch@.take(n as int) == batch@);
    }
    i = 0;
    while i < n
        invariant
            i <= n,
            n == batch@.len(),
            out@ == first + batch@.take(i as int).filter(|e: Edit| !is_early(e)),
            forall|j: int| 0 <= j < out@.len() ==> batch@.contains(#[trigger] out@[j]),
        decreases n - i,
    {
        let e = batch[i];
        proof {
            reveal(Seq::filter);
            assert(batch@.take(i + 1).drop_last() == batch@.take(i as int));
        }
        if e.1.sort_order() != 0 {
            out.push(e);
        }
        i += 1;
    }
    proof {
        assert(batch@.take(n as int) == batch@);
    }
    out
}

impl AttributeSpans {
    /// Applies a batch as one edit, in the order of [`prioritized`]. If any
    /// range of the batch has its start behind its end, the whole batch is
    /// rejected and nothing changes.
    pub fn add_batch(&mut self, batch: &Vec<Edit>) -> (r: Result<(), SpanError>)
        requires
            old(self).wf(),
        ensures
            final(self).wf(),
            r is Err <==> exists|i: int|
                0 <= i < batch@.len() && (#[trigger] batch@[i]).0.start > batch@[i].0.end,
            r is Err ==> r == Err::<(), SpanError>(SpanError::InvalidRange) && final(self)@ == old(
                self,
            )@,
            r is Ok ==> final(self)@ == old(self)@.added_all(prioritized(batch@)),
    {
        let ghost start = self@;
        let n: usize = batch.len();
        let mut i: usize = 0;
        while i < n
            invariant
                i <= n,
                n == batch@.len(),
                self.wf(),
                self@ == start,
                forall|j: int| 0 <= j < i ==> (#[trigger] batch@[j]).0.start <= batch@[j].0.end,
            decreases n - i,
        {
            if batch[i].0.start > batch[i].0.end {
                return Err(SpanError::InvalidRange);
            }
            i += 1;
        }
        let sorted = prioritize(batch);
        let m: usize = sorted.len();
        i = 0;
        while i < m
            invariant
                i <= m,
                m == sorted@.len(),
                self.wf(),
                self@ == start.added_all(sorted@.take(i as int)),
                forall|j: int| 0 <= j < m ==> batch@.contains(#[trigger] sorted@[j]),
                forall|j: int|
                    0 <= j < batch@.len() ==> (#[trigger] batch@[j]).0.start <= batch@[j].0.end,
            decreases m - i,
        {
            let e = sorted[i];
            proof {
                assert(batch@.contains(sorted@[i as int]));
                assert(sorted@.take(i + 1).drop_last() == sorted@.take(i as int));
            }
            let _ = self.add(e.0, e.1);
            i += 1;
        }
        proof {
            assert(sorted@.take(m as int) == sorted@);
        }
        Ok(())
    }
}

} // verus!
