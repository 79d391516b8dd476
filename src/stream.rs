//! The decoder's sampling: which decoded frames go down the pipeline, and
//! under which sequence number.
use crate::sequencer::on_stride;
use vstd::prelude::*;

verus! {

/// Counts decoded frames and picks every `stride`-th one, starting with
/// the first; a picked frame's sequence number is its decode index.
pub struct FrameSampler {
    frame_index: i64,
    stride: i64,
}

impl FrameSampler {
    #[verifier::type_invariant]
    spec fn inv(&self) -> bool {
        self.stride > 0 && self.frame_index >= 0
    }

    /// The index of the next decoded frame.
    pub closed spec fn index(&self) -> int {
        self.frame_index as int
    }

    /// The sampling stride.
    pub closed spec fn stride_spec(&self) -> int {
        self.stride as int
    }

    /// A sampler at the first decoded frame.
    pub fn new(stride: i64) -> (r: FrameSampler)
        requires
            stride > 0,
        ensures
            r.index() == 0,
            r.stride_spec() == stride,
    {
        FrameSampler { frame_index: 0, stride }
    }

    /// The index of the next decoded frame.
    pub fn frame_index(&self) -> (r: i64)
        ensures
            r == self.index(),
    {
        self.frame_index
    }

    /// Counts one decoded frame: its sequence number if it is to be
    /// processed, `None` if it is skipped.
    pub fn on_decoded(&mut self) -> (r: Option<i64>)
        requires
            old(self).index() < i64::MAX,
        ensures
            final(self).index() == old(self).index() + 1,
            final(self).stride_spec() == old(self).stride_spec(),
            r == if old(self).index() % old(self).stride_spec() == 0 {
                Some(old(self).index() as i64)
            } else {
                None::<i64>
            },
    {
        proof {
            use_type_invariant(&*self);
        }
        let i = self.frame_index;
        let picked = if i % self.stride == 0 {
            Some(i)
        } else {
            None
        };
        self.frame_index = i + 1;
        picked
    }
}

/// Every sequence number the sampler picks lies on the reorder buffer's
/// stride from 0: with one stride shared by both, no picked frame is ever
/// refused as off-stride.
pub proof fn lemma_picked_on_stride(index: int, stride: int)
    requires
        stride > 0,
        index >= 0,
        index % stride == 0,
    ensures
        on_stride(0, stride, index),
{
}

} // verus!
