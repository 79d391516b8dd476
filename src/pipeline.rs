//! The decisions of the pipeline's workers and router. The queues, tasks and
//! locks that carry them out live outside the library.
use crate::img::clock::now_millis;
use crate::img::frame::Frame;
use crate::sequencer::{after_push, refusal, SequenceError, Sequencer};
use vstd::prelude::*;

verus! {

/// What a worker hands on for one frame.
pub enum Completion<R, W> {
    /// The transform chain ran; here is the transformed frame.
    Processed(Frame<R, W>),
    /// A transform failed on the frame of this sequence number: the frame
    /// is dropped, and its number is only marked as done.
    Failed(i64),
}

/// What a worker hands on once the transform chain has run on frame `num`:
/// a failure is contained to that one frame.
pub fn worker_completion<R, W, E>(num: i64, outcome: Result<Frame<R, W>, E>) -> (r: Completion<R, W>)
    ensures
        match outcome {
            Ok(f) => r == Completion::Processed(f),
            Err(_) => r == Completion::<R, W>::Failed(num),
        },
{
    match outcome {
        Ok(f) => Completion::Processed(f),
        Err(_) => Completion::Failed(num),
    }
}

/// The reorder-buffer entry of a completion handled at `now`: a processed
/// frame, stamped completed, under its own number; a failure, as a gap to
/// close.
pub open spec fn completion_entry<R, W>(c: Completion<R, W>, now: i64) -> (int, Option<Frame<R, W>>) {
    match c {
        Completion::Processed(f) => (f.num as int, Some(Frame { end_date: Some(now), ..f })),
        Completion::Failed(n) => (n as int, None),
    }
}

/// The router's state: the reorder buffer that completed frames go
/// through, and whether released frames go on to a preview.
pub struct Router<R, W> {
    pub sequencer: Sequencer<Frame<R, W>>,
    pub show_frames: bool,
}

impl<R, W> Router<R, W> {
    /// A router whose buffer expects `first`, then every `step`-th number.
    pub fn new(first: i64, step: i64, show_frames: bool) -> (r: Router<R, W>)
        requires
            step > 0,
        ensures
            r.sequencer.pending() == Map::<int, Option<Frame<R, W>>>::empty(),
            r.sequencer.next() == first,
            r.sequencer.stride() == step,
            r.show_frames == show_frames,
    {
        Router { sequencer: Sequencer::new(first, step), show_frames }
    }

    /// Handles a completion at time `now`: a processed frame is stamped
    /// and goes into the reorder buffer under its sequence number, a
    /// failure closes its gap; the frames that are now in order come back.
    pub fn complete_at(&mut self, c: Completion<R, W>, now: i64) -> (r: Result<
        Vec<Frame<R, W>>,
        SequenceError,
    >)
        ensures
            final(self).show_frames == old(self).show_frames,
            final(self).sequencer.stride() == old(self).sequencer.stride(),
            ({
                let (key, e) = completion_entry(c, now);
                let seq = old(self).sequencer;
                match r {
                    Ok(out) => {
                        &&& refusal(seq.pending(), seq.next(), seq.stride(), key).is_none()
                        &&& (out@, final(self).sequencer.pending(), final(self).sequencer.next())
                            == after_push(seq.pending(), seq.next(), seq.stride(), key, e)
                    },
                    Err(err) => {
                        &&& refusal(seq.pending(), seq.next(), seq.stride(), key) == Some(err)
                        &&& final(self).sequencer == seq
                    },
                }
            }),
    {
        match c {
            Completion::Processed(f) => {
                let mut f = f;
                f.complete(now);
                let key = f.num;
                self.sequencer.push_and_drain(key, f)
            },
            Completion::Failed(n) => self.sequencer.skip_and_drain(n),
        }
    }

    /// Handles a completion as `complete_at` does, stamped with the current
    /// time.
    pub fn complete(&mut self, c: Completion<R, W>) -> (r: Result<Vec<Frame<R, W>>, SequenceError>)
        ensures
            final(self).show_frames == old(self).show_frames,
            final(self).sequencer.stride() == old(self).sequencer.stride(),
            exists|now: i64|
                {
                    let (key, e) = #[trigger] completion_entry(c, now);
                    let seq = old(self).sequencer;
                    match r {
                        Ok(out) => {
                            &&& refusal(seq.pending(), seq.next(), seq.stride(), key).is_none()
                            &&& (out@, final(self).sequencer.pending(), final(self).sequencer.next())
                                == after_push(
                                seq.pending(),
                                seq.next(),
                                seq.stride(),
                                key,
                                e,
                            )
                        },
                        Err(err) => {
                            &&& refusal(seq.pending(), seq.next(), seq.stride(), key) == Some(err)
                            &&& final(self).sequencer == seq
                        },
                    }
                },
    {
        let now = now_millis();
        self.complete_at(c, now)
    }
}

} // verus!
