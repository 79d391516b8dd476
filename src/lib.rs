//! Ordered, concurrent processing of decoded video frames: regions of
//! interest, the frame record, the reorder buffer that restores stream order,
//! and the decisions of the decoder, workers and router.
use vstd::prelude::*;

pub mod games;
pub mod img;
pub mod pipeline;
pub mod roi;
pub mod sequencer;
pub mod stream;

verus! {

/// Threads for image processing when none are asked for: half of the
/// hardware's parallelism is taken instead.
pub const DEFAULT_OPENCV_THREADS: i32 = 0;

/// Decoder threads.
pub const DEFAULT_LIBAV_THREADS: i32 = 1;

/// Every how many decoded frames one is processed.
pub const DEFAULT_PROCESS_FRAME_RATE: i64 = 2;

/// The capacity of each queue between two stages.
pub const QUEUE_CAPACITY: usize = 60;

/// What the stream processor runs with.
#[derive(Clone, Debug)]
pub struct Config {
    /// The URL of the stream.
    pub url: String,
    /// Show processed frames in a window.
    pub show_frames: bool,
    pub num_opencv_threads: i32,
    pub num_libav_threads: i32,
    pub process_frame_rate: i64,
}

/// `n` halved, as a count: nothing for a count that is not positive.
pub open spec fn half_count(n: int) -> int {
    if n > 0 {
        n / 2
    } else {
        0
    }
}

impl Config {
    /// A configuration for `url` with every other setting at its default.
    pub fn new(url: String) -> (r: Config)
        ensures
            r.url == url,
            !r.show_frames,
            r.num_opencv_threads == DEFAULT_OPENCV_THREADS,
            r.num_libav_threads == DEFAULT_LIBAV_THREADS,
            r.process_frame_rate == DEFAULT_PROCESS_FRAME_RATE,
    {
        Config {
            url,
            show_frames: false,
            num_opencv_threads: DEFAULT_OPENCV_THREADS,
            num_libav_threads: DEFAULT_LIBAV_THREADS,
            process_frame_rate: DEFAULT_PROCESS_FRAME_RATE,
        }
    }

    /// Where no thread count was asked for (0), takes half of `available`,
    /// the hardware's parallelism (saturated at `i32::MAX` first).
    pub fn resolve_threads(&mut self, available: usize)
        ensures
            final(self).num_opencv_threads == if old(self).num_opencv_threads == 0 {
                (if available <= i32::MAX { available as int } else { i32::MAX as int }) / 2
            } else {
                old(self).num_opencv_threads as int
            },
            final(self).url == old(self).url,
            final(self).show_frames == old(self).show_frames,
            final(self).num_libav_threads == old(self).num_libav_threads,
            final(self).process_frame_rate == old(self).process_frame_rate,
    {
        if self.num_opencv_threads == 0 {
            let total: i32 = if available <= i32::MAX as usize {
                available as i32
            } else {
                i32::MAX
            };
            self.num_opencv_threads = total / 2;
        }
    }

    /// The number of workers, and of threads the image library is given:
    /// half the thread count.
    pub fn worker_count(&self) -> (r: i32)
        ensures
            r == half_count(self.num_opencv_threads as int),
    {
        if self.num_opencv_threads > 0 {
            self.num_opencv_threads / 2
        } else {
            0
        }
    }

    /// The sampling stride, shared by the decoder and the reorder buffer;
    /// `None` when the rate is not positive.
    pub fn stride(&self) -> (r: Option<i64>)
        ensures
            r == if self.process_frame_rate > 0 {
                Some(self.process_frame_rate)
            } else {
                None::<i64>
            },
    {
        if self.process_frame_rate > 0 {
            Some(self.process_frame_rate)
        } else {
            None
        }
    }
}

} // verus!
