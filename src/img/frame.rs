//! The frame record that travels through the pipeline.
//!
//! The image buffers are carried, never read, by the library: `R` is the
//! type of the decoded image and `W` that of the working image that each
//! transform replaces.
use crate::img::clock::now_millis;
use crate::roi::{as_map, copy_text, Rect, RegionOfInterest, RegionOfInterestList};
use vstd::prelude::*;

verus! {

/// One decoded frame: its sequence number, its images, its timestamps (in
/// milliseconds since the Unix epoch) and the regions recognised in it.
#[derive(Clone, Debug)]
pub struct Frame<R, W> {
    pub mat: R,
    pub processed_mat: W,
    pub num: i64,
    pub text: String,
    pub start_date: i64,
    pub end_date: Option<i64>,
    pub results: RegionOfInterestList,
}

/// Frames are equal when their sequence numbers are, whatever they hold.
impl<R, W> PartialEq for Frame<R, W> {
    fn eq(&self, other: &Frame<R, W>) -> (r: bool) {
        self.num == other.num
    }
}

impl<R, W> vstd::std_specs::cmp::PartialEqSpecImpl for Frame<R, W> {
    open spec fn obeys_eq_spec() -> bool {
        true
    }

    open spec fn eq_spec(&self, other: &Frame<R, W>) -> bool {
        self.num == other.num
    }
}

impl<R, W> Eq for Frame<R, W> {

}

/// Frames are ordered by sequence number alone.
impl<R, W> PartialOrd for Frame<R, W> {
    fn partial_cmp(&self, other: &Frame<R, W>) -> (r: Option<core::cmp::Ordering>) {
        if self.num < other.num {
            Some(core::cmp::Ordering::Less)
        } else if self.num > other.num {
            Some(core::cmp::Ordering::Greater)
        } else {
            Some(core::cmp::Ordering::Equal)
        }
    }
}

impl<R, W> vstd::std_specs::cmp::PartialOrdSpecImpl for Frame<R, W> {
    open spec fn obeys_partial_cmp_spec() -> bool {
        true
    }

    open spec fn partial_cmp_spec(&self, other: &Frame<R, W>) -> Option<core::cmp::Ordering> {
        if self.num < other.num {
            Some(core::cmp::Ordering::Less)
        } else if self.num > other.num {
            Some(core::cmp::Ordering::Greater)
        } else {
            Some(core::cmp::Ordering::Equal)
        }
    }
}

/// Where the label of a highlighted region is drawn, and what it says.
#[derive(Clone, Debug)]
pub struct Label {
    pub text: String,
    pub x: i32,
    pub y: i32,
}

/// A region to outline on a preview, with its label if it has one.
#[derive(Clone, Debug)]
pub struct Highlight {
    pub rect: Rect,
    pub label: Option<Label>,
}

/// The label origin of a region: five pixels right of its right edge, on
/// its bottom edge.
pub open spec fn label_origin(r: RegionOfInterest) -> (int, int) {
    (r.x + r.width + 5, r.y + r.height)
}

/// Whether the label of `r` is drawn: it has a result, and its origin fits
/// in an `i32`.
pub open spec fn has_label(r: RegionOfInterest) -> bool {
    &&& r.result.is_some()
    &&& i32::MIN <= label_origin(r).0 <= i32::MAX
    &&& i32::MIN <= label_origin(r).1 <= i32::MAX
}

/// The highlight of one region.
pub open spec fn highlight_of(r: RegionOfInterest, h: Highlight) -> bool {
    &&& h.rect == r.rect_spec()
    &&& has_label(r) <==> h.label.is_some()
    &&& h.label matches Some(l) ==> {
        &&& l.text@ == r.result.unwrap()@
        &&& l.x == label_origin(r).0
        &&& l.y == label_origin(r).1
    }
}

/// `regions` with the result of region `i` set to `texts[i]`, each stored
/// in turn under its name.
pub open spec fn with_results(
    m: Map<Seq<char>, RegionOfInterest>,
    regions: Seq<RegionOfInterest>,
    texts: Seq<Option<String>>,
) -> Map<Seq<char>, RegionOfInterest>
    decreases regions.len(),
{
    if regions.len() == 0 || texts.len() == 0 {
        m
    } else {
        with_results(m, regions.drop_last(), texts.drop_last()).insert(
            regions.last().name@,
            RegionOfInterest { result: texts.last(), ..regions.last() },
        )
    }
}

impl<R, W> Frame<R, W> {
    /// A frame as it leaves the decoder: no text, no results, not completed.
    pub fn new(num: i64, mat: R, processed_mat: W, start_date: i64) -> (r: Frame<R, W>)
        ensures
            r.num == num,
            r.mat == mat,
            r.processed_mat == processed_mat,
            r.text@ == Seq::<char>::empty(),
            r.start_date == start_date,
            r.end_date.is_none(),
            r.results@ == Seq::<RegionOfInterest>::empty(),
    {
        Frame {
            mat,
            processed_mat,
            num,
            text: String::new(),
            start_date,
            end_date: None,
            results: crate::roi::new_region_list(),
        }
    }

    /// A frame as it leaves the decoder, stamped with the current time.
    pub fn decoded(num: i64, mat: R, processed_mat: W) -> (r: Frame<R, W>)
        ensures
            r.num == num,
            r.mat == mat,
            r.processed_mat == processed_mat,
            r.text@ == Seq::<char>::empty(),
            r.end_date.is_none(),
            r.results@ == Seq::<RegionOfInterest>::empty(),
    {
        let now = now_millis();
        Frame::new(num, mat, processed_mat, now)
    }

    /// Sets the decode timestamp.
    pub fn set_start_date(&mut self, date: i64)
        ensures
            *final(self) == (Frame { start_date: date, ..*old(self) }),
    {
        self.start_date = date;
    }

    /// Marks the frame completed at `now`.
    pub fn complete(&mut self, now: i64)
        ensures
            *final(self) == (Frame { end_date: Some(now), ..*old(self) }),
    {
        self.end_date = Some(now);
    }

    /// Marks the frame completed at the current time.
    pub fn stamp_completed(&mut self)
        ensures
            final(self).end_date.is_some(),
            *final(self) == (Frame { end_date: final(self).end_date, ..*old(self) }),
    {
        let now = now_millis();
        self.complete(now);
    }

    /// Milliseconds from decoding to completion; `None` before completion
    /// or when the difference does not fit in an `i64`.
    pub fn processing_time(&self) -> (r: Option<i64>)
        ensures
            match self.end_date {
                None => r.is_none(),
                Some(e) => if i64::MIN <= e - self.start_date <= i64::MAX {
                    r == Some((e - self.start_date) as i64)
                } else {
                    r.is_none()
                },
            },
    {
        match self.end_date {
            None => None,
            Some(e) => e.checked_sub(self.start_date),
        }
    }

    /// Stores `region` among the frame's results, under its name.
    pub fn add_result(&mut self, region: RegionOfInterest)
        ensures
            as_map(final(self).results@) == as_map(old(self).results@).insert(region.name@, region),
            final(self).num == old(self).num,
            final(self).mat == old(self).mat,
            final(self).processed_mat == old(self).processed_mat,
            final(self).text == old(self).text,
            final(self).start_date == old(self).start_date,
            final(self).end_date == old(self).end_date,
    {
        self.results.add_region(region);
    }

    /// Records what recognition gave for `region`: its text, or nothing
    /// when recognition failed; the region is then stored among the
    /// frame's results.
    pub fn record_recognition(&mut self, region: RegionOfInterest, text: Option<String>)
        ensures
            as_map(final(self).results@) == as_map(old(self).results@).insert(
                region.name@,
                RegionOfInterest { result: text, ..region },
            ),
            final(self).num == old(self).num,
            final(self).mat == old(self).mat,
            final(self).processed_mat == old(self).processed_mat,
            final(self).text == old(self).text,
            final(self).start_date == old(self).start_date,
            final(self).end_date == old(self).end_date,
    {
        let mut region = region;
        region.result = text;
        self.add_result(region);
    }

    /// Records the recognised text of every region of `regions`, the
    /// `i`-th text for the `i`-th region.
    pub fn record_recognitions(&mut self, regions: &RegionOfInterestList, texts: &Vec<Option<String>>)
        requires
            texts@.len() == regions@.len(),
        ensures
            as_map(final(self).results@) == with_results(
                as_map(old(self).results@),
                regions@,
                texts@,
            ),
            final(self).num == old(self).num,
            final(self).mat == old(self).mat,
            final(self).processed_mat == old(self).processed_mat,
            final(self).text == old(self).text,
            final(self).start_date == old(self).start_date,
            final(self).end_date == old(self).end_date,
    {
        let list = regions.iter();
        let mut i: usize = 0;
        while i < list.len()
            invariant
                list@.len() == regions@.len(),
                texts@.len() == regions@.len(),
                forall|k: int| 0 <= k < list@.len() ==> #[trigger] list@[k].1 == regions@[k],
                i <= list@.len(),
                as_map(self.results@) == with_results(
                    as_map(old(self).results@),
                    regions@.subrange(0, i as int),
                    texts@.subrange(0, i as int),
                ),
                self.num == old(self).num,
                self.mat == old(self).mat,
                self.processed_mat == old(self).processed_mat,
                self.text == old(self).text,
                self.start_date == old(self).start_date,
                self.end_date == old(self).end_date,
            decreases list@.len() - i,
        {
            let region = list[i].1.duplicate();
            let text = copy_text(&texts[i]);
            self.record_recognition(region, text);
            proof {
                let rs = regions@.subrange(0, i + 1);
                let ts = texts@.subrange(0, i + 1);
                assert(rs.drop_last() =~= regions@.subrange(0, i as int));
                assert(ts.drop_last() =~= texts@.subrange(0, i as int));
            }
            i += 1;
        }
        proof {
            assert(regions@.subrange(0, i as int) =~= regions@);
            assert(texts@.subrange(0, i as int) =~= texts@);
        }
    }

    /// What to draw over the frame: each result region's outline and, if
    /// it has a result, its label.
    pub fn highlight_regions(&self) -> (r: Vec<Highlight>)
        ensures
            r@.len() == self.results@.len(),
            forall|i: int| 0 <= i < r@.len() ==> highlight_of(self.results@[i], #[trigger] r@[i]),
    {
        let list = self.results.iter();
        let mut out: Vec<Highlight> = Vec::new();
        let mut i: usize = 0;
        while i < list.len()
            invariant
                list@.len() == self.results@.len(),
                forall|k: int| 0 <= k < list@.len() ==> #[trigger] list@[k].1 == self.results@[k],
                i <= list@.len(),
                out@.len() == i,
                forall|k: int| 0 <= k < i ==> highlight_of(self.results@[k], #[trigger] out@[k]),
            decreases list@.len() - i,
        {
            let region = &list[i].1;
            out.push(highlight(region));
            i += 1;
        }
        out
    }
}

/// The highlight of one region.
pub fn highlight(region: &RegionOfInterest) -> (h: Highlight)
    ensures
        highlight_of(*region, h),
{
    let rect = region.rect();
    let label = match &region.result {
        None => None,
        Some(t) => {
            let x = region.x as i64 + region.width as i64 + 5;
            let y = region.y as i64 + region.height as i64;
            if x >= i32::MIN as i64 && x <= i32::MAX as i64 && y >= i32::MIN as i64 && y
                <= i32::MAX as i64 {
                Some(Label { text: t.clone(), x: x as i32, y: y as i32 })
            } else {
                None
            }
        },
    };
    Highlight { rect, label }
}

} // verus!
