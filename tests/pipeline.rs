use stream_cv::img::frame::{highlight, Frame};
use stream_cv::pipeline::{worker_completion, Completion, Router};
use stream_cv::roi::{new_region, new_region_list, StreamResolution};
use stream_cv::sequencer::SequenceError;

fn frame(num: i64) -> Frame<(), ()> {
    Frame::new(num, (), (), 1_000)
}

fn nums(out: &[Frame<(), ()>]) -> Vec<i64> {
    out.iter().map(|f| f.num).collect()
}

#[test]
fn router_releases_in_order_and_stamps() {
    let mut r: Router<(), ()> = Router::new(0, 1, true);
    let a = r.complete_at(Completion::Processed(frame(1)), 2_000).unwrap();
    assert!(a.is_empty());
    let b = r.complete_at(Completion::Processed(frame(0)), 2_500).unwrap();
    assert_eq!(nums(&b), vec![0, 1]);
    assert_eq!(b[0].end_date, Some(2_500));
    assert_eq!(b[1].end_date, Some(2_000));
    assert_eq!(b[0].processing_time(), Some(1_500));
}

#[test]
fn poison_frame_is_absent_and_pipeline_continues() {
    let mut r: Router<(), ()> = Router::new(0, 2, false);
    let mut out = Vec::new();
    for n in [2i64, 0, 6, 4, 8] {
        let outcome: Result<Frame<(), ()>, String> =
            if n == 4 { Err("transform failed".to_string()) } else { Ok(frame(n)) };
        let c = worker_completion(n, outcome);
        out.extend(r.complete_at(c, 5).unwrap());
    }
    assert_eq!(nums(&out), vec![0, 2, 6, 8]);
    assert_eq!(r.sequencer.next_expected(), 10);
}

#[test]
fn worker_completion_contains_failures() {
    let ok: Completion<(), ()> = worker_completion(3, Ok::<_, ()>(frame(3)));
    assert!(matches!(ok, Completion::Processed(ref f) if f.num == 3));
    let failed: Completion<(), ()> = worker_completion(3, Err::<Frame<(), ()>, _>(()));
    assert!(matches!(failed, Completion::Failed(3)));
}

#[test]
fn router_refuses_a_stale_completion() {
    let mut r: Router<(), ()> = Router::new(0, 1, false);
    r.complete_at(Completion::Processed(frame(0)), 1).unwrap();
    let e = r.complete_at(Completion::Failed(0), 1).unwrap_err();
    assert_eq!(e, SequenceError::Stale);
}

#[test]
fn router_complete_stamps_current_time() {
    let mut r: Router<(), ()> = Router::new(0, 1, false);
    let out = r.complete(Completion::Processed(frame(0))).unwrap();
    assert!(out[0].end_date.unwrap() > 1_000);
}

#[test]
fn decoded_frame_is_stamped_now() {
    let f: Frame<(), ()> = Frame::decoded(4, (), ());
    assert_eq!(f.num, 4);
    assert!(f.start_date > 1_600_000_000_000);
    assert_eq!(f.end_date, None);
    let mut g = f.clone();
    g.stamp_completed();
    assert!(g.end_date.unwrap() >= f.start_date);
    g.set_start_date(7);
    assert_eq!(g.start_date, 7);
}

#[test]
fn processing_time_needs_completion() {
    let mut f = frame(0);
    assert_eq!(f.processing_time(), None);
    f.complete(1_250);
    assert_eq!(f.processing_time(), Some(250));
    f.set_start_date(i64::MIN);
    f.complete(i64::MAX);
    assert_eq!(f.processing_time(), None);
}

#[test]
fn recognitions_are_attached_per_region() {
    let mut regions = new_region_list();
    regions.add_new_region("ammo".to_string(), 0, 0, 10, 10, StreamResolution::HD1080p);
    regions.add_new_region("gun".to_string(), 20, 0, 10, 10, StreamResolution::HD1080p);
    let mut f = frame(0);
    f.record_recognitions(&regions, &vec![Some("30".to_string()), None]);
    assert_eq!(f.results.len(), 2);
    assert_eq!(f.results.get_value("ammo".to_string()).unwrap().result, Some("30".to_string()));
    assert_eq!(f.results.get_value("gun".to_string()).unwrap().result, None);
    f.record_recognition(
        new_region("gun".to_string(), 20, 0, 10, 10, StreamResolution::HD1080p),
        Some("R-301".to_string()),
    );
    assert_eq!(f.results.len(), 2);
    assert_eq!(f.results.get_value("gun".to_string()).unwrap().result, Some("R-301".to_string()));
    f.add_result(new_region("x".to_string(), 1, 1, 1, 1, StreamResolution::HD720p));
    assert_eq!(f.results.len(), 3);
}

#[test]
fn highlights_place_labels_beside_regions() {
    let mut f = frame(0);
    let mut a = new_region("ammo".to_string(), 100, 50, 20, 10, StreamResolution::HD1080p);
    a.set_result("30".to_string());
    f.add_result(a);
    f.add_result(new_region("gun".to_string(), 1, 2, 3, 4, StreamResolution::HD1080p));
    let h = f.highlight_regions();
    assert_eq!(h.len(), 2);
    assert_eq!((h[0].rect.x, h[0].rect.y, h[0].rect.width, h[0].rect.height), (100, 50, 20, 10));
    let l = h[0].label.as_ref().unwrap();
    assert_eq!((l.text.as_str(), l.x, l.y), ("30", 125, 60));
    assert!(h[1].label.is_none());
    let mut far = new_region("far".to_string(), i32::MAX, 0, 1, 1, StreamResolution::HD1080p);
    far.set_result("x".to_string());
    assert!(highlight(&far).label.is_none());
}

#[test]
fn frames_compare_by_number_only() {
    let mut a = frame(3);
    a.text = "x".to_string();
    let b = Frame::new(3, (), (), 9);
    assert!(a == b);
    assert!(frame(2) < frame(3));
    assert!(frame(4) > frame(3));
    assert_eq!(frame(1).partial_cmp(&frame(1)), Some(std::cmp::Ordering::Equal));
}
