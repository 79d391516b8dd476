use stream_cv::sequencer::{SequenceError, Sequencer};

fn push_all(s: &mut Sequencer<u32>, keys: &[i64]) -> Vec<u32> {
    let mut out = Vec::new();
    for &k in keys {
        let released = s.push_and_drain(k, k as u32).expect("accepted");
        out.extend(released);
    }
    out
}

#[test]
fn in_order_with_step_two_never_stalls() {
    let mut s: Sequencer<u32> = Sequencer::new(0, 2);
    for k in [0i64, 2, 4, 6, 8] {
        let out = s.push_and_drain(k, k as u32).unwrap();
        assert_eq!(out, vec![k as u32]);
        assert_eq!(s.pending_len(), 0);
    }
    assert_eq!(s.next_expected(), 10);
}

#[test]
fn permutation_comes_out_sorted() {
    let mut s: Sequencer<u32> = Sequencer::new(0, 1);
    let out = push_all(&mut s, &[3, 1, 4, 0, 2, 6, 5]);
    assert_eq!(out, vec![0, 1, 2, 3, 4, 5, 6]);
    assert_eq!(s.pending_len(), 0);
    assert_eq!(s.next_expected(), 7);
}

#[test]
fn early_frames_wait_for_their_predecessor() {
    let mut s: Sequencer<u32> = Sequencer::new(10, 5);
    assert_eq!(s.push_and_drain(20, 20).unwrap(), Vec::<u32>::new());
    assert_eq!(s.push_and_drain(15, 15).unwrap(), Vec::<u32>::new());
    assert_eq!(s.pending_len(), 2);
    assert_eq!(s.push_and_drain(10, 10).unwrap(), vec![10, 15, 20]);
    assert_eq!(s.next_expected(), 25);
    assert_eq!(s.high_water_mark(), 3);
}

#[test]
fn failed_frame_is_skipped_and_the_rest_flow() {
    let mut s: Sequencer<u32> = Sequencer::new(0, 1);
    let mut out = Vec::new();
    out.extend(s.push_and_drain(1, 1).unwrap());
    out.extend(s.push_and_drain(0, 0).unwrap());
    out.extend(s.push_and_drain(3, 3).unwrap());
    out.extend(s.skip_and_drain(2).unwrap());
    out.extend(s.push_and_drain(4, 4).unwrap());
    assert_eq!(out, vec![0, 1, 3, 4]);
    assert_eq!(s.next_expected(), 5);
}

#[test]
fn stale_off_stride_and_duplicate_are_refused() {
    let mut s: Sequencer<u32> = Sequencer::new(0, 2);
    assert_eq!(s.push_and_drain(0, 0).unwrap(), vec![0]);
    assert_eq!(s.push_and_drain(0, 9), Err(SequenceError::Stale));
    assert_eq!(s.push_and_drain(3, 3), Err(SequenceError::OffStride));
    assert_eq!(s.push_and_drain(6, 6).unwrap(), Vec::<u32>::new());
    assert_eq!(s.push_and_drain(6, 7), Err(SequenceError::Duplicate));
    assert_eq!(s.skip_and_drain(-2), Err(SequenceError::Stale));
    assert_eq!(s.pending_len(), 1);
    assert_eq!(s.next_expected(), 2);
    assert_eq!(s.step(), 2);
}

#[test]
fn largest_sequence_number_is_released() {
    let mut s: Sequencer<u32> = Sequencer::new(i64::MAX - 1, 1);
    assert_eq!(s.push_and_drain(i64::MAX, 2).unwrap(), Vec::<u32>::new());
    assert_eq!(s.push_and_drain(i64::MAX - 1, 1).unwrap(), vec![1, 2]);
    assert_eq!(s.next_expected(), i64::MAX as i128 + 1);
}

#[test]
fn high_water_mark_tracks_the_gap() {
    let mut s: Sequencer<u32> = Sequencer::new(0, 1);
    for k in 1..=4i64 {
        s.push_and_drain(k, k as u32).unwrap();
    }
    assert_eq!(s.high_water_mark(), 4);
    assert_eq!(s.push_and_drain(0, 0).unwrap(), vec![0, 1, 2, 3, 4]);
    assert_eq!(s.pending_len(), 0);
    assert_eq!(s.high_water_mark(), 5);
}
