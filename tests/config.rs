use stream_cv::stream::FrameSampler;
use stream_cv::Config;

#[test]
fn config_defaults() {
    let c = Config::new("rtmp://host/live".to_string());
    assert_eq!(c.url, "rtmp://host/live");
    assert!(!c.show_frames);
    assert_eq!(c.num_opencv_threads, 0);
    assert_eq!(c.num_libav_threads, 1);
    assert_eq!(c.process_frame_rate, 2);
    assert_eq!(c.stride(), Some(2));
}

#[test]
fn thread_default_is_half_the_parallelism() {
    let mut c = Config::new("u".to_string());
    c.resolve_threads(16);
    assert_eq!(c.num_opencv_threads, 8);
    assert_eq!(c.worker_count(), 4);
    let mut d = Config::new("u".to_string());
    d.num_opencv_threads = 6;
    d.resolve_threads(16);
    assert_eq!(d.num_opencv_threads, 6);
    assert_eq!(d.worker_count(), 3);
    d.num_opencv_threads = -4;
    assert_eq!(d.worker_count(), 0);
}

#[test]
fn stride_must_be_positive() {
    let mut c = Config::new("u".to_string());
    c.process_frame_rate = 0;
    assert_eq!(c.stride(), None);
    c.process_frame_rate = -3;
    assert_eq!(c.stride(), None);
}

#[test]
fn sampler_picks_every_stride() {
    let mut s = FrameSampler::new(3);
    let picked: Vec<Option<i64>> = (0..7).map(|_| s.on_decoded()).collect();
    assert_eq!(
        picked,
        vec![Some(0), None, None, Some(3), None, None, Some(6)]
    );
    assert_eq!(s.frame_index(), 7);
}
