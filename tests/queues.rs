use stream_cv::QUEUE_CAPACITY;

#[test]
fn queue_backpressure() {
    let (tx, rx) = flume::bounded::<u32>(QUEUE_CAPACITY);
    for i in 0..QUEUE_CAPACITY as u32 {
        assert!(tx.try_send(i).is_ok());
    }
    assert!(matches!(tx.try_send(999), Err(flume::TrySendError::Full(999))));
    assert_eq!(rx.try_recv().unwrap(), 0);
    assert!(tx.try_send(1000).is_ok());
    assert!(matches!(tx.try_send(1001), Err(flume::TrySendError::Full(1001))));
    let drained: Vec<u32> = rx.try_iter().collect();
    assert_eq!(drained.len(), QUEUE_CAPACITY);
    assert_eq!(drained[0], 1);
    assert_eq!(*drained.last().unwrap(), 1000);
    drop(tx);
    assert!(matches!(rx.try_recv(), Err(flume::TryRecvError::Disconnected)));
}
