use audio_visualizer::channel::SampleChannel;

#[test]
fn drain_of_new_channel_is_empty() {
    let mut c = SampleChannel::new(8);
    assert!(c.drain_all().is_empty());
}

#[test]
fn batch_under_capacity_comes_back_in_order() {
    let mut c = SampleChannel::new(8);
    let batch = vec![5, -3, 0, 7, 1_000_000];
    c.push_batch(&batch);
    assert_eq!(c.drain_all(), batch);
    assert!(c.drain_all().is_empty());
}

#[test]
fn batch_of_exactly_capacity_is_kept_whole() {
    let mut c = SampleChannel::new(4);
    c.push_batch(&[1, 2, 3, 4]);
    assert_eq!(c.drain_all(), vec![1, 2, 3, 4]);
}

#[test]
fn overflow_drops_the_newest_samples() {
    let mut c = SampleChannel::new(4);
    let marked: Vec<i32> = (0..10).collect();
    c.push_batch(&marked);
    assert_eq!(c.drain_all(), vec![0, 1, 2, 3]);
}

#[test]
fn overflow_across_batches_keeps_what_was_held() {
    let mut c = SampleChannel::new(5);
    c.push_batch(&[10, 11, 12]);
    c.push_batch(&[20, 21, 22, 23]);
    c.push_batch(&[30]);
    let got = c.drain_all();
    assert!(got.len() <= 5);
    assert_eq!(got, vec![10, 11, 12, 20, 21]);
}

#[test]
fn channel_accepts_samples_again_after_drain() {
    let mut c = SampleChannel::new(3);
    c.push_batch(&[1, 2, 3, 4]);
    assert_eq!(c.drain_all(), vec![1, 2, 3]);
    c.push_batch(&[7, 8]);
    c.push_batch(&[9, 10]);
    assert_eq!(c.drain_all(), vec![7, 8, 9]);
}

#[test]
fn batches_under_capacity_come_back_in_order() {
    let mut c = SampleChannel::new(6);
    c.push_batch(&[1, 2]);
    c.push_batch(&[]);
    c.push_batch(&[3, 4, 5]);
    c.push_batch(&[6]);
    assert_eq!(c.drain_all(), vec![1, 2, 3, 4, 5, 6]);
}

#[test]
fn marked_batches_beyond_capacity_keep_the_oldest() {
    let mut c = SampleChannel::new(4);
    c.push_batch(&[100, 101]);
    c.push_batch(&[102, 103, 104]);
    c.push_batch(&[105, 106]);
    assert_eq!(c.drain_all(), vec![100, 101, 102, 103]);
}
