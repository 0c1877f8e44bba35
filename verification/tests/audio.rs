use voice_assistant::audio::{CpalCapture, CpalSink, FrameBuffer, PlaybackQueue};
use voice_assistant::config::AudioConfig;

#[test]
fn frames_are_cut_in_order_without_loss() {
    let mut b: FrameBuffer<i32> = FrameBuffer::new(3);
    b.push(&[1, 2]);
    assert!(b.pop_frame().is_none());
    b.push(&[3, 4, 5, 6, 7]);
    assert_eq!(b.pop_frame(), Some(vec![1, 2, 3]));
    assert_eq!(b.pop_frame(), Some(vec![4, 5, 6]));
    assert_eq!(b.pop_frame(), None);
    assert_eq!(b.len(), 1);
    b.clear();
    assert_eq!(b.len(), 0);
}

#[test]
fn playback_takes_one_sample_per_frame() {
    let mut q: PlaybackQueue<i32> = PlaybackQueue::new();
    q.enqueue(&[10, 20, 30]);
    // stereo buffer of 5 slots: two whole frames, the odd slot is not produced
    let out = q.fill(5, 2, 0);
    assert_eq!(out, vec![10, 10, 20, 20]);
    assert_eq!(q.len(), 1);
    let out = q.fill(6, 2, 0);
    assert_eq!(out, vec![30, 30, 0, 0, 0, 0]);
    assert_eq!(q.len(), 0);
}

#[test]
fn flush_drops_queued_audio() {
    let mut q: PlaybackQueue<i32> = PlaybackQueue::new();
    q.enqueue(&[1, 2, 3]);
    q.flush();
    assert_eq!(q.fill(2, 1, -1), vec![-1, -1]);
}

#[test]
fn capture_and_sink_keep_their_settings() {
    let cfg = AudioConfig::default();
    let c = CpalCapture::new(cfg.clone());
    assert_eq!(c.config().sample_rate, 16000);
    assert_eq!(c.config().chunk_samples, 480);
    let s = CpalSink::new(cfg);
    assert_eq!(s.config().channels, 1);
    assert!(s.config().output_device.is_none());
}
