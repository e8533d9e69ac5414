use bosrender::progress::{FrameCounter, FrameTick, RealtimeDisplay};

#[test]
fn frame_counter_counts_and_times_frames() {
    let mut counter = FrameCounter::new(3);
    assert_eq!(counter.len(), 3);
    assert_eq!(counter.next_frame(1_000_000), Some(FrameTick { frame: 0, last_frame_ms: None }));
    assert_eq!(counter.next_frame(6_500_000), Some(FrameTick { frame: 1, last_frame_ms: Some(5) }));
    assert_eq!(counter.next_frame(26_500_000), Some(FrameTick { frame: 2, last_frame_ms: Some(20) }));
    assert_eq!(counter.next_frame(30_000_000), None);
    assert_eq!(counter.next_frame(40_000_000), None);
}

#[test]
fn frame_counter_of_no_frames() {
    let mut counter = FrameCounter::new(0);
    assert_eq!(counter.next_frame(0), None);
}

#[test]
fn realtime_display_waits_for_interval() {
    let mut display = RealtimeDisplay::from_interval(100, 1_000);
    assert!(!display.needs_update(1_050));
    assert!(display.needs_update(1_100));
    assert!(!display.needs_update(1_199));
    assert!(display.needs_update(1_250));
    assert!(!display.needs_update(900));
}
