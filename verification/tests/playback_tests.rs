use rhythmviz::playback::PlaybackState;

#[test]
fn fill_block_copies_samples_across_channels_and_advances() {
    let mut s = PlaybackState::new(vec![10, 20, 30], 48000);
    let out = s.fill_block(2, 2);
    assert_eq!(out.samples, vec![10, 10, 20, 20]);
    assert_eq!(s.time, 2);
    assert!(out.fire_done.is_empty());
}

#[test]
fn fill_block_emits_silence_past_the_end() {
    let mut s = PlaybackState::new(vec![1, 2], 100);
    let out = s.fill_block(5, 1);
    assert_eq!(out.samples, vec![1, 2, 0, 0, 0]);
}

#[test]
fn cursor_is_monotone_and_clamped_to_buffer_length() {
    let mut s = PlaybackState::new(vec![0; 10], 100);
    let mut last = 0usize;
    for _ in 0..6 {
        s.fill_block(3, 1);
        assert!(s.time >= last);
        assert!(s.time <= 10);
        last = s.time;
    }
    assert_eq!(s.time, 10);
}

#[test]
fn done_observers_fire_exactly_once() {
    let mut s = PlaybackState::new(vec![0; 3], 100);
    assert!(!s.connect_done(7));
    assert!(!s.connect_done(8)); // registered twice over
    let out = s.fill_block(3, 1);
    assert_eq!(out.fire_done, vec![7, 8]);
    // the callback keeps being invoked after completion: nothing re-fires
    let out = s.fill_block(4, 1);
    assert!(out.fire_done.is_empty());
    let out = s.fill_block(1, 2);
    assert!(out.fire_done.is_empty());
}

#[test]
fn done_observer_registered_after_completion_fires_immediately() {
    let mut s = PlaybackState::new(vec![5], 100);
    s.fill_block(1, 1);
    assert!(s.connect_done(9)); // the caller must invoke it now
    let out = s.fill_block(1, 1);
    assert!(out.fire_done.is_empty()); // and it is never recorded
}

#[test]
fn empty_buffer_counts_as_done_at_registration() {
    let mut s = PlaybackState::new(Vec::new(), 100);
    assert!(s.connect_done(1));
}

#[test]
fn changed_observers_throttle_to_one_firing_per_ten_samples() {
    // sample_rate 1000 gives a throttle threshold of 10 samples
    let mut s = PlaybackState::new(vec![0; 1000], 1000);
    s.connect_changed(1);
    let mut fired_at: Vec<usize> = Vec::new();
    for _ in 0..25 {
        let out = s.fill_block(1, 1);
        if !out.fire_changed.is_empty() {
            assert_eq!(out.fire_changed, vec![1]);
            fired_at.push(s.time);
        }
    }
    // nothing until the cumulative advance reaches 10, then once per
    // subsequent 10-sample increment
    assert_eq!(fired_at, vec![10, 20]);
}

#[test]
fn changed_observers_fire_once_for_a_large_block() {
    let mut s = PlaybackState::new(vec![0; 1000], 1000);
    s.connect_changed(2);
    let out = s.fill_block(25, 1);
    assert_eq!(out.fire_changed, vec![2]);
    let out = s.fill_block(5, 1);
    assert!(out.fire_changed.is_empty());
}

#[test]
fn connect_changed_keeps_registration_order() {
    let mut s = PlaybackState::new(vec![0; 100], 100);
    s.connect_changed(3);
    s.connect_changed(1);
    s.connect_changed(2);
    let out = s.fill_block(50, 1);
    assert_eq!(out.fire_changed, vec![3, 1, 2]);
}
