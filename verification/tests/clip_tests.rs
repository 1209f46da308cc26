use rhythmviz::clip::{AudioClip, ImportAction, PacketEvent, downmix_stride, import_step};

fn clip(samples: Vec<i64>, sample_rate: u32) -> AudioClip {
    AudioClip { name: String::from("test"), samples, sample_rate }
}

#[test]
fn resample_same_rate_is_identity() {
    let c = clip(vec![3, -5, 7, 0, 12], 44100);
    let r = c.resample(44100);
    assert_eq!(r.sample_rate, 44100);
    assert_eq!(r.samples, vec![3, -5, 7, 0, 12]);
    assert_eq!(r.name, "test");
}

#[test]
fn resample_length_is_floor_of_ratio() {
    let c = clip(vec![0; 4], 2);
    assert_eq!(c.resample(3).samples.len(), 6); // floor(4 * 3 / 2)

    let c = clip(vec![0; 10], 48000);
    assert_eq!(c.resample(44100).samples.len(), 9); // floor(10 * 44100 / 48000)

    let c = clip(vec![1, 2, 3], 1000);
    assert_eq!(c.resample(0).samples.len(), 0);
}

#[test]
fn resample_upsample_interpolates_linearly() {
    let c = clip(vec![0, 100], 2);
    let r = c.resample(4);
    // positions 0, 1/2, 1, 3/2 of the source
    assert_eq!(r.samples, vec![0, 50, 100, 100]);
}

#[test]
fn resample_downsample_picks_stride_positions() {
    let c = clip(vec![0, 10, 20, 30], 4);
    let r = c.resample(2);
    // positions 0 and 2 of the source
    assert_eq!(r.samples, vec![0, 20]);
}

#[test]
fn resample_negative_amplitudes_round_toward_first_sample() {
    let c = clip(vec![-100, 0], 2);
    let r = c.resample(4);
    assert_eq!(r.samples, vec![-100, -50, 0, 0]);
}

#[test]
fn downmix_takes_every_nth_sample() {
    assert_eq!(downmix_stride(&vec![1, 2, 3, 4, 5, 6], 2), vec![1, 3, 5]);
    assert_eq!(downmix_stride(&vec![1, 2, 3, 4, 5], 2), vec![1, 3, 5]);
    assert_eq!(downmix_stride(&vec![7, 8, 9], 1), vec![7, 8, 9]);
    assert_eq!(downmix_stride(&vec![], 2), Vec::<i64>::new());
}

#[test]
fn import_step_appends_decoded_packets_downmixed() {
    let act = import_step(PacketEvent::Decoded { interleaved: vec![1, 2, 3, 4], channels: 2 });
    assert_eq!(act, ImportAction::Append { mono: vec![1, 3] });
}

#[test]
fn import_step_skips_recoverable_units() {
    assert_eq!(import_step(PacketEvent::WrongTrack), ImportAction::Skip);
    assert_eq!(import_step(PacketEvent::CorruptPacket), ImportAction::Skip);
}

#[test]
fn import_step_finishes_on_end_of_stream() {
    assert_eq!(import_step(PacketEvent::EndOfStream), ImportAction::Finish);
}

#[test]
fn import_step_aborts_on_fatal_errors() {
    assert_eq!(import_step(PacketEvent::Fatal), ImportAction::Abort);
}
