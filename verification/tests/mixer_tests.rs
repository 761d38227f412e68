use opendaw::mixer::{
    active_track_indices, block_overlap, check_clip_bounds, mix_shape, next_block_len, sample_source,
    split_track_spec, MixShape, Overlap, SampleSource, TrackLayout, WRITE_CHUNK_FRAMES,
};

fn layout(sample_rate: u32, channels: u16, offset_frames: usize, clip_frame_count: usize) -> TrackLayout {
    TrackLayout {
        sample_rate,
        channels,
        audio_frames: clip_frame_count,
        offset_frames,
        clip_start_frames: 0,
        clip_frame_count,
        mute: false,
        solo: false,
    }
}

#[test]
fn track_specs_split_at_the_last_colon() {
    assert_eq!(split_track_spec("kick.wav:0.9"), Ok(("kick.wav".to_string(), "0.9".to_string())));
    assert_eq!(split_track_spec("C:/a.wav:0.5"), Ok(("C:/a.wav".to_string(), "0.5".to_string())));
    assert_eq!(split_track_spec("pad.wav:"), Ok(("pad.wav".to_string(), "".to_string())));
    assert_eq!(
        split_track_spec("kick.wav"),
        Err("invalid track spec `kick.wav`; expected format `path.wav:gain`".to_string())
    );
}

#[test]
fn muted_tracks_are_left_out() {
    let mut tracks = vec![layout(44_100, 2, 0, 10), layout(44_100, 2, 0, 10), layout(44_100, 2, 0, 10)];
    tracks[1].mute = true;
    assert_eq!(active_track_indices(&tracks), Ok(vec![0, 2]));
}

#[test]
fn solo_shuts_out_the_other_tracks() {
    let mut tracks = vec![layout(44_100, 2, 0, 10), layout(44_100, 2, 0, 10), layout(44_100, 2, 0, 10)];
    tracks[2].solo = true;
    assert_eq!(active_track_indices(&tracks), Ok(vec![2]));
    tracks[2].mute = true;
    assert_eq!(active_track_indices(&tracks), Err("no audible tracks to mix".to_string()));
}

#[test]
fn no_tracks_means_nothing_audible() {
    assert_eq!(active_track_indices(&vec![]), Err("no audible tracks to mix".to_string()));
}

#[test]
fn clip_bounds_are_checked() {
    let mut t = layout(44_100, 1, 0, 100);
    assert_eq!(check_clip_bounds(&t), Ok(()));
    t.clip_start_frames = 101;
    assert_eq!(check_clip_bounds(&t), Err("clip start exceeds source length".to_string()));
    t.clip_start_frames = 50;
    assert_eq!(check_clip_bounds(&t), Err("clip end exceeds source length".to_string()));
    t.clip_frame_count = 50;
    assert_eq!(check_clip_bounds(&t), Ok(()));
}

#[test]
fn mix_is_as_long_and_wide_as_its_largest_track() {
    let tracks = vec![layout(44_100, 1, 0, 100), layout(44_100, 2, 50, 100), layout(44_100, 1, 10, 20)];
    assert_eq!(mix_shape(&tracks), Ok(MixShape { sample_rate: 44_100, channels: 2, frames: 150 }));
}

#[test]
fn mix_needs_one_sample_rate() {
    let tracks = vec![layout(44_100, 2, 0, 10), layout(44_100, 2, 0, 10), layout(48_000, 2, 0, 10)];
    assert_eq!(mix_shape(&tracks), Err("track 3 has sample rate 48000, expected 44100".to_string()));
    assert_eq!(mix_shape(&vec![]), Err("no tracks to mix".to_string()));
}

#[test]
fn block_overlap_places_the_track() {
    let mut t = layout(44_100, 1, 100, 50);
    t.clip_start_frames = 10;
    t.audio_frames = 60;
    assert_eq!(block_overlap(&t, 0, 100), None);
    assert_eq!(block_overlap(&t, 0, 130), Some(Overlap { source_start: 10, block_start: 100, len: 30 }));
    assert_eq!(block_overlap(&t, 120, 100), Some(Overlap { source_start: 30, block_start: 0, len: 30 }));
    assert_eq!(block_overlap(&t, 150, 100), None);
}

#[test]
fn channel_mapping() {
    assert_eq!(sample_source(1, 5, 1, 2), SampleSource::One(5));
    assert_eq!(sample_source(2, 5, 0, 1), SampleSource::Average(10, 11));
    assert_eq!(sample_source(2, 5, 0, 2), SampleSource::One(10));
    assert_eq!(sample_source(2, 5, 1, 2), SampleSource::One(11));
    assert_eq!(sample_source(2, 5, 3, 4), SampleSource::One(11));
    assert_eq!(sample_source(3, 2, 5, 6), SampleSource::One(8));
    assert_eq!(sample_source(3, 2, 1, 2), SampleSource::One(7));
}

#[test]
fn blocks_are_written_in_bounded_pieces() {
    assert_eq!(next_block_len(100, 0), 100);
    assert_eq!(next_block_len(WRITE_CHUNK_FRAMES * 2 + 5, 0), WRITE_CHUNK_FRAMES);
    assert_eq!(next_block_len(WRITE_CHUNK_FRAMES * 2 + 5, WRITE_CHUNK_FRAMES * 2), 5);
}
