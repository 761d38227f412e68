use opendaw::clip::{build_midi_clip_from_notes, load_midi_clip, notes_sounding_at};
use opendaw::message::{
    decode_note_message, default_sample_rate, describe_midi_message, is_virtual_loopback_port, port_info,
    synth_message, NoteMessage, DEFAULT_SAMPLE_RATE,
};
use opendaw::notes::{MidiNote, NoteTracker, PendingNote};
use opendaw::recording::{RecordingState, MIN_RECORDING_US};
use opendaw::smf::{
    encode_clip_events, notes_from_smf, SmfData, SmfEvent, SmfEventKind, SmfTiming, SmfTimingError, WrittenEvent,
    WrittenEventKind,
};
use opendaw::sorting::stable_sort_by_key;

fn note(note: u8, velocity: u8, channel: u8, start_us: u64, end_us: u64) -> MidiNote {
    MidiNote { note, velocity, channel, start_us, end_us }
}

#[test]
fn default_rate() {
    assert_eq!(default_sample_rate(), 44_100);
    assert_eq!(DEFAULT_SAMPLE_RATE, 44_100);
}

#[test]
fn loopback_ports_are_marked() {
    assert!(is_virtual_loopback_port("Midi Through:Midi Through Port-0 14:0"));
    assert!(is_virtual_loopback_port("IAC THROUGH PORT"));
    assert!(!is_virtual_loopback_port("USB Keystation 49"));
    let info = port_info("Midi Through 14:0".to_string());
    assert_eq!(info.name, "Midi Through 14:0");
    assert!(info.is_virtual_loopback);
    assert!(!port_info("Digital Piano".to_string()).is_virtual_loopback);
}

#[test]
fn note_messages_are_decoded() {
    assert_eq!(decode_note_message(&[0x91, 60, 100]), NoteMessage::On { channel: 1, note: 60, velocity: 100 });
    assert_eq!(decode_note_message(&[0x90, 60, 0]), NoteMessage::Off { channel: 0, note: 60 });
    assert_eq!(decode_note_message(&[0x8F, 61, 40]), NoteMessage::Off { channel: 15, note: 61 });
    assert_eq!(decode_note_message(&[0x90, 62]), NoteMessage::Off { channel: 0, note: 62 });
    assert_eq!(decode_note_message(&[0xB0, 7, 100]), NoteMessage::Ignored);
    assert_eq!(decode_note_message(&[]), NoteMessage::Ignored);
}

#[test]
fn synth_messages_split_the_status_byte() {
    assert_eq!(synth_message(&[0x93, 60, 100]), Some((3, 0x90, 60, 100)));
    assert_eq!(synth_message(&[0xC2, 5]), Some((2, 0xC0, 5, 0)));
    assert_eq!(synth_message(&[]), None);
}

#[test]
fn midi_messages_are_described() {
    assert_eq!(describe_midi_message(&[]), "empty");
    assert_eq!(describe_midi_message(&[0x90, 60, 100]), "note-on ch1 note=60 vel=100");
    assert_eq!(describe_midi_message(&[0x9F, 60, 0]), "note-off ch16 note=60 vel=0");
    assert_eq!(describe_midi_message(&[0x81, 61, 64]), "note-off ch2 note=61 vel=64");
    assert_eq!(describe_midi_message(&[0xA0, 60, 30]), "poly-aftertouch ch1 note=60 value=30");
    assert_eq!(describe_midi_message(&[0xB2, 7, 127]), "cc ch3 ctrl=7 value=127");
    assert_eq!(describe_midi_message(&[0xC0, 5]), "program-change ch1 value=5");
    assert_eq!(describe_midi_message(&[0xD0, 9]), "channel-aftertouch ch1 value=9");
    assert_eq!(describe_midi_message(&[0xE0, 0, 64]), "pitch-bend ch1 value=0");
    assert_eq!(describe_midi_message(&[0xE0, 0, 0]), "pitch-bend ch1 value=-8192");
    assert_eq!(describe_midi_message(&[0xE0, 127, 127]), "pitch-bend ch1 value=8191");
    assert_eq!(describe_midi_message(&[0xF0, 1, 2]), "raw [240, 1, 2]");
    assert_eq!(describe_midi_message(&[0xF8]), "raw [248]");
}

#[test]
fn note_off_closes_the_latest_note_on_of_its_key() {
    let mut t = NoteTracker::new();
    t.note_on(0, 60, 100, 90);
    t.note_on(0, 60, 200, 70);
    t.note_on(1, 60, 250, 50);
    t.note_off(0, 60, 300);
    assert_eq!(t.notes, vec![note(60, 70, 0, 200, 300)]);
    assert_eq!(
        t.pending,
        vec![
            PendingNote { channel: 0, note: 60, start_us: 100, velocity: 90 },
            PendingNote { channel: 1, note: 60, start_us: 250, velocity: 50 },
        ]
    );
    t.note_off(2, 60, 400);
    assert_eq!(t.notes.len(), 1);
}

#[test]
fn notes_never_end_before_they_start() {
    let mut t = NoteTracker::new();
    t.note_on(0, 64, 500, 80);
    t.note_off(0, 64, 400);
    assert_eq!(t.notes, vec![note(64, 80, 0, 500, 500)]);
}

#[test]
fn held_notes_are_closed_at_the_end() {
    let mut t = NoteTracker::new();
    t.note_on(0, 60, 100, 90);
    t.note_on(0, 62, 990, 91);
    t.close_all(1_000, 50);
    assert!(t.pending.is_empty());
    assert_eq!(t.notes, vec![note(60, 90, 0, 100, 1_000), note(62, 91, 0, 990, 1_040)]);
}

#[test]
fn recording_keeps_velocities() {
    let mut r = RecordingState::new();
    r.record_message(&[0x90, 60, 100], 1_000);
    r.record_message(&[0xB0, 64, 127], 1_500);
    r.record_message(&[0x91, 64, 80], 2_000);
    r.record_message(&[0x80, 60, 0], 3_000);
    assert_eq!(r.note_count(), 1);
    let done = r.finish(25_000);
    assert_eq!(done.notes, vec![note(60, 100, 0, 1_000, 3_000), note(64, 80, 1, 2_000, 25_000)]);
    assert_eq!(done.note_count, 2);
    assert_eq!(done.duration_us, 25_000);
}

#[test]
fn short_recordings_last_the_minimum() {
    let mut r = RecordingState::new();
    r.record_message(&[0x90, 60, 100], 100);
    r.record_message(&[0x90, 60, 0], 300);
    let done = r.finish(1_000);
    assert_eq!(done.notes, vec![note(60, 100, 0, 100, 300)]);
    assert_eq!(done.duration_us, MIN_RECORDING_US);
    let empty = RecordingState::new().finish(0);
    assert!(empty.notes.is_empty());
    assert_eq!(empty.duration_us, MIN_RECORDING_US);
}

#[test]
fn sounding_notes_at_a_time() {
    let notes = vec![note(60, 100, 0, 0, 1_000), note(62, 100, 0, 500, 1_500), note(64, 100, 0, 1_000, 2_000)];
    assert_eq!(notes_sounding_at(&notes, 1_000), vec![notes[1], notes[2]]);
    assert_eq!(notes_sounding_at(&notes, 0), vec![notes[0]]);
    assert!(notes_sounding_at(&notes, 2_000).is_empty());
}

#[test]
fn sorting_by_start_is_stable() {
    let notes = vec![note(64, 1, 0, 500, 600), note(60, 2, 0, 100, 200), note(67, 3, 0, 500, 550), note(62, 4, 0, 100, 900)];
    let sorted = stable_sort_by_key(&notes);
    assert_eq!(sorted, vec![notes[1], notes[3], notes[0], notes[2]]);
}

#[test]
fn clip_events_are_ordered_on_the_tick_grid() {
    let events = encode_clip_events(&vec![note(60, 100, 0, 0, 500_000)], 1_000_000);
    assert_eq!(
        events,
        vec![
            WrittenEvent { delta: 0, kind: WrittenEventKind::SetTempo(500_000) },
            WrittenEvent { delta: 0, kind: WrittenEventKind::KeyDown(0, 60, 100) },
            WrittenEvent { delta: 480, kind: WrittenEventKind::KeyUp(0, 60, 0) },
            WrittenEvent { delta: 480, kind: WrittenEventKind::EndTrack },
        ]
    );
    let short = encode_clip_events(&vec![note(60, 100, 0, 0, 0)], 0);
    assert_eq!(short[2], WrittenEvent { delta: 10, kind: WrittenEventKind::KeyUp(0, 60, 0) });
    assert_eq!(short[3], WrittenEvent { delta: 0, kind: WrittenEventKind::EndTrack });
}

#[test]
fn clips_round_trip_through_their_file() {
    let clip = build_midi_clip_from_notes(
        vec![note(64, 80, 1, 500_000, 1_000_000), note(60, 100, 0, 0, 500_000)],
        1_000_000,
    )
    .expect("encodes");
    assert_eq!(clip.notes, vec![note(60, 100, 0, 0, 500_000), note(64, 80, 1, 500_000, 1_000_000)]);
    assert_eq!(clip.duration_us, 1_000_000);
    assert_eq!(&clip.smf_bytes[0..4], b"MThd");
    let loaded = load_midi_clip("take.mid", clip.smf_bytes.clone()).expect("parses");
    assert_eq!(loaded.notes, clip.notes);
    assert_eq!(loaded.duration_us, 1_000_000);
    assert_eq!(loaded.smf_bytes, clip.smf_bytes);
}

#[test]
fn clip_notes_read_back_on_the_tick_grid() {
    // At 960 ticks a second: 1 000 us is written at tick 1 and read back as 1 041 us, 11 000 us
    // at tick 11 (11 458 us), 20 000 us at tick 19 (19 791 us); 1 250 000 us is tick 1 200.
    let clip = build_midi_clip_from_notes(
        vec![note(62, 90, 3, 20_000, 1_250_000), note(60, 100, 0, 1_000, 11_000)],
        0,
    )
    .expect("encodes");
    assert_eq!(clip.duration_us, 1_250_000);
    let loaded = load_midi_clip("grid.mid", clip.smf_bytes.clone()).expect("parses");
    assert_eq!(loaded.notes, vec![note(60, 100, 0, 1_041, 11_458), note(62, 90, 3, 19_791, 1_250_000)]);
    assert_eq!(loaded.duration_us, 1_250_000);
}

#[test]
fn chords_read_back_note_for_note() {
    // Two keys struck together, and the first key struck again when it is released: each note
    // comes back once; notes that start together come back in the order they were released.
    let clip = build_midi_clip_from_notes(
        vec![
            note(60, 100, 0, 0, 500_000),
            note(64, 90, 0, 0, 250_000),
            note(60, 80, 0, 500_000, 1_000_000),
        ],
        0,
    )
    .expect("encodes");
    let loaded = load_midi_clip("chord.mid", clip.smf_bytes.clone()).expect("parses");
    assert_eq!(
        loaded.notes,
        vec![note(64, 90, 0, 0, 250_000), note(60, 100, 0, 0, 500_000), note(60, 80, 0, 500_000, 1_000_000)]
    );
    assert_eq!(loaded.duration_us, 1_000_000);
}

#[test]
fn clip_notes_read_back_within_half_a_tick() {
    let written = vec![note(60, 100, 0, 123_457, 987_653), note(67, 1, 15, 400_001, 400_001 + 10_000)];
    let clip = build_midi_clip_from_notes(written.clone(), 1_234_567).expect("encodes");
    let loaded = load_midi_clip("close.mid", clip.smf_bytes.clone()).expect("parses");
    assert_eq!(loaded.notes.len(), 2);
    for (back, original) in loaded.notes.iter().zip(written.iter()) {
        assert_eq!((back.note, back.velocity, back.channel), (original.note, original.velocity, original.channel));
        assert!(back.start_us.abs_diff(original.start_us) <= 521);
        assert!(back.end_us.abs_diff(original.end_us) <= 521);
    }
    assert!(loaded.duration_us.abs_diff(1_234_567) <= 521);
}

#[test]
fn clip_length_covers_its_notes() {
    let clip = build_midi_clip_from_notes(vec![note(60, 100, 0, 0, 2_000_000)], 1_000)
        .expect("encodes");
    assert_eq!(clip.duration_us, 2_000_000);
}

#[test]
fn unreadable_midi_is_refused() {
    let err = load_midi_clip("bad.mid", vec![1, 2, 3, 4]).err().expect("an error");
    assert!(err.starts_with("failed to parse MIDI `bad.mid`: "));
}

fn smf(timing: SmfTiming, tracks: Vec<Vec<SmfEvent>>) -> SmfData {
    SmfData { timing, tracks }
}

fn ev(delta: u32, kind: SmfEventKind) -> SmfEvent {
    SmfEvent { delta, kind }
}

#[test]
fn smf_notes_follow_the_tempo() {
    let data = smf(
        SmfTiming::Metrical(480),
        vec![vec![
            ev(0, SmfEventKind::NoteOn(0, 60, 100)),
            ev(480, SmfEventKind::Tempo(250_000)),
            ev(480, SmfEventKind::NoteOn(0, 60, 0)),
            ev(0, SmfEventKind::NoteOn(2, 67, 90)),
            ev(0, SmfEventKind::Other),
        ]],
    );
    let (notes, duration) = notes_from_smf(&data).expect("metrical");
    assert_eq!(duration, 750_000);
    assert_eq!(notes, vec![note(60, 100, 0, 0, 750_000), note(67, 90, 2, 750_000, 800_000)]);
}

#[test]
fn smf_timing_errors() {
    assert_eq!(notes_from_smf(&smf(SmfTiming::Timecode, vec![])), Err(SmfTimingError::Timecode));
    assert_eq!(notes_from_smf(&smf(SmfTiming::Metrical(0), vec![])), Err(SmfTimingError::ZeroTicksPerQuarter));
}

#[test]
fn smf_tracks_run_in_parallel() {
    let data = smf(
        SmfTiming::Metrical(96),
        vec![
            vec![ev(96, SmfEventKind::NoteOn(0, 60, 100)), ev(96, SmfEventKind::NoteOff(0, 60))],
            vec![ev(48, SmfEventKind::NoteOn(1, 48, 70)), ev(48, SmfEventKind::NoteOff(1, 48))],
        ],
    );
    let (notes, duration) = notes_from_smf(&data).expect("metrical");
    assert_eq!(duration, 1_000_000);
    assert_eq!(notes, vec![note(48, 70, 1, 250_000, 500_000), note(60, 100, 0, 500_000, 1_000_000)]);
}
