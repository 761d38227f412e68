use opendaw::render::{note_chunk_frames, BasicMidiPlaybackState, NoteSpan};

fn span(start_frame: usize, end_frame: usize) -> NoteSpan {
    NoteSpan { start_frame, end_frame }
}

#[test]
fn playback_state_follows_notes_chunk_by_chunk() {
    let notes = vec![span(0, 100), span(50, 120), span(200, 300)];
    let mut state = BasicMidiPlaybackState::new();
    state.advance(&notes, 0, 64);
    assert_eq!(state.next_note_index, 2);
    assert_eq!(state.active_note_indices, vec![0, 1]);
    state.advance(&notes, 64, 64);
    assert_eq!(state.next_note_index, 2);
    assert_eq!(state.active_note_indices, vec![0, 1]);
    state.advance(&notes, 128, 64);
    assert_eq!(state.next_note_index, 2);
    assert!(state.active_note_indices.is_empty());
    state.advance(&notes, 192, 64);
    assert_eq!(state.next_note_index, 3);
    assert_eq!(state.active_note_indices, vec![2]);
    state.advance(&notes, 256, 64);
    assert_eq!(state.next_note_index, 3);
    assert_eq!(state.active_note_indices, vec![2]);
    state.advance(&notes, 320, 64);
    assert!(state.active_note_indices.is_empty());
}

#[test]
fn notes_over_before_the_chunk_are_skipped() {
    let notes = vec![span(0, 10), span(5, 20), span(40, 90)];
    let mut state = BasicMidiPlaybackState::default();
    state.advance(&notes, 50, 10);
    assert_eq!(state.next_note_index, 3);
    assert_eq!(state.active_note_indices, vec![2]);
}

#[test]
fn chunk_end_saturates() {
    let notes = vec![span(usize::MAX - 5, usize::MAX)];
    let mut state = BasicMidiPlaybackState::new();
    state.advance(&notes, usize::MAX - 10, 100);
    assert_eq!(state.next_note_index, 1);
    assert_eq!(state.active_note_indices, vec![0]);
}

#[test]
fn note_frames_within_a_chunk() {
    assert_eq!(note_chunk_frames(&span(100, 300), 64, 128), (100, 192));
    assert_eq!(note_chunk_frames(&span(0, 50), 64, 128), (64, 50));
    assert_eq!(note_chunk_frames(&span(0, usize::MAX), usize::MAX - 10, 100), (usize::MAX - 10, usize::MAX));
}
