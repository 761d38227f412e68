use vstd::prelude::*;
use crate::clip::max_end_us;
use crate::message::{NoteMessage, decode_note_message, spec_note_message, law_note_message_keeps_the_channel};
use crate::notes::{
    MidiNote, NoteTracker, TrackerState, max_u64, spec_close_all, spec_note_off, spec_note_on,
    last_open_index, lemma_last_open_index_range, law_note_off_closes_the_note_on,
};
use crate::sorting::{key_sorted, stable_sort_by_key, stable_sorted};

verus! {

/// Every recording lasts at least this long.
pub const MIN_RECORDING_US: u64 = 10_000;

/// Notes captured from a keyboard while recording. Times are microseconds since the
/// recording started, as measured by the caller when each message arrived.
#[derive(Debug)]
pub struct RecordingState {
    pub tracker: NoteTracker,
    pub max_time_us: u64,
}

pub struct RecordingView {
    pub tracker: TrackerState,
    pub max_time_us: u64,
}

impl View for RecordingState {
    type V = RecordingView;

    open spec fn view(&self) -> RecordingView {
        RecordingView { tracker: self.tracker@, max_time_us: self.max_time_us }
    }
}

/// Effect of one incoming message. Only note messages count, and they also advance the
/// latest time seen.
pub open spec fn spec_record(s: RecordingView, message: Seq<u8>, now_us: u64) -> RecordingView {
    match spec_note_message(message) {
        NoteMessage::On { channel, note, velocity } => RecordingView {
            tracker: spec_note_on(s.tracker, channel, note, now_us, velocity),
            max_time_us: max_u64(s.max_time_us, now_us),
        },
        NoteMessage::Off { channel, note } => RecordingView {
            tracker: spec_note_off(s.tracker, channel, note, now_us),
            max_time_us: max_u64(s.max_time_us, now_us),
        },
        NoteMessage::Ignored => s,
    }
}

/// When a recording stopped: the elapsed time, but at least `MIN_RECORDING_US`.
pub open spec fn stop_time_us(elapsed_us: u64) -> u64 {
    max_u64(elapsed_us, MIN_RECORDING_US)
}

/// Notes of a finished recording before sorting: those closed while recording, then the
/// notes still held, each ending when the recording stopped.
pub open spec fn finished_unsorted_notes(s: RecordingView, elapsed_us: u64) -> Seq<MidiNote> {
    spec_close_all(s.tracker, stop_time_us(elapsed_us), 0).notes
}

/// Length of a finished recording: the latest of the last message, the stop time, and every
/// note end.
pub open spec fn finished_duration_us(s: RecordingView, elapsed_us: u64) -> u64 {
    max_u64(
        max_u64(s.max_time_us, stop_time_us(elapsed_us)),
        max_end_us(finished_unsorted_notes(s, elapsed_us)),
    )
}

/// The notes of a finished recording, their number, and the recording's length.
pub struct FinishedRecording {
    pub notes: Vec<MidiNote>,
    pub note_count: usize,
    pub duration_us: u64,
}

impl RecordingState {
    pub fn new() -> (r: RecordingState)
        ensures
            r@.tracker.pending == Seq::<crate::notes::PendingNote>::empty(),
            r@.tracker.notes == Seq::<MidiNote>::empty(),
            r@.max_time_us == 0,
    {
        RecordingState { tracker: NoteTracker::new(), max_time_us: 0 }
    }

    /// Number of notes captured so far (released keys only).
    pub fn note_count(&self) -> (r: usize)
        ensures
            r == self@.tracker.notes.len(),
    {
        self.tracker.notes.len()
    }

    /// Records a raw keyboard message that arrived `now_us` after the recording started.
    pub fn record_message(&mut self, message: &[u8], now_us: u64)
        ensures
            final(self)@ == spec_record(old(self)@, message@, now_us),
    {
        match decode_note_message(message) {
            NoteMessage::On { channel, note, velocity } => {
                if now_us > self.max_time_us {
                    self.max_time_us = now_us;
                }
                self.tracker.note_on(channel, note, now_us, velocity);
            },
            NoteMessage::Off { channel, note } => {
                if now_us > self.max_time_us {
                    self.max_time_us = now_us;
                }
                self.tracker.note_off(channel, note, now_us);
            },
            NoteMessage::Ignored => {},
        }
    }

    /// Ends the recording `elapsed_us` after it started: keys still held are released at the
    /// stop time, and the notes come out sorted by start (stably).
    pub fn finish(self, elapsed_us: u64) -> (r: FinishedRecording)
        ensures
            r.notes@ == stable_sorted(finished_unsorted_notes(self@, elapsed_us)),
            key_sorted(r.notes@),
            r.note_count == r.notes@.len(),
            r.duration_us == finished_duration_us(self@, elapsed_us),
    {
        let stop_us = if elapsed_us >= MIN_RECORDING_US { elapsed_us } else { MIN_RECORDING_US };
        let mut tracker = self.tracker;
        tracker.close_all(stop_us, 0);
        let notes = stable_sort_by_key(&tracker.notes);
        let note_count = notes.len();
        let mut latest = if self.max_time_us >= stop_us { self.max_time_us } else { stop_us };
        let n = tracker.notes.len();
        let ghost all = tracker.notes@;
        let ghost base = latest;
        for i in 0..n
            invariant
                n == tracker.notes.len(),
                all == tracker.notes@,
                latest == max_u64(base, max_end_us(all.take(i as int))),
        {
            proof {
                assert(all.take(i + 1).drop_last() =~= all.take(i as int));
            }
            if tracker.notes[i].end_us > latest {
                latest = tracker.notes[i].end_us;
            }
        }
        proof {
            assert(all.take(n as int) =~= all);
        }
        FinishedRecording { notes, note_count, duration_us: latest }
    }
}

/// A note as recording makes it: played with some velocity (a note-on of velocity 0 ends a
/// note rather than starting one) and never ending before it starts.
pub open spec fn note_is_sound(n: MidiNote) -> bool {
    n.velocity > 0 && n.start_us <= n.end_us
}

/// Every finished note is sound and every held key was struck with some velocity.
pub open spec fn recording_is_sound(s: RecordingView) -> bool {
    &&& forall|i: int| 0 <= i < s.tracker.notes.len() ==> note_is_sound(#[trigger] s.tracker.notes[i])
    &&& forall|i: int| 0 <= i < s.tracker.pending.len() ==> (#[trigger] s.tracker.pending[i]).velocity > 0
}

proof fn lemma_max_end_us(notes: Seq<MidiNote>)
    ensures
        forall|i: int| 0 <= i < notes.len() ==> (#[trigger] notes[i]).end_us <= max_end_us(notes),
    decreases notes.len(),
{
    if notes.len() > 0 {
        lemma_max_end_us(notes.drop_last());
        assert forall|i: int| 0 <= i < notes.len() implies (#[trigger] notes[i]).end_us <= max_end_us(notes) by {
            if i < notes.len() - 1 {
                assert(notes[i] == notes.drop_last()[i]);
            }
        }
    }
}

/// A new recording is sound, and each incoming message keeps it so: recorded notes keep the
/// velocity they were struck with, and end no earlier than they start.
pub proof fn law_recording_stays_sound(s: RecordingView, message: Seq<u8>, now_us: u64)
    requires
        recording_is_sound(s),
    ensures
        recording_is_sound(spec_record(s, message, now_us)),
        recording_is_sound(RecordingView {
            tracker: TrackerState { pending: Seq::empty(), notes: Seq::empty() },
            max_time_us: 0,
        }),
{
    let r = spec_record(s, message, now_us);
    match spec_note_message(message) {
        NoteMessage::On { channel, note, velocity } => {
            assert(velocity > 0);
            let p = s.tracker.pending;
            assert forall|i: int| 0 <= i < r.tracker.pending.len() implies (#[trigger] r.tracker.pending[i]).velocity > 0 by {
                if i < p.len() {
                    assert(r.tracker.pending[i] == p[i]);
                }
            }
        },
        NoteMessage::Off { channel, note } => {
            match last_open_index(s.tracker.pending, channel, note) {
                Some(k) => {
                    lemma_last_open_index_range(s.tracker.pending, channel, note);
                    let p = s.tracker.pending;
                    assert forall|i: int| 0 <= i < r.tracker.pending.len() implies (#[trigger] r.tracker.pending[i]).velocity > 0 by {
                        if i < k {
                            assert(r.tracker.pending[i] == p[i]);
                        } else {
                            assert(r.tracker.pending[i] == p[i + 1]);
                        }
                    }
                    let notes = s.tracker.notes;
                    assert forall|i: int| 0 <= i < r.tracker.notes.len() implies note_is_sound(#[trigger] r.tracker.notes[i]) by {
                        if i < notes.len() {
                            assert(r.tracker.notes[i] == notes[i]);
                        }
                    }
                },
                None => {},
            }
        },
        NoteMessage::Ignored => {},
    }
}

/// Stopping a sound recording loses no note and makes only sound notes: every finished note
/// and every held key becomes one note, and the recording lasts until the last note ends.
pub proof fn law_finished_recording(s: RecordingView, elapsed_us: u64)
    requires
        recording_is_sound(s),
    ensures
        finished_unsorted_notes(s, elapsed_us).len() == s.tracker.notes.len() + s.tracker.pending.len(),
        forall|i: int| 0 <= i < finished_unsorted_notes(s, elapsed_us).len() ==> {
            &&& note_is_sound(#[trigger] finished_unsorted_notes(s, elapsed_us)[i])
            &&& finished_unsorted_notes(s, elapsed_us)[i].end_us <= finished_duration_us(s, elapsed_us)
        },
        finished_duration_us(s, elapsed_us) >= stop_time_us(elapsed_us),
{
    let f = finished_unsorted_notes(s, elapsed_us);
    let notes = s.tracker.notes;
    let pending = s.tracker.pending;
    lemma_max_end_us(f);
    assert forall|i: int| 0 <= i < f.len() implies note_is_sound(#[trigger] f[i]) by {
        if i < notes.len() {
            assert(f[i] == notes[i]);
        } else {
            assert(pending[i - notes.len()].velocity > 0);
        }
    }
    assert forall|i: int| 0 <= i < f.len() implies (#[trigger] f[i]).end_us <= finished_duration_us(s, elapsed_us) by {
        assert(f[i].end_us <= max_end_us(f));
    }
}

/// A key struck and then released on the same MIDI channel is recorded as one note: on that
/// channel, with that key and velocity, from the note-on to the note-off; the keys held before
/// stay held.
pub proof fn law_struck_and_released_key_is_one_note(
    s: RecordingView,
    on_status: u8,
    off_status: u8,
    key: u8,
    velocity: u8,
    release: u8,
    on_us: u64,
    off_us: u64,
)
    requires
        0x90 <= on_status < 0xA0,
        0x80 <= off_status < 0x90,
        on_status % 16 == off_status % 16,
        velocity > 0,
        on_us <= off_us,
    ensures
        spec_record(spec_record(s, seq![on_status, key, velocity], on_us), seq![off_status, key, release], off_us).tracker
            == (TrackerState {
                pending: s.tracker.pending,
                notes: s.tracker.notes.push(MidiNote {
                    note: key,
                    velocity,
                    channel: (on_status % 16) as u8,
                    start_us: on_us,
                    end_us: off_us,
                }),
            }),
{
    law_note_message_keeps_the_channel(seq![on_status, key, velocity]);
    law_note_message_keeps_the_channel(seq![off_status, key, release]);
    law_note_off_closes_the_note_on(s.tracker, (on_status % 16) as u8, key, on_us, velocity, off_us);
}

} // verus!
