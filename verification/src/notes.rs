use vstd::prelude::*;
use crate::sorting::SortKey;

verus! {

/// A note with its timing in microseconds from the start of its clip.
#[derive(Debug, Clone, Copy, PartialEq, Eq, Structural)]
pub struct MidiNote {
    pub note: u8,
    pub velocity: u8,
    pub channel: u8,
    pub start_us: u64,
    pub end_us: u64,
}

impl SortKey for MidiNote {
    open spec fn key_of(&self) -> u64 {
        self.start_us
    }

    fn sort_key(&self) -> (k: u64) {
        self.start_us
    }
}

/// A note that has been switched on and not yet switched off.
#[derive(Debug, Clone, Copy, PartialEq, Eq, Structural)]
pub struct PendingNote {
    pub channel: u8,
    pub note: u8,
    pub start_us: u64,
    pub velocity: u8,
}

/// Pairs note-on with note-off messages. For each (channel, note) the open notes form a
/// stack: a note-off closes the most recently opened note of that key.
///
/// The open notes are kept in one list in the order they were opened rather than in a map
/// keyed by (channel, note): `close_all` finishes the notes still open in list order, which
/// is then the same on every run and stated by its contract, whereas walking a hash map
/// would finish them in an order that its per-process seed decides.
#[derive(Debug)]
pub struct NoteTracker {
    pub pending: Vec<PendingNote>,
    pub notes: Vec<MidiNote>,
}

/// The abstract state of a tracker: the open notes in opening order, and the finished notes
/// in the order they were closed.
pub struct TrackerState {
    pub pending: Seq<PendingNote>,
    pub notes: Seq<MidiNote>,
}

impl View for NoteTracker {
    type V = TrackerState;

    open spec fn view(&self) -> TrackerState {
        TrackerState { pending: self.pending@, notes: self.notes@ }
    }
}

pub open spec fn max_u64(a: u64, b: u64) -> u64 {
    if a >= b { a } else { b }
}

pub open spec fn sat_add_u64(a: u64, b: u64) -> u64 {
    if a + b > u64::MAX { u64::MAX } else { (a + b) as u64 }
}

/// Index of the most recently opened note of the given key, if any is open.
pub open spec fn last_open_index(pending: Seq<PendingNote>, channel: u8, note: u8) -> Option<int>
    decreases pending.len(),
{
    if pending.len() == 0 {
        None
    } else if pending.last().channel == channel && pending.last().note == note {
        Some(pending.len() - 1)
    } else {
        last_open_index(pending.drop_last(), channel, note)
    }
}

/// The finished note made from an open note closed at `end_us` (never before it started).
pub open spec fn closed_note(p: PendingNote, end_us: u64) -> MidiNote {
    MidiNote {
        note: p.note,
        velocity: p.velocity,
        channel: p.channel,
        start_us: p.start_us,
        end_us: max_u64(end_us, p.start_us),
    }
}

pub open spec fn spec_note_on(s: TrackerState, channel: u8, note: u8, time_us: u64, velocity: u8) -> TrackerState {
    TrackerState {
        pending: s.pending.push(PendingNote { channel, note, start_us: time_us, velocity }),
        notes: s.notes,
    }
}

pub open spec fn spec_note_off(s: TrackerState, channel: u8, note: u8, time_us: u64) -> TrackerState {
    match last_open_index(s.pending, channel, note) {
        Some(i) => TrackerState {
            pending: s.pending.remove(i),
            notes: s.notes.push(closed_note(s.pending[i], time_us)),
        },
        None => s,
    }
}

/// The note that an open note becomes when the input ends without closing it: it lasts until
/// `floor_us`, and at least `min_len_us`.
pub open spec fn leftover_note(p: PendingNote, floor_us: u64, min_len_us: u64) -> MidiNote {
    closed_note(p, max_u64(floor_us, sat_add_u64(p.start_us, min_len_us)))
}

pub open spec fn spec_close_all(s: TrackerState, floor_us: u64, min_len_us: u64) -> TrackerState {
    TrackerState {
        pending: Seq::empty(),
        notes: s.notes + s.pending.map_values(|p: PendingNote| leftover_note(p, floor_us, min_len_us)),
    }
}

/// The most recently opened note of a key is an open note of that key, and no note of that
/// key was opened after it; when there is none, no open note has that key.
pub proof fn lemma_last_open_index(pending: Seq<PendingNote>, channel: u8, note: u8)
    ensures
        match last_open_index(pending, channel, note) {
            Some(i) => 0 <= i < pending.len() && pending[i].channel == channel && pending[i].note == note
                && forall|j: int| i < j < pending.len() ==> !(#[trigger] pending[j].channel == channel && pending[j].note == note),
            None => forall|j: int| 0 <= j < pending.len() ==> !(#[trigger] pending[j].channel == channel && pending[j].note == note),
        },
    decreases pending.len(),
{
    if pending.len() > 0 {
        let init = pending.drop_last();
        lemma_last_open_index(init, channel, note);
        assert forall|j: int| 0 <= j < init.len() implies #[trigger] init[j] == pending[j] by {}
        let last_matches = pending.last().channel == channel && pending.last().note == note;
        if !last_matches {
            match last_open_index(init, channel, note) {
                Some(i) => {
                    assert forall|j: int| i < j < pending.len() implies !(#[trigger] pending[j].channel == channel && pending[j].note == note) by {
                        if j < init.len() {
                            assert(init[j] == pending[j]);
                        }
                    }
                },
                None => {
                    assert forall|j: int| 0 <= j < pending.len() implies !(#[trigger] pending[j].channel == channel && pending[j].note == note) by {
                        if j < init.len() {
                            assert(init[j] == pending[j]);
                        }
                    }
                },
            }
        }
    }
}

/// The most recently opened note of a key is one of the open notes.
pub proof fn lemma_last_open_index_range(pending: Seq<PendingNote>, channel: u8, note: u8)
    ensures
        last_open_index(pending, channel, note) matches Some(i) ==> 0 <= i < pending.len(),
{
    lemma_last_open_index(pending, channel, note);
}

/// A note-off undoes the note-on just before it: the key is open no more, and the tracker
/// gains exactly the note struck, with its velocity, from the note-on to the note-off.
pub proof fn law_note_off_closes_the_note_on(s: TrackerState, channel: u8, note: u8, on_us: u64, velocity: u8, off_us: u64)
    ensures
        spec_note_off(spec_note_on(s, channel, note, on_us, velocity), channel, note, off_us) == (TrackerState {
            pending: s.pending,
            notes: s.notes.push(MidiNote {
                note,
                velocity,
                channel,
                start_us: on_us,
                end_us: max_u64(off_us, on_us),
            }),
        }),
{
    let pushed = s.pending.push(PendingNote { channel, note, start_us: on_us, velocity });
    assert(pushed.remove(s.pending.len() as int) =~= s.pending);
}

impl NoteTracker {
    pub fn new() -> (r: NoteTracker)
        ensures
            r@.pending == Seq::<PendingNote>::empty(),
            r@.notes == Seq::<MidiNote>::empty(),
    {
        NoteTracker { pending: Vec::new(), notes: Vec::new() }
    }

    /// Opens a note.
    pub fn note_on(&mut self, channel: u8, note: u8, time_us: u64, velocity: u8)
        ensures
            final(self)@ == spec_note_on(old(self)@, channel, note, time_us, velocity),
    {
        self.pending.push(PendingNote { channel, note, start_us: time_us, velocity });
    }

    /// Closes the most recently opened note of this key; does nothing when none is open.
    pub fn note_off(&mut self, channel: u8, note: u8, time_us: u64)
        ensures
            final(self)@ == spec_note_off(old(self)@, channel, note, time_us),
    {
        proof {
            lemma_last_open_index(self.pending@, channel, note);
        }
        let n = self.pending.len();
        let mut i = n;
        while i > 0
            invariant
                i <= n,
                n == self.pending.len(),
                self@ == old(self)@,
                forall|j: int| i <= j < n ==> !(#[trigger] self.pending@[j].channel == channel && self.pending@[j].note == note),
            decreases i,
        {
            let p = self.pending[i - 1];
            if p.channel == channel && p.note == note {
                proof {
                    lemma_last_open_index(self.pending@, channel, note);
                    let k = last_open_index(self.pending@, channel, note);
                    assert(k == Some((i - 1) as int)) by {
                        match k {
                            Some(kk) => {
                                if kk < i - 1 {
                                    assert(self.pending@[i - 1].channel == channel && self.pending@[i - 1].note == note);
                                } else if kk > i - 1 {
                                    assert(self.pending@[kk].channel == channel && self.pending@[kk].note == note);
                                }
                            },
                            None => {
                                assert(self.pending@[i - 1].channel == channel && self.pending@[i - 1].note == note);
                            },
                        }
                    }
                }
                self.pending.remove(i - 1);
                let end_us = if time_us >= p.start_us { time_us } else { p.start_us };
                self.notes.push(MidiNote {
                    note: p.note,
                    velocity: p.velocity,
                    channel: p.channel,
                    start_us: p.start_us,
                    end_us,
                });
                return;
            }
            i = i - 1;
        }
        proof {
            let k = last_open_index(self.pending@, channel, note);
            if let Some(kk) = k {
                assert(self.pending@[kk].channel == channel && self.pending@[kk].note == note);
            }
        }
    }

    /// Closes every open note, in opening order, as `leftover_note` describes.
    pub fn close_all(&mut self, floor_us: u64, min_len_us: u64)
        ensures
            final(self)@ == spec_close_all(old(self)@, floor_us, min_len_us),
    {
        let n = self.pending.len();
        let ghost old_notes = self.notes@;
        let ghost old_pending = self.pending@;
        for i in 0..n
            invariant
                n == self.pending.len(),
                self.pending@ == old_pending,
                self.notes@ == old_notes + old_pending.take(i as int).map_values(
                    |p: PendingNote| leftover_note(p, floor_us, min_len_us),
                ),
        {
            let p = self.pending[i];
            let min_end = p.start_us.saturating_add(min_len_us);
            let end_us = if floor_us >= min_end { floor_us } else { min_end };
            let end_us = if end_us >= p.start_us { end_us } else { p.start_us };
            self.notes.push(MidiNote {
                note: p.note,
                velocity: p.velocity,
                channel: p.channel,
                start_us: p.start_us,
                end_us,
            });
            proof {
                assert(old_pending.take(i + 1) =~= old_pending.take(i as int).push(p));
                assert(old_pending.take(i + 1).map_values(|p: PendingNote| leftover_note(p, floor_us, min_len_us))
                    =~= old_pending.take(i as int).map_values(|p: PendingNote| leftover_note(p, floor_us, min_len_us)).push(
                        leftover_note(p, floor_us, min_len_us)));
            }
        }
        proof {
            assert(old_pending.take(n as int) =~= old_pending);
        }
        self.pending = Vec::new();
    }
}

} // verus!
