use vstd::prelude::*;
use crate::mixer::{min_int, max_int};

verus! {

/// The frames a prepared note covers: it starts at `start_frame` and has died away by
/// `end_frame` (its release included).
#[derive(Debug, Clone, Copy, PartialEq, Eq, Structural)]
pub struct NoteSpan {
    pub start_frame: usize,
    pub end_frame: usize,
}

/// Which notes of a prepared MIDI track the built-in synthesizer is playing while it renders
/// the track chunk by chunk: notes before `next_note_index` have been started, and
/// `active_note_indices` lists those still sounding.
#[derive(Debug)]
pub struct BasicMidiPlaybackState {
    pub next_note_index: usize,
    pub active_note_indices: Vec<usize>,
}

impl Default for BasicMidiPlaybackState {
    fn default() -> (r: Self)
        ensures
            r.next_note_index == 0,
            r.active_note_indices@.len() == 0,
    {
        BasicMidiPlaybackState { next_note_index: 0, active_note_indices: Vec::new() }
    }
}

/// The end of the chunk of `frame_count` frames from `chunk_start` (saturating).
pub open spec fn chunk_end(chunk_start: usize, frame_count: usize) -> int {
    min_int(chunk_start + frame_count, usize::MAX as int)
}

/// The notes of `active` still sounding at `chunk_start`, in their order.
pub open spec fn still_sounding(notes: Seq<NoteSpan>, active: Seq<usize>, chunk_start: usize) -> Seq<usize>
    decreases active.len(),
{
    if active.len() == 0 {
        Seq::empty()
    } else {
        let rest = still_sounding(notes, active.drop_last(), chunk_start);
        if notes[active.last() as int].end_frame > chunk_start {
            rest.push(active.last())
        } else {
            rest
        }
    }
}

/// The index of the first note from `from` on that starts at or after `end`, or the number
/// of notes if there is none.
pub open spec fn first_starting_from(notes: Seq<NoteSpan>, from: int, end: int) -> int
    decreases notes.len() - from,
{
    if from < 0 || from >= notes.len() {
        from
    } else if notes[from].start_frame < end {
        first_starting_from(notes, from + 1, end)
    } else {
        from
    }
}

/// The indices from `from` up to `to` of notes still sounding at `chunk_start`, in order.
pub open spec fn started_sounding(notes: Seq<NoteSpan>, from: int, to: int, chunk_start: usize) -> Seq<usize>
    decreases to - from,
{
    if to <= from {
        Seq::empty()
    } else {
        let rest = started_sounding(notes, from, to - 1, chunk_start);
        if notes[to - 1].end_frame > chunk_start {
            rest.push((to - 1) as usize)
        } else {
            rest
        }
    }
}

/// The playback state after preparing the chunk of `frame_count` frames from `chunk_start`:
/// notes that have died away are dropped, and the notes starting before the chunk ends are
/// started, those still sounding at its start joining the active ones.
pub open spec fn spec_advance(
    notes: Seq<NoteSpan>,
    next: usize,
    active: Seq<usize>,
    chunk_start: usize,
    frame_count: usize,
) -> (usize, Seq<usize>) {
    let new_next = first_starting_from(notes, next as int, chunk_end(chunk_start, frame_count));
    (new_next as usize, still_sounding(notes, active, chunk_start) + started_sounding(notes, next as int, new_next, chunk_start))
}

/// Every active note is a note of the track.
pub open spec fn indices_valid(active: Seq<usize>, note_count: nat) -> bool {
    forall|k: int| 0 <= k < active.len() ==> #[trigger] active[k] < note_count
}

proof fn lemma_first_starting_from_bounds(notes: Seq<NoteSpan>, from: int, end: int)
    requires
        0 <= from,
    ensures
        from <= first_starting_from(notes, from, end),
        from <= notes.len() ==> first_starting_from(notes, from, end) <= notes.len(),
        forall|k: int| from <= k < first_starting_from(notes, from, end) ==> #[trigger] notes[k].start_frame < end,
        first_starting_from(notes, from, end) < notes.len() ==> notes[first_starting_from(notes, from, end)].start_frame >= end,
    decreases notes.len() - from,
{
    if from < notes.len() && notes[from].start_frame < end {
        lemma_first_starting_from_bounds(notes, from + 1, end);
    }
}

proof fn lemma_still_sounding_members(notes: Seq<NoteSpan>, active: Seq<usize>, chunk_start: usize, x: usize)
    ensures
        still_sounding(notes, active, chunk_start).contains(x) <==> (active.contains(x)
            && notes[x as int].end_frame > chunk_start),
    decreases active.len(),
{
    if active.len() > 0 {
        let init = active.drop_last();
        let last = active.last();
        let rest = still_sounding(notes, init, chunk_start);
        lemma_still_sounding_members(notes, init, chunk_start, x);
        assert(active =~= init.push(last));
        if active.contains(x) && x != last {
            let k = choose|k: int| 0 <= k < active.len() && active[k] == x;
            assert(init[k] == x);
        }
        if init.contains(x) {
            let k = choose|k: int| 0 <= k < init.len() && init[k] == x;
            assert(active[k] == x);
        }
        assert(active[active.len() - 1] == last);
        if notes[last as int].end_frame > chunk_start {
            let pushed = rest.push(last);
            assert(pushed[rest.len() as int] == last);
            if pushed.contains(x) && x != last {
                let k = choose|k: int| 0 <= k < pushed.len() && pushed[k] == x;
                assert(rest[k] == x);
            }
            if rest.contains(x) {
                let k = choose|k: int| 0 <= k < rest.len() && rest[k] == x;
                assert(pushed[k] == x);
            }
        }
    }
}

proof fn lemma_started_sounding_members(notes: Seq<NoteSpan>, from: int, to: int, chunk_start: usize, x: usize)
    requires
        0 <= from,
        to <= usize::MAX + 1,
    ensures
        started_sounding(notes, from, to, chunk_start).contains(x) <==> (from <= x < to
            && notes[x as int].end_frame > chunk_start),
    decreases to - from,
{
    if to > from {
        lemma_started_sounding_members(notes, from, to - 1, chunk_start, x);
        let rest = started_sounding(notes, from, to - 1, chunk_start);
        if notes[to - 1].end_frame > chunk_start {
            let pushed = rest.push((to - 1) as usize);
            assert(pushed[rest.len() as int] == (to - 1) as usize);
            if pushed.contains(x) && x != to - 1 {
                let k = choose|k: int| 0 <= k < pushed.len() && pushed[k] == x;
                assert(rest[k] == x);
            }
            if rest.contains(x) {
                let k = choose|k: int| 0 <= k < rest.len() && rest[k] == x;
                assert(pushed[k] == x);
            }
        }
    }
}

proof fn lemma_still_sounding_valid(notes: Seq<NoteSpan>, active: Seq<usize>, chunk_start: usize)
    requires
        indices_valid(active, notes.len()),
    ensures
        indices_valid(still_sounding(notes, active, chunk_start), notes.len()),
    decreases active.len(),
{
    if active.len() > 0 {
        let init = active.drop_last();
        assert forall|k: int| 0 <= k < init.len() implies #[trigger] init[k] < notes.len() by {
            assert(init[k] == active[k]);
        }
        lemma_still_sounding_valid(notes, init, chunk_start);
        assert(active[active.len() - 1] < notes.len());
    }
}

impl BasicMidiPlaybackState {
    /// A state before the first chunk: no note started yet.
    pub fn new() -> (r: Self)
        ensures
            r.next_note_index == 0,
            r.active_note_indices@.len() == 0,
    {
        BasicMidiPlaybackState { next_note_index: 0, active_note_indices: Vec::new() }
    }

    /// Prepares the chunk of `frame_count` frames from `chunk_start`: drops the active notes
    /// that have died away by then, and starts every further note that begins before the
    /// chunk ends, keeping it active if it still sounds at the chunk's start.
    pub fn advance(&mut self, notes: &Vec<NoteSpan>, chunk_start: usize, frame_count: usize)
        requires
            indices_valid(old(self).active_note_indices@, notes@.len()),
        ensures
            (final(self).next_note_index, final(self).active_note_indices@) == spec_advance(
                notes@,
                old(self).next_note_index,
                old(self).active_note_indices@,
                chunk_start,
                frame_count,
            ),
            indices_valid(final(self).active_note_indices@, notes@.len()),
    {
        let end = chunk_start.saturating_add(frame_count);
        let ghost old_active = self.active_note_indices@;
        let ghost old_next = self.next_note_index;
        let mut kept: Vec<usize> = Vec::new();
        let count = self.active_note_indices.len();
        for k in 0..count
            invariant
                count == self.active_note_indices@.len(),
                self.active_note_indices@ == old_active,
                indices_valid(old_active, notes@.len()),
                kept@ == still_sounding(notes@, old_active.take(k as int), chunk_start),
        {
            let idx = self.active_note_indices[k];
            proof {
                assert(old_active.take(k + 1).drop_last() =~= old_active.take(k as int));
                assert(old_active.take(k + 1).last() == idx);
            }
            if notes[idx].end_frame > chunk_start {
                kept.push(idx);
            }
        }
        proof {
            assert(old_active.take(count as int) =~= old_active);
            lemma_still_sounding_valid(notes@, old_active, chunk_start);
        }
        let ghost retained = kept@;
        while self.next_note_index < notes.len() && notes[self.next_note_index].start_frame < end
            invariant
                end == chunk_end(chunk_start, frame_count),
                old_next <= self.next_note_index,
                old_next < notes@.len() ==> self.next_note_index <= notes@.len(),
                old_next >= notes@.len() ==> self.next_note_index == old_next,
                first_starting_from(notes@, old_next as int, end as int) == first_starting_from(
                    notes@,
                    self.next_note_index as int,
                    end as int,
                ),
                kept@ == retained + started_sounding(notes@, old_next as int, self.next_note_index as int, chunk_start),
                indices_valid(retained, notes@.len()),
                indices_valid(kept@, notes@.len()),
            decreases notes.len() - self.next_note_index,
        {
            let idx = self.next_note_index;
            if notes[idx].end_frame > chunk_start {
                kept.push(idx);
                proof {
                    assert(kept@ =~= retained + started_sounding(notes@, old_next as int, idx + 1, chunk_start));
                }
            } else {
                proof {
                    assert(kept@ =~= retained + started_sounding(notes@, old_next as int, idx + 1, chunk_start));
                }
            }
            self.next_note_index = idx + 1;
        }
        proof {
            assert(first_starting_from(notes@, self.next_note_index as int, end as int) == self.next_note_index);
        }
        self.active_note_indices = kept;
    }
}

/// Notes are ordered by the frame they start at.
pub open spec fn spans_sorted(notes: Seq<NoteSpan>) -> bool {
    forall|i: int, j: int| 0 <= i <= j < notes.len() ==> #[trigger] notes[i].start_frame <= #[trigger] notes[j].start_frame
}

/// The state has not lost a note: every started note that still sounds at `frame` is active.
pub open spec fn tracks_sounding_notes(notes: Seq<NoteSpan>, next: usize, active: Seq<usize>, frame: usize) -> bool {
    forall|i: int| 0 <= i < next && i < notes.len() && notes[i].end_frame > frame ==> active.contains(#[trigger] (i as usize))
}

/// With the notes in start order, preparing a chunk keeps the renderer complete: if before
/// the call every started note still sounding at the chunk's start was active, then after
/// it every note that sounds during the chunk is active, the state is again complete for
/// any later chunk start, and every active note does sound during or after the chunk.
pub proof fn law_advance_plays_every_sounding_note(
    notes: Seq<NoteSpan>,
    next: usize,
    active: Seq<usize>,
    chunk_start: usize,
    frame_count: usize,
    later_start: usize,
)
    requires
        notes.len() <= usize::MAX,
        spans_sorted(notes),
        tracks_sounding_notes(notes, next, active, chunk_start),
        chunk_start <= later_start,
    ensures
        ({
            let (new_next, new_active) = spec_advance(notes, next, active, chunk_start, frame_count);
            &&& forall|i: int| 0 <= i < notes.len() && notes[i].start_frame < chunk_end(chunk_start, frame_count)
                && notes[i].end_frame > chunk_start ==> new_active.contains(#[trigger] (i as usize))
            &&& tracks_sounding_notes(notes, new_next, new_active, later_start)
            &&& forall|k: int| 0 <= k < new_active.len() ==> notes[#[trigger] new_active[k] as int].end_frame > chunk_start
        }),
{
    let end = chunk_end(chunk_start, frame_count);
    let (new_next, new_active) = spec_advance(notes, next, active, chunk_start, frame_count);
    lemma_first_starting_from_bounds(notes, next as int, end);
    let nn = first_starting_from(notes, next as int, end);
    let kept = still_sounding(notes, active, chunk_start);
    let started = started_sounding(notes, next as int, nn, chunk_start);
    assert(new_active == kept + started);
    assert(nn == next || nn <= notes.len());
    assert(new_next == nn);
    assert forall|x: usize| new_active.contains(x) <==> (kept.contains(x) || started.contains(x)) by {
        if new_active.contains(x) {
            let k = choose|k: int| 0 <= k < new_active.len() && new_active[k] == x;
            if k < kept.len() {
                assert(kept[k] == x);
            } else {
                assert(started[k - kept.len()] == x);
            }
        }
        if kept.contains(x) {
            let k = choose|k: int| 0 <= k < kept.len() && kept[k] == x;
            assert(new_active[k] == x);
        }
        if started.contains(x) {
            let k = choose|k: int| 0 <= k < started.len() && started[k] == x;
            assert(new_active[kept.len() + k] == x);
        }
    }
    assert forall|i: int| 0 <= i < notes.len() && notes[i].start_frame < end && notes[i].end_frame > chunk_start
        implies new_active.contains(#[trigger] (i as usize)) by {
        lemma_still_sounding_members(notes, active, chunk_start, i as usize);
        lemma_started_sounding_members(notes, next as int, nn, chunk_start, i as usize);
        if i >= next {
            if nn <= i {
                if nn < notes.len() {
                    assert(notes[nn].start_frame <= notes[i].start_frame);
                }
            }
        }
    }
    assert forall|i: int| 0 <= i < new_next && i < notes.len() && notes[i].end_frame > later_start
        implies new_active.contains(#[trigger] (i as usize)) by {
        lemma_still_sounding_members(notes, active, chunk_start, i as usize);
        lemma_started_sounding_members(notes, next as int, nn, chunk_start, i as usize);
    }
    assert forall|k: int| 0 <= k < new_active.len() implies notes[#[trigger] new_active[k] as int].end_frame > chunk_start by {
        let x = new_active[k];
        assert(new_active.contains(x));
        lemma_still_sounding_members(notes, active, chunk_start, x);
        lemma_started_sounding_members(notes, next as int, nn, chunk_start, x);
    }
}

/// The frames of a chunk during which a note sounds: from the later of the two starts to the
/// earlier of the two ends; empty when they do not meet.
pub open spec fn spec_note_chunk_frames(note: NoteSpan, chunk_start: usize, frame_count: usize) -> (int, int) {
    (max_int(note.start_frame as int, chunk_start as int), min_int(note.end_frame as int, chunk_end(chunk_start, frame_count)))
}

/// The frames `[from, to)` of the chunk that a note contributes to (`from >= to` when none).
pub fn note_chunk_frames(note: &NoteSpan, chunk_start: usize, frame_count: usize) -> (r: (usize, usize))
    ensures
        (r.0 as int, r.1 as int) == spec_note_chunk_frames(*note, chunk_start, frame_count),
{
    let end = chunk_start.saturating_add(frame_count);
    let from = if note.start_frame >= chunk_start { note.start_frame } else { chunk_start };
    let to = if note.end_frame <= end { note.end_frame } else { end };
    (from, to)
}

/// Frame `f` is one of the note's frames and one of the chunk's.
pub open spec fn in_note_and_chunk(note: NoteSpan, chunk_start: usize, frame_count: usize, f: int) -> bool {
    note.start_frame <= f < note.end_frame && chunk_start <= f < chunk_start + frame_count
}

/// The frames a note contributes to a chunk are exactly those that both the note and the
/// chunk cover: they start no earlier than either, end no later than either, and every frame
/// of both lies among them.
pub proof fn law_note_chunk_frames_are_the_overlap(note: NoteSpan, chunk_start: usize, frame_count: usize)
    requires
        chunk_start + frame_count <= usize::MAX,
    ensures
        ({
            let (from, to) = spec_note_chunk_frames(note, chunk_start, frame_count);
            &&& from >= note.start_frame
            &&& from >= chunk_start
            &&& to <= note.end_frame
            &&& to <= chunk_start + frame_count
            &&& forall|f: int| #[trigger] in_note_and_chunk(note, chunk_start, frame_count, f) ==> from <= f < to
        }),
{
}

} // verus!
