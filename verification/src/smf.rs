use vstd::prelude::*;
use midly::{Header, Smf, TrackEvent};
use midly::Format::SingleTrack;
use midly::Timing::Metrical as TicksPerBeat;
use midly::MetaMessage::EndOfTrack as MetaEndOfTrack;
use midly::MetaMessage::Tempo as MetaTempo;
use midly::MidiMessage::{NoteOff as MidiNoteOff, NoteOn as MidiNoteOn};
use crate::smf::SmfEventKind::{NoteOff, NoteOn, Other, Tempo};
use crate::smf::SmfTiming::{Metrical, Timecode};
use crate::smf::WrittenEventKind::{EndTrack, KeyDown, KeyUp, SetTempo};
use midly::TrackEventKind::{Meta, Midi};
use crate::notes::{MidiNote, NoteTracker, TrackerState, max_u64, sat_add_u64, spec_note_on, spec_note_off, spec_close_all};
use crate::sorting::{SortKey, key_sorted, law_stable_sort_is_permutation, stable_sort_by_key, stable_sorted};

verus! {

/// Tempo assumed until a track sets one: 120 beats per minute.
pub const DEFAULT_TEMPO_US_PER_QUARTER: u32 = 500_000;

/// A note left open at the end of a file lasts at least this long.
pub const MIN_OPEN_NOTE_US: u64 = 50_000;

/// How a Standard MIDI File measures time.
#[derive(Debug, Clone, Copy, PartialEq, Eq, Structural)]
pub enum SmfTiming {
    /// Ticks per quarter note.
    Metrical(u16),
    /// SMPTE frames; not supported for note extraction.
    Timecode,
}

/// What the note logic reads of one track event.
#[derive(Debug, Clone, Copy, PartialEq, Eq, Structural)]
pub enum SmfEventKind {
    Tempo(u32),
    /// Channel, key and velocity.
    NoteOn(u8, u8, u8),
    /// Channel and key.
    NoteOff(u8, u8),
    Other,
}

/// A track event: ticks since the previous event of its track, and what it is.
#[derive(Debug, Clone, Copy, PartialEq, Eq, Structural)]
pub struct SmfEvent {
    pub delta: u32,
    pub kind: SmfEventKind,
}

/// A parsed Standard MIDI File, as plain values.
#[derive(Debug, Clone)]
pub struct SmfData {
    pub timing: SmfTiming,
    pub tracks: Vec<Vec<SmfEvent>>,
}

pub struct SmfModel {
    pub timing: SmfTiming,
    pub tracks: Seq<Seq<SmfEvent>>,
}

impl View for SmfData {
    type V = SmfModel;

    open spec fn view(&self) -> SmfModel {
        SmfModel { timing: self.timing, tracks: self.tracks@.map_values(|t: Vec<SmfEvent>| t@) }
    }
}

/// What `midly::Smf::parse` yields for the given bytes, if they are a valid file.
pub uninterp spec fn spec_smf_parse(bytes: Seq<u8>) -> Option<SmfModel>;

/// Parses a Standard MIDI File with `midly::Smf::parse`. The contract claims only that the
/// result is the one determined by the bytes; the error message is midly's own and is not
/// described.
#[verifier::external_body]
pub(crate) fn smf_parse(bytes: &[u8]) -> (r: Result<SmfData, String>)
    ensures
        match r {
            Ok(d) => spec_smf_parse(bytes@) == Some(d@),
            Err(_) => spec_smf_parse(bytes@) is None,
        },
{
    let smf = Smf::parse(bytes).map_err(|e| e.to_string())?;
    Ok(SmfData {
        timing: match smf.header.timing { TicksPerBeat(t) => Metrical(t.as_int()), _ => Timecode },
        tracks: smf.tracks.iter().map(|t| t.iter().map(|e| SmfEvent { delta: e.delta.as_int(), kind: match e.kind {
            Meta(MetaTempo(t)) => Tempo(t.as_int()),
            Midi { channel, message: MidiNoteOn { key, vel } } => NoteOn(channel.as_int(), key.as_int(), vel.as_int()),
            Midi { channel, message: MidiNoteOff { key, .. } } => NoteOff(channel.as_int(), key.as_int()),
            _ => Other } }).collect()).collect(),
    })
}

/// Largest time increment one event can add: delta ticks times microseconds per quarter.
pub open spec fn max_step() -> int {
    u32::MAX as int * u32::MAX as int
}

/// Tempo in force and accumulated time (delta ticks times tempo, summed) after a track prefix.
pub open spec fn track_scan(events: Seq<SmfEvent>) -> (u32, int)
    decreases events.len(),
{
    if events.len() == 0 {
        (DEFAULT_TEMPO_US_PER_QUARTER, 0)
    } else {
        let (tempo, acc) = track_scan(events.drop_last());
        let e = events.last();
        let acc2 = acc + e.delta * tempo;
        match e.kind {
            SmfEventKind::Tempo(t) => (t, acc2),
            _ => (tempo, acc2),
        }
    }
}

/// The delta times of the given events added up.
pub open spec fn total_delta(events: Seq<SmfEvent>) -> int
    decreases events.len(),
{
    if events.len() == 0 {
        0
    } else {
        total_delta(events.drop_last()) + events.last().delta
    }
}

/// A tempo event sets the tempo for the rest of its track wherever it stands, at the very
/// start of the track too: after it, while no other tempo event comes, the tempo is its own,
/// and the accumulated time grows by each event's delta times that tempo. (A track that opens
/// with `Tempo(t)` at delta 0 reaches, after events with deltas d1..dk, the time
/// (d1 + .. + dk) * t.)
pub proof fn law_tempo_event_sets_the_tempo(before: Seq<SmfEvent>, delta: u32, tempo: u32, after: Seq<SmfEvent>)
    requires
        forall|i: int| 0 <= i < after.len() ==> !(#[trigger] after[i].kind is Tempo),
    ensures
        track_scan(before + seq![SmfEvent { delta, kind: SmfEventKind::Tempo(tempo) }] + after) == (
            tempo,
            track_scan(before).1 + delta * track_scan(before).0 + total_delta(after) * tempo,
        ),
    decreases after.len(),
{
    let e = SmfEvent { delta, kind: SmfEventKind::Tempo(tempo) };
    let full = before + seq![e] + after;
    if after.len() == 0 {
        assert(full.drop_last() =~= before);
        assert(full.last() == e);
    } else {
        let rest = after.drop_last();
        let last = after.last();
        assert forall|i: int| 0 <= i < rest.len() implies !(#[trigger] rest[i].kind is Tempo) by {
            assert(rest[i] == after[i]);
        }
        law_tempo_event_sets_the_tempo(before, delta, tempo, rest);
        assert(full.drop_last() =~= before + seq![e] + rest);
        assert(full.last() == last);
        assert(!(after[after.len() - 1].kind is Tempo));
        let t = total_delta(rest);
        assert((t + last.delta) * tempo == t * tempo + last.delta * tempo) by (nonlinear_arith);
    }
}

/// Microseconds denoted by an accumulated tick-tempo product, saturating at `u64::MAX`.
pub open spec fn acc_to_us(acc: int, ticks_per_quarter: u16) -> u64 {
    let us = acc / (ticks_per_quarter as int);
    if us > u64::MAX { u64::MAX } else { us as u64 }
}

/// Effect of one event, at its time, on the note pairing.
pub open spec fn apply_event(s: TrackerState, e: SmfEvent, time_us: u64) -> TrackerState {
    match e.kind {
        SmfEventKind::NoteOn(channel, key, velocity) => if velocity > 0 {
            spec_note_on(s, channel, key, time_us, velocity)
        } else {
            spec_note_off(s, channel, key, time_us)
        },
        SmfEventKind::NoteOff(channel, key) => spec_note_off(s, channel, key, time_us),
        _ => s,
    }
}

/// Pairing state after a track prefix, starting from `s0`.
pub open spec fn pair_track(events: Seq<SmfEvent>, ticks_per_quarter: u16, s0: TrackerState) -> TrackerState
    decreases events.len(),
{
    if events.len() == 0 {
        s0
    } else {
        apply_event(
            pair_track(events.drop_last(), ticks_per_quarter, s0),
            events.last(),
            acc_to_us(track_scan(events).1, ticks_per_quarter),
        )
    }
}

/// Pairing state after the given tracks, one after another; open notes carry over from one
/// track to the next.
pub open spec fn pair_tracks(tracks: Seq<Seq<SmfEvent>>, ticks_per_quarter: u16) -> TrackerState
    decreases tracks.len(),
{
    if tracks.len() == 0 {
        TrackerState { pending: Seq::empty(), notes: Seq::empty() }
    } else {
        pair_track(tracks.last(), ticks_per_quarter, pair_tracks(tracks.drop_last(), ticks_per_quarter))
    }
}

/// The largest accumulated time at the end of any track (0 for no tracks).
pub open spec fn max_track_acc(tracks: Seq<Seq<SmfEvent>>) -> int
    decreases tracks.len(),
{
    if tracks.len() == 0 {
        0
    } else {
        let a = max_track_acc(tracks.drop_last());
        let b = track_scan(tracks.last()).1;
        if a >= b { a } else { b }
    }
}

/// Length of the file's longest track, in microseconds.
pub open spec fn smf_duration_us(m: SmfModel, ticks_per_quarter: u16) -> u64 {
    acc_to_us(max_track_acc(m.tracks), ticks_per_quarter)
}

/// The notes of a file before sorting: closed notes in closing order, then notes still open
/// at the end, which last until the end of the longest track (and at least `MIN_OPEN_NOTE_US`).
pub open spec fn smf_unsorted_notes(m: SmfModel, ticks_per_quarter: u16) -> Seq<MidiNote> {
    spec_close_all(
        pair_tracks(m.tracks, ticks_per_quarter),
        smf_duration_us(m, ticks_per_quarter),
        MIN_OPEN_NOTE_US,
    ).notes
}

/// Why a file's notes cannot be extracted.
#[derive(Debug, Clone, Copy, PartialEq, Eq, Structural)]
pub enum SmfTimingError {
    /// SMPTE timecode files are not supported.
    Timecode,
    /// Metrical timing with zero ticks per quarter note.
    ZeroTicksPerQuarter,
}

proof fn lemma_track_scan_bounds(events: Seq<SmfEvent>)
    ensures
        0 <= track_scan(events).1 <= events.len() * max_step(),
    decreases events.len(),
{
    if events.len() > 0 {
        lemma_track_scan_bounds(events.drop_last());
        let (tempo, acc) = track_scan(events.drop_last());
        let d = events.last().delta;
        assert(0 <= d * tempo <= max_step()) by (nonlinear_arith)
            requires d <= u32::MAX, tempo <= u32::MAX;
        assert((events.len() - 1) * max_step() + max_step() == events.len() * max_step()) by (nonlinear_arith);
    }
}

proof fn lemma_max_track_acc_nonneg(tracks: Seq<Seq<SmfEvent>>)
    ensures
        max_track_acc(tracks) >= 0,
    decreases tracks.len(),
{
    if tracks.len() > 0 {
        lemma_max_track_acc_nonneg(tracks.drop_last());
    }
}

fn acc_to_us_exec(acc: u128, ticks_per_quarter: u16) -> (r: u64)
    requires
        ticks_per_quarter > 0,
    ensures
        r == acc_to_us(acc as int, ticks_per_quarter),
{
    let us = acc / (ticks_per_quarter as u128);
    if us > (u64::MAX as u128) { u64::MAX } else { us as u64 }
}

/// Extracts the notes and the length of a parsed file.
///
/// Times run per track from zero; a tempo event changes the tempo for the rest of its track.
/// A note-on with velocity 0 counts as a note-off. Notes come out sorted by start time, notes
/// with the same start in the order given by `smf_unsorted_notes`.
pub fn notes_from_smf(smf: &SmfData) -> (r: Result<(Vec<MidiNote>, u64), SmfTimingError>)
    ensures
        smf.timing is Timecode <==> r == Err::<(Vec<MidiNote>, u64), SmfTimingError>(SmfTimingError::Timecode),
        smf.timing == SmfTiming::Metrical(0) <==> r == Err::<(Vec<MidiNote>, u64), SmfTimingError>(SmfTimingError::ZeroTicksPerQuarter),
        r matches Ok((notes, duration)) ==> smf.timing matches SmfTiming::Metrical(tpq) && {
            &&& notes@ == stable_sorted(smf_unsorted_notes(smf@, tpq))
            &&& key_sorted(notes@)
            &&& duration == smf_duration_us(smf@, tpq)
        },
{
    let tpq = match smf.timing {
        SmfTiming::Metrical(t) => t,
        SmfTiming::Timecode => {
            return Err(SmfTimingError::Timecode);
        },
    };
    if tpq == 0 {
        return Err(SmfTimingError::ZeroTicksPerQuarter);
    }
    let ghost tracks = smf@.tracks;
    let mut tracker = NoteTracker::new();
    let mut max_acc: u128 = 0;
    let n = smf.tracks.len();
    for t in 0..n
        invariant
            n == smf.tracks.len(),
            tracks == smf@.tracks,
            tpq > 0,
            tracker@ == pair_tracks(tracks.take(t as int), tpq),
            max_acc == max_track_acc(tracks.take(t as int)),
    {
        let track = &smf.tracks[t];
        let ghost events = track@;
        assert(events == tracks[t as int]);
        let ghost s0 = tracker@;
        let mut tempo: u32 = DEFAULT_TEMPO_US_PER_QUARTER;
        let mut acc: u128 = 0;
        let m = track.len();
        for i in 0..m
            invariant
                m == events.len(),
                events == track@,
                tpq > 0,
                (tempo, acc as int) == track_scan(events.take(i as int)),
                tracker@ == pair_track(events.take(i as int), tpq, s0),
        {
            let e = track[i];
            proof {
                assert(events.take(i + 1).drop_last() =~= events.take(i as int));
                assert(events.take(i + 1).last() == e);
                lemma_track_scan_bounds(events.take(i as int));
                assert(i * max_step() + max_step() <= 0x1_0000_0000_0000_0000 * max_step()) by (nonlinear_arith)
                    requires i < 0x1_0000_0000_0000_0000int, max_step() >= 0;
                assert(0 <= e.delta * tempo <= max_step()) by (nonlinear_arith)
                    requires e.delta <= u32::MAX, tempo <= u32::MAX;
            }
            acc = acc + (e.delta as u128) * (tempo as u128);
            let time_us = acc_to_us_exec(acc, tpq);
            match e.kind {
                SmfEventKind::Tempo(new_tempo) => {
                    tempo = new_tempo;
                },
                SmfEventKind::NoteOn(channel, key, velocity) => {
                    if velocity > 0 {
                        tracker.note_on(channel, key, time_us, velocity);
                    } else {
                        tracker.note_off(channel, key, time_us);
                    }
                },
                SmfEventKind::NoteOff(channel, key) => {
                    tracker.note_off(channel, key, time_us);
                },
                SmfEventKind::Other => {},
            }
        }
        proof {
            assert(events.take(m as int) =~= events);
            assert(tracks.take(t + 1).drop_last() =~= tracks.take(t as int));
            assert(tracks.take(t + 1).last() == events);
        }
        if acc > max_acc {
            max_acc = acc;
        }
    }
    proof {
        assert(tracks.take(n as int) =~= tracks);
        lemma_max_track_acc_nonneg(tracks);
    }
    let duration_us = acc_to_us_exec(max_acc, tpq);
    tracker.close_all(duration_us, MIN_OPEN_NOTE_US);
    let sorted = stable_sort_by_key(&tracker.notes);
    Ok((sorted, duration_us))
}


/// Resolution of the files this library writes: ticks per quarter note.
pub const CLIP_TICKS_PER_QUARTER: u16 = 480;

/// A written note lasts at least this long, and so does a written clip.
pub const MIN_WRITTEN_US: u64 = 10_000;

/// The kinds of event this library writes.
#[derive(Debug, Clone, Copy, PartialEq, Eq, Structural)]
pub enum WrittenEventKind {
    /// Microseconds per quarter note.
    SetTempo(u32),
    /// Channel, key and velocity.
    KeyDown(u8, u8, u8),
    /// Channel, key and release velocity.
    KeyUp(u8, u8, u8),
    EndTrack,
}

/// An event placed on the tick grid. Events at the same tick are ordered by `order`.
#[derive(Debug, Clone, Copy, PartialEq, Eq, Structural)]
pub struct TimedEvent {
    pub tick: u32,
    pub order: u8,
    pub kind: WrittenEventKind,
}

impl SortKey for TimedEvent {
    open spec fn key_of(&self) -> u64 {
        (self.tick as u64 * 256 + self.order as u64) as u64
    }

    fn sort_key(&self) -> (k: u64) {
        self.tick as u64 * 256 + self.order as u64
    }
}

/// An event ready to be written: ticks since the previous event, and what it is.
#[derive(Debug, Clone, Copy, PartialEq, Eq, Structural)]
pub struct WrittenEvent {
    pub delta: u32,
    pub kind: WrittenEventKind,
}

/// Nearest tick (half ticks rounded up) to a time, at the default tempo and the written
/// resolution; saturates at `u32::MAX`.
pub open spec fn us_to_ticks(us: u64) -> u32 {
    let t = (us * (2 * CLIP_TICKS_PER_QUARTER as int) + DEFAULT_TEMPO_US_PER_QUARTER as int)
        / (2 * DEFAULT_TEMPO_US_PER_QUARTER as int);
    if t > u32::MAX { u32::MAX } else { t as u32 }
}

pub open spec fn min_u8(a: u8, b: u8) -> u8 {
    if a <= b { a } else { b }
}

/// The key-down written for a note: at its start tick, with channel, key and velocity kept
/// within MIDI's ranges.
pub open spec fn key_down_event(n: MidiNote) -> TimedEvent {
    TimedEvent {
        tick: us_to_ticks(n.start_us),
        order: 2,
        kind: WrittenEventKind::KeyDown(min_u8(n.channel, 15), min_u8(n.note, 127), min_u8(n.velocity, 127)),
    }
}

/// The key-up written for a note: at its end tick (lasting at least `MIN_WRITTEN_US`, and never
/// before its key-down), with release velocity 0.
pub open spec fn key_up_event(n: MidiNote) -> TimedEvent {
    let start_tick = us_to_ticks(n.start_us);
    let end_tick = us_to_ticks(max_u64(n.end_us, sat_add_u64(n.start_us, MIN_WRITTEN_US)));
    TimedEvent {
        tick: if end_tick >= start_tick { end_tick } else { start_tick },
        order: 1,
        kind: WrittenEventKind::KeyUp(min_u8(n.channel, 15), min_u8(n.note, 127), 0),
    }
}

/// A key-down and a key-up event for each note, in note order.
pub open spec fn note_timed_events(notes: Seq<MidiNote>) -> Seq<TimedEvent>
    decreases notes.len(),
{
    if notes.len() == 0 {
        Seq::empty()
    } else {
        note_timed_events(notes.drop_last()) + seq![key_down_event(notes.last()), key_up_event(notes.last())]
    }
}

/// All events of a written clip before ordering: the tempo, the notes' events, and the end.
pub open spec fn clip_timed_events(notes: Seq<MidiNote>, duration_us: u64) -> Seq<TimedEvent> {
    seq![TimedEvent { tick: 0, order: 0, kind: WrittenEventKind::SetTempo(DEFAULT_TEMPO_US_PER_QUARTER) }]
        + note_timed_events(notes)
        + seq![TimedEvent { tick: us_to_ticks(max_u64(duration_us, MIN_WRITTEN_US)), order: 255, kind: WrittenEventKind::EndTrack }]
}

/// Ordered events with each tick replaced by its distance from the previous event's tick.
pub open spec fn with_deltas(s: Seq<TimedEvent>) -> Seq<WrittenEvent> {
    Seq::new(s.len(), |i: int| WrittenEvent {
        delta: if i == 0 {
            s[0].tick
        } else if s[i].tick >= s[i - 1].tick {
            (s[i].tick - s[i - 1].tick) as u32
        } else {
            0
        },
        kind: s[i].kind,
    })
}

fn us_to_ticks_exec(us: u64) -> (r: u32)
    ensures
        r == us_to_ticks(us),
{
    let t = ((us as u128) * 960 + 500_000) / 1_000_000;
    if t > (u32::MAX as u128) { u32::MAX } else { t as u32 }
}

fn clip_timed_events_exec(notes: &Vec<MidiNote>, duration_us: u64) -> (r: Vec<TimedEvent>)
    ensures
        r@ == clip_timed_events(notes@, duration_us),
{
    let mut r: Vec<TimedEvent> = Vec::new();
    r.push(TimedEvent { tick: 0, order: 0, kind: WrittenEventKind::SetTempo(DEFAULT_TEMPO_US_PER_QUARTER) });
    let n = notes.len();
    for i in 0..n
        invariant
            n == notes.len(),
            r@ == seq![TimedEvent { tick: 0, order: 0, kind: WrittenEventKind::SetTempo(DEFAULT_TEMPO_US_PER_QUARTER) }]
                + note_timed_events(notes@.take(i as int)),
    {
        let note = notes[i];
        let channel = if note.channel <= 15 { note.channel } else { 15 };
        let key = if note.note <= 127 { note.note } else { 127 };
        let velocity = if note.velocity <= 127 { note.velocity } else { 127 };
        let start_tick = us_to_ticks_exec(note.start_us);
        let min_end = note.start_us.saturating_add(MIN_WRITTEN_US);
        let end_us = if note.end_us >= min_end { note.end_us } else { min_end };
        let end_tick = us_to_ticks_exec(end_us);
        r.push(TimedEvent { tick: start_tick, order: 2, kind: WrittenEventKind::KeyDown(channel, key, velocity) });
        r.push(TimedEvent {
            tick: if end_tick >= start_tick { end_tick } else { start_tick },
            order: 1,
            kind: WrittenEventKind::KeyUp(channel, key, 0),
        });
        proof {
            assert(notes@.take(i + 1).drop_last() =~= notes@.take(i as int));
            assert(notes@.take(i + 1).last() == note);
        }
    }
    proof {
        assert(notes@.take(n as int) =~= notes@);
    }
    let end_us = if duration_us >= MIN_WRITTEN_US { duration_us } else { MIN_WRITTEN_US };
    r.push(TimedEvent { tick: us_to_ticks_exec(end_us), order: 255, kind: WrittenEventKind::EndTrack });
    r
}

fn delta_encode(s: &Vec<TimedEvent>) -> (r: Vec<WrittenEvent>)
    ensures
        r@ == with_deltas(s@),
{
    let mut r: Vec<WrittenEvent> = Vec::new();
    let mut previous: u32 = 0;
    let n = s.len();
    for i in 0..n
        invariant
            n == s.len(),
            r@ == with_deltas(s@).take(i as int),
            i > 0 ==> previous == s@[i - 1].tick,
            i == 0 ==> previous == 0,
    {
        let e = s[i];
        let delta = if e.tick >= previous { e.tick - previous } else { 0 };
        r.push(WrittenEvent { delta, kind: e.kind });
        previous = e.tick;
        proof {
            assert(with_deltas(s@).take(i + 1) =~= with_deltas(s@).take(i as int).push(with_deltas(s@)[i as int]));
        }
    }
    proof {
        assert(with_deltas(s@).take(n as int) =~= with_deltas(s@));
    }
    r
}

/// The events of the file written for a clip: the timed events of `clip_timed_events`
/// stably ordered by (tick, order), each with its distance in ticks from the one before.
pub fn encode_clip_events(notes: &Vec<MidiNote>, duration_us: u64) -> (r: Vec<WrittenEvent>)
    ensures
        r@ == with_deltas(stable_sorted(clip_timed_events(notes@, duration_us))),
        r@.len() == 2 * notes@.len() + 2,
{
    let timed = clip_timed_events_exec(notes, duration_us);
    let ordered = stable_sort_by_key(&timed);
    proof {
        lemma_note_timed_events_len(notes@);
        law_stable_sort_is_permutation(ordered@, timed@);
        ordered@.to_multiset_ensures();
        timed@.to_multiset_ensures();
    }
    delta_encode(&ordered)
}

proof fn lemma_note_timed_events_len(notes: Seq<MidiNote>)
    ensures
        note_timed_events(notes).len() == 2 * notes.len(),
    decreases notes.len(),
{
    if notes.len() > 0 {
        lemma_note_timed_events_len(notes.drop_last());
    }
}

/// The bytes `midly::Smf::write_std` produces for a single-track file of these events.
pub uninterp spec fn spec_smf_write(events: Seq<WrittenEvent>, ticks_per_quarter: u16) -> Seq<u8>;

/// What a parse of a written file reads back for one written event (a key-up's release
/// velocity is not kept).
pub open spec fn parsed_event(e: WrittenEvent) -> SmfEvent {
    SmfEvent {
        delta: e.delta,
        kind: match e.kind {
            WrittenEventKind::SetTempo(t) => SmfEventKind::Tempo(t),
            WrittenEventKind::KeyDown(c, k, v) => SmfEventKind::NoteOn(c, k, v),
            WrittenEventKind::KeyUp(c, k, _) => SmfEventKind::NoteOff(c, k),
            WrittenEventKind::EndTrack => SmfEventKind::Other,
        },
    }
}

/// The events a parse of a written track reads back.
pub open spec fn parsed_track(events: Seq<WrittenEvent>) -> Seq<SmfEvent> {
    events.map_values(|e: WrittenEvent| parsed_event(e))
}

/// Every field of the event fits the width the file format gives it: 28 bits of delta time,
/// 24 bits of tempo, 4 bits of channel and 7 bits of key and velocity.
pub open spec fn event_fits(e: WrittenEvent) -> bool {
    &&& e.delta < 0x1000_0000
    &&& match e.kind {
        WrittenEventKind::SetTempo(t) => t < 0x100_0000,
        WrittenEventKind::KeyDown(c, k, v) => c < 16 && k < 128 && v < 128,
        WrittenEventKind::KeyUp(c, k, v) => c < 16 && k < 128 && v < 128,
        WrittenEventKind::EndTrack => true,
    }
}

/// Every event fits the file format.
pub open spec fn events_fit(events: Seq<WrittenEvent>) -> bool {
    forall|i: int| 0 <= i < events.len() ==> #[trigger] event_fits(events[i])
}

/// The file a parse reads back from a written single-track file: metrical timing with the
/// written resolution, and one track of the written events.
pub open spec fn written_file_model(events: Seq<WrittenEvent>, ticks_per_quarter: u16) -> SmfModel {
    SmfModel { timing: SmfTiming::Metrical(ticks_per_quarter), tracks: seq![parsed_track(events)] }
}

/// Most events one written file may hold for midly to be sure to write it.
pub const MAX_WRITTEN_EVENTS: usize = 100_000_000;

/// Writes a single-track Standard MIDI File with `midly::Smf::write_std`, appending it to
/// `out`. The contract claims that on success the appended bytes are the ones determined by
/// the events and the resolution, and that writing succeeds for at most `MAX_WRITTEN_EVENTS`
/// events: midly's documentation says its writer fails only when the underlying writer fails
/// (a `Vec` never does) or beyond the format's limits (more than 65535 tracks, an event of
/// 256 MB or more, a track of 4 GB or more), and each event written here takes at most 10
/// bytes, so such a track stays under 1 GB. When writing fails, what `out` then holds, and
/// midly's error text, are left unsaid.
///
/// It also claims that `midly::Smf::parse` reads such a file back as written, when the
/// resolution fits 15 bits and every field fits the width the format gives it: the writer
/// puts out the header (format 0, one track, the resolution) and each event as delta time and
/// message (running status only drops a repeated status byte), and the parser reads the same
/// header, and each event of the track chunk in turn, back into the same values.
#[verifier::external_body]
pub(crate) fn smf_write(events: &Vec<WrittenEvent>, ticks_per_quarter: u16, out: &mut Vec<u8>) -> (r: Result<(), String>)
    ensures
        r is Ok ==> final(out)@ == old(out)@ + spec_smf_write(events@, ticks_per_quarter),
        events@.len() <= MAX_WRITTEN_EVENTS ==> r is Ok,
        r is Ok && ticks_per_quarter < 0x8000 && events_fit(events@) ==>
            spec_smf_parse(spec_smf_write(events@, ticks_per_quarter)) == Some(written_file_model(events@, ticks_per_quarter)),
{
    Smf { header: Header::new(SingleTrack, TicksPerBeat(ticks_per_quarter.into())), tracks: vec![
        events.iter().map(|e| TrackEvent { delta: e.delta.into(), kind: match e.kind {
            SetTempo(t) => Meta(MetaTempo(t.into())),
            KeyDown(c, k, v) => Midi { channel: c.into(), message: MidiNoteOn { key: k.into(), vel: v.into() } },
            KeyUp(c, k, v) => Midi { channel: c.into(), message: MidiNoteOff { key: k.into(), vel: v.into() } },
            EndTrack => Meta(MetaEndOfTrack) } }).collect()] }.write_std(out).map_err(|e| e.to_string())
}

} // verus!
