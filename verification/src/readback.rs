use vstd::prelude::*;
use vstd::arithmetic::div_mod::lemma_div_is_ordered;
use crate::notes::{MidiNote, PendingNote, TrackerState, max_u64, law_note_off_closes_the_note_on};
use crate::smf::{
    CLIP_TICKS_PER_QUARTER, DEFAULT_TEMPO_US_PER_QUARTER, MIN_WRITTEN_US, SmfEvent, SmfEventKind, SmfModel,
    TimedEvent, WrittenEventKind, acc_to_us, apply_event, clip_timed_events, event_fits, events_fit,
    key_down_event, key_up_event, max_track_acc, note_timed_events, pair_track, pair_tracks,
    parsed_event, parsed_track, smf_duration_us, smf_unsorted_notes, track_scan, us_to_ticks,
    with_deltas, written_file_model,
};
use crate::sorting::{SortKey, key_sorted, law_stable_sort_is_permutation, lemma_sorted_is_own_stable_sort, lemma_stable_sort_exists, stable_sorted};

verus! {

/// The time a reader gives a tick of a written clip: 480 ticks per quarter note at 120 beats
/// per minute, rounded down to a microsecond.
pub open spec fn tick_time_us(tick: u32) -> u64 {
    acc_to_us(tick * DEFAULT_TEMPO_US_PER_QUARTER, CLIP_TICKS_PER_QUARTER)
}

/// A note as a clip file holds it: its start and its end moved to the ticks they are written at.
pub open spec fn on_tick_grid(n: MidiNote) -> MidiNote {
    MidiNote {
        note: n.note,
        velocity: n.velocity,
        channel: n.channel,
        start_us: tick_time_us(key_down_event(n).tick),
        end_us: tick_time_us(key_up_event(n).tick),
    }
}

/// Each note on the tick grid, in the same order.
pub open spec fn notes_on_tick_grid(notes: Seq<MidiNote>) -> Seq<MidiNote> {
    notes.map_values(|n: MidiNote| on_tick_grid(n))
}

/// A note that a clip file holds as it is: its channel, key and velocity are within MIDI's
/// ranges, it is struck (velocity at least 1), and it lasts at least `MIN_WRITTEN_US`.
pub open spec fn note_writable(n: MidiNote) -> bool {
    &&& n.channel <= 15
    &&& n.note <= 127
    &&& 1 <= n.velocity <= 127
    &&& n.start_us + MIN_WRITTEN_US <= n.end_us
}

/// Notes that sound one after another: each is writable, and on the tick grid each ends no
/// later than any later note starts.
pub open spec fn one_after_another(notes: Seq<MidiNote>) -> bool {
    &&& forall|i: int| 0 <= i < notes.len() ==> #[trigger] note_writable(notes[i])
    &&& forall|i: int, j: int| 0 <= i < j < notes.len()
        ==> #[trigger] key_up_event(notes[i]).tick <= #[trigger] key_down_event(notes[j]).tick
}

/// No note ends after `duration_us`.
pub open spec fn ends_within(notes: Seq<MidiNote>, duration_us: u64) -> bool {
    forall|i: int| 0 <= i < notes.len() ==> #[trigger] notes[i].end_us <= duration_us
}

/// The tick at which a written clip of this length ends.
pub open spec fn end_tick(duration_us: u64) -> u32 {
    us_to_ticks(max_u64(duration_us, MIN_WRITTEN_US))
}

/// A clip length whose end tick fits the 28 bits a file gives an event's delta time.
pub open spec fn within_tick_range(duration_us: u64) -> bool {
    end_tick(duration_us) < 0x1000_0000
}

/// The events a parse reads back from the file written for a clip.
pub open spec fn read_back_model(notes: Seq<MidiNote>, duration_us: u64) -> SmfModel {
    written_file_model(with_deltas(stable_sorted(clip_timed_events(notes, duration_us))), CLIP_TICKS_PER_QUARTER)
}

proof fn lemma_us_to_ticks_monotone(a: u64, b: u64)
    requires
        a <= b,
    ensures
        us_to_ticks(a) <= us_to_ticks(b),
{
    lemma_div_is_ordered(a * 960 + 500_000, b * 960 + 500_000, 1_000_000);
}

proof fn lemma_us_to_ticks_gap(a: u64, b: u64)
    requires
        a + MIN_WRITTEN_US <= b,
        us_to_ticks(b) < 0x1000_0000,
    ensures
        us_to_ticks(a) < us_to_ticks(b),
{
    let x: int = a * 960 + 500_000;
    lemma_div_is_ordered(x + 1_000_000, b * 960 + 500_000, 1_000_000);
    assert((x + 1_000_000) / 1_000_000 == x / 1_000_000 + 1);
}

proof fn lemma_tick_time_monotone(a: u32, b: u32)
    requires
        a <= b,
    ensures
        tick_time_us(a) <= tick_time_us(b),
{
    lemma_div_is_ordered(a * 500_000, b * 500_000, 480);
}

proof fn lemma_written_note(n: MidiNote, duration_us: u64)
    requires
        note_writable(n),
        n.end_us <= duration_us,
        within_tick_range(duration_us),
    ensures
        key_up_event(n).tick == us_to_ticks(n.end_us),
        key_down_event(n).tick < key_up_event(n).tick,
        key_up_event(n).tick <= end_tick(duration_us),
{
    lemma_us_to_ticks_monotone(n.end_us, max_u64(duration_us, MIN_WRITTEN_US));
    lemma_us_to_ticks_gap(n.start_us, n.end_us);
}

proof fn lemma_note_events_at(notes: Seq<MidiNote>)
    ensures
        note_timed_events(notes).len() == 2 * notes.len(),
        forall|k: int| #![trigger notes[k]] 0 <= k < notes.len() ==> {
            &&& note_timed_events(notes)[2 * k] == key_down_event(notes[k])
            &&& note_timed_events(notes)[2 * k + 1] == key_up_event(notes[k])
        },
    decreases notes.len(),
{
    if notes.len() > 0 {
        let init = notes.drop_last();
        lemma_note_events_at(init);
        let ne = note_timed_events(notes);
        let ie = note_timed_events(init);
        assert(ne == ie + seq![key_down_event(notes.last()), key_up_event(notes.last())]);
        assert forall|k: int| #![trigger notes[k]] 0 <= k < notes.len() implies {
            &&& ne[2 * k] == key_down_event(notes[k])
            &&& ne[2 * k + 1] == key_up_event(notes[k])
        } by {
            if k < init.len() {
                assert(init[k] == notes[k]);
                assert(ne[2 * k] == ie[2 * k]);
                assert(ne[2 * k + 1] == ie[2 * k + 1]);
            }
        }
    }
}

proof fn lemma_clip_event_at(notes: Seq<MidiNote>, duration_us: u64)
    ensures
        clip_timed_events(notes, duration_us).len() == 2 * notes.len() + 2,
        clip_timed_events(notes, duration_us)[0] == (TimedEvent {
            tick: 0,
            order: 0,
            kind: WrittenEventKind::SetTempo(DEFAULT_TEMPO_US_PER_QUARTER),
        }),
        clip_timed_events(notes, duration_us)[2 * notes.len() as int + 1] == (TimedEvent {
            tick: end_tick(duration_us),
            order: 255,
            kind: WrittenEventKind::EndTrack,
        }),
        forall|k: int| #![trigger notes[k]] 0 <= k < notes.len() ==> {
            &&& clip_timed_events(notes, duration_us)[2 * k + 1] == key_down_event(notes[k])
            &&& clip_timed_events(notes, duration_us)[2 * k + 2] == key_up_event(notes[k])
        },
{
    lemma_note_events_at(notes);
    let s = clip_timed_events(notes, duration_us);
    let nt = note_timed_events(notes);
    let head = seq![TimedEvent { tick: 0, order: 0, kind: WrittenEventKind::SetTempo(DEFAULT_TEMPO_US_PER_QUARTER) }] + nt;
    assert(s[2 * notes.len() as int + 1] == seq![TimedEvent {
        tick: end_tick(duration_us),
        order: 255,
        kind: WrittenEventKind::EndTrack,
    }][0]);
    assert forall|k: int| #![trigger notes[k]] 0 <= k < notes.len() implies {
        &&& s[2 * k + 1] == key_down_event(notes[k])
        &&& s[2 * k + 2] == key_up_event(notes[k])
    } by {
        assert(s[2 * k + 1] == head[2 * k + 1]);
        assert(head[2 * k + 1] == nt[2 * k]);
        assert(s[2 * k + 2] == head[2 * k + 2]);
        assert(head[2 * k + 2] == nt[2 * k + 1]);
    }
}

/// Every note is writable and ends within the clip, whose end tick fits the file format.
pub open spec fn notes_fit(notes: Seq<MidiNote>, duration_us: u64) -> bool {
    &&& forall|i: int| 0 <= i < notes.len() ==> #[trigger] note_writable(notes[i])
    &&& ends_within(notes, duration_us)
    &&& within_tick_range(duration_us)
}

/// The conditions under which a written clip reads back note for note.
pub open spec fn reads_back(notes: Seq<MidiNote>, duration_us: u64) -> bool {
    &&& one_after_another(notes)
    &&& ends_within(notes, duration_us)
    &&& within_tick_range(duration_us)
}

/// Bounds on the key and tick of the event at position `p` of a written clip.
proof fn lemma_event_bounds(notes: Seq<MidiNote>, duration_us: u64, p: int)
    requires
        notes_fit(notes, duration_us),
        0 <= p < 2 * notes.len() + 2,
    ensures
        ({
            let e = clip_timed_events(notes, duration_us)[p];
            &&& e.key_of() == e.tick * 256 + e.order
            &&& e.tick <= end_tick(duration_us)
            &&& p == 0 ==> e.tick == 0 && e.order == 0
            &&& p == 2 * notes.len() + 1 ==> e.tick == end_tick(duration_us) && e.order == 255
            &&& 1 <= p <= 2 * notes.len() ==> {
                let a = (p - 1) / 2;
                &&& 0 <= a < notes.len()
                &&& key_down_event(notes[a]).tick < key_up_event(notes[a]).tick
                &&& (p == 2 * a + 1 ==> e == key_down_event(notes[a]))
                &&& (p == 2 * a + 2 ==> e == key_up_event(notes[a]))
                &&& key_down_event(notes[a]).tick * 256 + 2 <= e.tick * 256 + e.order
                &&& e.tick * 256 + e.order <= key_up_event(notes[a]).tick * 256 + 1
            }
        }),
{
    lemma_clip_event_at(notes, duration_us);
    let s = clip_timed_events(notes, duration_us);
    if 1 <= p <= 2 * notes.len() {
        let a = (p - 1) / 2;
        assert(p == 2 * a + 1 || p == 2 * a + 2);
        let n = notes[a];
        assert(note_writable(n));
        assert(n.end_us <= duration_us);
        lemma_written_note(n, duration_us);
    }
}

proof fn lemma_clip_events_sorted(notes: Seq<MidiNote>, duration_us: u64)
    requires
        reads_back(notes, duration_us),
    ensures
        key_sorted(clip_timed_events(notes, duration_us)),
        clip_scan_ready(clip_timed_events(notes, duration_us)),
{
    let s = clip_timed_events(notes, duration_us);
    let n = notes.len();
    lemma_clip_event_at(notes, duration_us);
    assert forall|i: int, j: int| 0 <= i <= j < s.len() implies
        #[trigger] s[i].key_of() <= #[trigger] s[j].key_of() && s[i].tick <= s[j].tick by {
        lemma_event_bounds(notes, duration_us, i);
        lemma_event_bounds(notes, duration_us, j);
        if 1 <= i && j <= 2 * n && i < j {
            let a = (i - 1) / 2;
            let b = (j - 1) / 2;
            if a < b {
                assert(key_up_event(notes[a]).tick <= key_down_event(notes[b]).tick);
            }
        }
    }
    assert forall|i: int, j: int| 0 <= i <= j < s.len() implies #[trigger] s[i].tick <= #[trigger] s[j].tick by {
        assert(s[i].key_of() <= s[j].key_of() && s[i].tick <= s[j].tick);
    }
    assert forall|p: int| 1 <= p < s.len() implies !(#[trigger] s[p].kind is SetTempo) by {
        lemma_event_bounds(notes, duration_us, p);
    }
}

/// The written events start with the default tempo at tick 0, set no other tempo, and never
/// go back in time.
pub open spec fn clip_scan_ready(s: Seq<TimedEvent>) -> bool {
    &&& s.len() >= 1
    &&& s[0].tick == 0
    &&& s[0].kind == WrittenEventKind::SetTempo(DEFAULT_TEMPO_US_PER_QUARTER)
    &&& forall|p: int| 1 <= p < s.len() ==> !(#[trigger] s[p].kind is SetTempo)
    &&& forall|i: int, j: int| 0 <= i <= j < s.len() ==> #[trigger] s[i].tick <= #[trigger] s[j].tick
}

/// The times of written events: the tempo never changes from the default, and the time after
/// the event at position `i - 1` is its tick times the tempo.
proof fn lemma_scan(s: Seq<TimedEvent>, i: int)
    requires
        clip_scan_ready(s),
        1 <= i <= s.len(),
    ensures
        track_scan(parsed_track(with_deltas(s)).take(i)) == (
            DEFAULT_TEMPO_US_PER_QUARTER,
            s[i - 1].tick * DEFAULT_TEMPO_US_PER_QUARTER,
        ),
    decreases i,
{
    let track = parsed_track(with_deltas(s));
    let prefix = track.take(i);
    assert(prefix.drop_last() =~= track.take(i - 1));
    assert(prefix.last() == track[i - 1]);
    let w = with_deltas(s)[i - 1];
    assert(track[i - 1] == parsed_event(w));
    let (t0, a0) = track_scan(track.take(i - 1));
    if i == 1 {
        assert(track.take(0) =~= Seq::<SmfEvent>::empty());
        assert(t0 == DEFAULT_TEMPO_US_PER_QUARTER && a0 == 0);
        assert(w.delta == 0);
        assert(w.delta * t0 == 0) by (nonlinear_arith)
            requires w.delta == 0;
        assert(parsed_event(w).kind == SmfEventKind::Tempo(DEFAULT_TEMPO_US_PER_QUARTER));
    } else {
        lemma_scan(s, i - 1);
        assert(t0 == DEFAULT_TEMPO_US_PER_QUARTER && a0 == s[i - 2].tick * DEFAULT_TEMPO_US_PER_QUARTER);
        assert(s[i - 2].tick <= s[i - 1].tick);
        assert(w.delta == s[i - 1].tick - s[i - 2].tick);
        assert(w.delta * t0 == w.delta * DEFAULT_TEMPO_US_PER_QUARTER);
        assert(a0 + w.delta * t0 == s[i - 1].tick * DEFAULT_TEMPO_US_PER_QUARTER);
        assert(!(s[i - 1].kind is SetTempo));
        assert(!(parsed_event(w).kind is Tempo));
    }
    assert(track_scan(prefix) == (if parsed_event(w).kind is Tempo { DEFAULT_TEMPO_US_PER_QUARTER } else { t0 }, a0 + w.delta * t0));
}

proof fn lemma_pair_track_step(track: Seq<SmfEvent>, i: int, ticks_per_quarter: u16, s0: TrackerState)
    requires
        0 <= i < track.len(),
    ensures
        pair_track(track.take(i + 1), ticks_per_quarter, s0) == apply_event(
            pair_track(track.take(i), ticks_per_quarter, s0),
            track[i],
            acc_to_us(track_scan(track.take(i + 1)).1, ticks_per_quarter),
        ),
{
    assert(track.take(i + 1).drop_last() =~= track.take(i));
    assert(track.take(i + 1).last() == track[i]);
}

/// The event at position `p` of a written clip, as read back, and the time it is read at.
proof fn lemma_read_event(s: Seq<TimedEvent>, p: int)
    requires
        clip_scan_ready(s),
        0 <= p < s.len(),
    ensures
        parsed_track(with_deltas(s))[p] == parsed_event(with_deltas(s)[p]),
        with_deltas(s)[p].kind == s[p].kind,
        acc_to_us(track_scan(parsed_track(with_deltas(s)).take(p + 1)).1, CLIP_TICKS_PER_QUARTER)
            == tick_time_us(s[p].tick),
{
    lemma_scan(s, p + 1);
    assert(parsed_track(with_deltas(s))[p] == parsed_event(with_deltas(s)[p]));
}

/// Pairing the first `2k + 1` events of a written clip: no note open, and the first `k` notes
/// finished, on the tick grid.
proof fn lemma_pairing(notes: Seq<MidiNote>, duration_us: u64, k: int)
    requires
        reads_back(notes, duration_us),
        0 <= k <= notes.len(),
    ensures
        pair_track(
            parsed_track(with_deltas(clip_timed_events(notes, duration_us))).take(2 * k + 1),
            CLIP_TICKS_PER_QUARTER,
            TrackerState { pending: Seq::empty(), notes: Seq::empty() },
        ) == (TrackerState { pending: Seq::<PendingNote>::empty(), notes: notes_on_tick_grid(notes.take(k)) }),
    decreases k,
{
    let s = clip_timed_events(notes, duration_us);
    let track = parsed_track(with_deltas(s));
    let s0 = TrackerState { pending: Seq::<PendingNote>::empty(), notes: Seq::<MidiNote>::empty() };
    lemma_clip_events_sorted(notes, duration_us);
    assert(s.len() == 2 * notes.len() + 2) by {
        lemma_clip_event_at(notes, duration_us);
    }
    assert(track.len() == s.len());
    if k == 0 {
        lemma_pair_track_step(track, 0, CLIP_TICKS_PER_QUARTER, s0);
        assert(track.take(0) =~= Seq::<SmfEvent>::empty());
        lemma_read_event(s, 0);
        assert(notes_on_tick_grid(notes.take(0)) =~= Seq::<MidiNote>::empty());
    } else {
        let j = k - 1;
        lemma_pairing(notes, duration_us, j);
        let n = notes[j];
        let down = key_down_event(n);
        let up = key_up_event(n);
        assert(s[2 * j + 1] == down && s[2 * j + 2] == up && down.tick < up.tick && note_writable(n)) by {
            lemma_event_bounds(notes, duration_us, 2 * j + 1);
            lemma_event_bounds(notes, duration_us, 2 * j + 2);
            assert(note_writable(notes[j]));
        }
        let before = pair_track(track.take(2 * j + 1), CLIP_TICKS_PER_QUARTER, s0);
        let on_us = tick_time_us(down.tick);
        let off_us = tick_time_us(up.tick);
        lemma_pair_track_step(track, 2 * j + 1, CLIP_TICKS_PER_QUARTER, s0);
        lemma_read_event(s, 2 * j + 1);
        lemma_pair_track_step(track, 2 * j + 2, CLIP_TICKS_PER_QUARTER, s0);
        lemma_read_event(s, 2 * j + 2);
        lemma_tick_time_monotone(down.tick, up.tick);
        law_note_off_closes_the_note_on(before, n.channel, n.note, on_us, n.velocity, off_us);
        assert(notes.take(k).drop_last() =~= notes.take(j));
        assert(notes_on_tick_grid(notes.take(k)) =~= notes_on_tick_grid(notes.take(j)).push(on_tick_grid(n)));
    }
}

proof fn lemma_grid_sorted(notes: Seq<MidiNote>, duration_us: u64)
    requires
        reads_back(notes, duration_us),
    ensures
        key_sorted(notes),
        key_sorted(notes_on_tick_grid(notes)),
{
    let q = notes_on_tick_grid(notes);
    assert forall|i: int, j: int| 0 <= i <= j < notes.len() implies
        #[trigger] notes[i].key_of() <= #[trigger] notes[j].key_of() && q[i].key_of() <= q[j].key_of() by {
        if i < j {
            assert(note_writable(notes[i]));
            assert(notes[i].end_us <= duration_us);
            lemma_written_note(notes[i], duration_us);
            assert(key_up_event(notes[i]).tick <= key_down_event(notes[j]).tick);
            lemma_tick_time_monotone(key_down_event(notes[i]).tick, key_down_event(notes[j]).tick);
            if notes[j].start_us < notes[i].start_us {
                lemma_us_to_ticks_monotone(notes[j].start_us, notes[i].start_us);
            }
        }
    }
    assert forall|i: int, j: int| 0 <= i <= j < q.len() implies #[trigger] q[i].key_of() <= #[trigger] q[j].key_of() by {
        assert(notes[i].key_of() <= notes[j].key_of());
    }
}

/// Reading back the file written for a clip whose notes sound one after another gives the
/// clip's notes again, each with its start and end moved to the ticks they were written at,
/// and the clip's length on the tick grid: every event written fits the file format, and the
/// events pair up into exactly those notes, in the same order.
#[verifier::spinoff_prover]
#[verifier::rlimit(40)]
pub proof fn law_notes_one_after_another_read_back_in_order(notes: Seq<MidiNote>, duration_us: u64)
    requires
        one_after_another(notes),
        ends_within(notes, duration_us),
        within_tick_range(duration_us),
    ensures
        stable_sorted(notes) == notes,
        events_fit(with_deltas(stable_sorted(clip_timed_events(notes, duration_us)))),
        stable_sorted(smf_unsorted_notes(read_back_model(notes, duration_us), CLIP_TICKS_PER_QUARTER))
            == notes_on_tick_grid(notes),
        smf_duration_us(read_back_model(notes, duration_us), CLIP_TICKS_PER_QUARTER)
            == tick_time_us(end_tick(duration_us)),
{
    let s = clip_timed_events(notes, duration_us);
    let n: int = notes.len() as int;
    lemma_grid_sorted(notes, duration_us);
    lemma_sorted_is_own_stable_sort(notes);
    lemma_clip_events_sorted(notes, duration_us);
    lemma_sorted_is_own_stable_sort(s);
    lemma_clip_event_at(notes, duration_us);
    let written = with_deltas(s);
    assert forall|i: int| 0 <= i < written.len() implies #[trigger] event_fits(written[i]) by {
        lemma_event_bounds(notes, duration_us, i);
        if i > 0 {
            assert(s[i - 1].tick <= s[i].tick);
        }
    }
    let track = parsed_track(written);
    let m = read_back_model(notes, duration_us);
    assert(m.tracks == seq![track]);
    let s0 = TrackerState { pending: Seq::<PendingNote>::empty(), notes: Seq::<MidiNote>::empty() };
    assert(m.tracks.drop_last() =~= Seq::<Seq<SmfEvent>>::empty());
    assert(m.tracks.last() == track);
    assert(pair_tracks(m.tracks.drop_last(), CLIP_TICKS_PER_QUARTER) == s0);
    // All notes are finished before the end event, which changes nothing.
    lemma_pairing(notes, duration_us, n);
    assert(track.take(2 * n + 2) =~= track);
    let last = track.take(2 * n + 2);
    assert(last.drop_last() =~= track.take(2 * n + 1));
    assert(track[2 * n + 1] == parsed_event(written[2 * n + 1]));
    assert(notes.take(n) =~= notes);
    let finished = pair_tracks(m.tracks, CLIP_TICKS_PER_QUARTER);
    assert(finished == TrackerState { pending: Seq::<PendingNote>::empty(), notes: notes_on_tick_grid(notes) });
    let q = notes_on_tick_grid(notes);
    assert(smf_unsorted_notes(m, CLIP_TICKS_PER_QUARTER) =~= q);
    lemma_sorted_is_own_stable_sort(q);
    // The longest (only) track ends at the end tick.
    lemma_scan(s, 2 * n + 2);
    assert(max_track_acc(m.tracks.drop_last()) == 0);
}

// ---------------------------------------------------------------------------------------------
// Notes that may sound together

/// Two notes of the same channel and key.
pub open spec fn same_key(a: MidiNote, b: MidiNote) -> bool {
    a.channel == b.channel && a.note == b.note
}

/// On the tick grid one of the two notes ends no later than the other starts.
pub open spec fn apart(a: MidiNote, b: MidiNote) -> bool {
    key_up_event(a).tick <= key_down_event(b).tick || key_up_event(b).tick <= key_down_event(a).tick
}

/// Notes a clip file holds note for note, chords included: no note is listed twice, each is
/// writable, and two notes of the same channel and key never overlap on the tick grid.
pub open spec fn keys_apart(notes: Seq<MidiNote>) -> bool {
    &&& notes.no_duplicates()
    &&& forall|n: MidiNote| #[trigger] notes.contains(n) ==> note_writable(n)
    &&& forall|a: MidiNote, b: MidiNote|
        #[trigger] notes.contains(a) && #[trigger] notes.contains(b) && a != b && same_key(a, b) ==> apart(a, b)
}

/// The open note a key-down of `n` leaves in the tracker.
pub open spec fn pending_of(n: MidiNote) -> PendingNote {
    PendingNote {
        channel: n.channel,
        note: n.note,
        start_us: tick_time_us(key_down_event(n).tick),
        velocity: n.velocity,
    }
}

/// `x` is the open note of a note whose key-down is among `seen` and whose key-up is not.
pub open spec fn open_in(notes: Seq<MidiNote>, seen: Seq<TimedEvent>, x: PendingNote) -> bool {
    exists|j: int| #![trigger notes[j]] 0 <= j < notes.len() && x == pending_of(notes[j])
        && seen.contains(key_down_event(notes[j])) && !seen.contains(key_up_event(notes[j]))
}

/// `x` is, on the tick grid, a note whose key-up is among `seen`.
pub open spec fn done_in(notes: Seq<MidiNote>, seen: Seq<TimedEvent>, x: MidiNote) -> bool {
    exists|j: int| #![trigger notes[j]] 0 <= j < notes.len() && x == on_tick_grid(notes[j])
        && seen.contains(key_up_event(notes[j]))
}

/// The tracker after the events `seen`: one open note for each note struck and not released,
/// one finished note for each note released, none twice.
pub open spec fn tracks_seen(notes: Seq<MidiNote>, seen: Seq<TimedEvent>, st: TrackerState) -> bool {
    &&& st.pending.no_duplicates()
    &&& forall|x: PendingNote| #[trigger] st.pending.contains(x) <==> open_in(notes, seen, x)
    &&& st.notes.no_duplicates()
    &&& forall|x: MidiNote| #[trigger] st.notes.contains(x) <==> done_in(notes, seen, x)
}

/// The written events in file order.
pub open spec fn file_events(notes: Seq<MidiNote>, duration_us: u64) -> Seq<TimedEvent> {
    stable_sorted(clip_timed_events(notes, duration_us))
}

/// The tracker after reading the first `i` events of the written clip.
pub open spec fn state_after(notes: Seq<MidiNote>, duration_us: u64, i: int) -> TrackerState {
    pair_track(
        parsed_track(with_deltas(file_events(notes, duration_us))).take(i),
        CLIP_TICKS_PER_QUARTER,
        TrackerState { pending: Seq::empty(), notes: Seq::empty() },
    )
}

proof fn lemma_tick_time_strict(a: u32, b: u32)
    requires
        a < b,
    ensures
        tick_time_us(a) < tick_time_us(b),
{
    lemma_div_is_ordered(a * 500_000 + 480, b * 500_000, 480);
    assert((a * 500_000 + 480) / 480 == a * 500_000 / 480 + 1);
}

proof fn lemma_notes_fit(notes: Seq<MidiNote>, duration_us: u64)
    requires
        keys_apart(notes),
        ends_within(notes, duration_us),
        within_tick_range(duration_us),
    ensures
        notes_fit(notes, duration_us),
        forall|i: int| 0 <= i < notes.len() ==> #[trigger] key_down_event(notes[i]).tick < key_up_event(notes[i]).tick,
{
    assert forall|i: int| 0 <= i < notes.len() implies #[trigger] note_writable(notes[i]) by {
        assert(notes.contains(notes[i]));
    }
    assert forall|i: int| 0 <= i < notes.len() implies #[trigger] key_down_event(notes[i]).tick < key_up_event(notes[i]).tick by {
        assert(notes.contains(notes[i]));
        assert(notes[i].end_us <= duration_us);
        lemma_written_note(notes[i], duration_us);
    }
}

/// Two notes of one key that start, or end, on the same tick are the same note.
proof fn lemma_one_note_per_tick(notes: Seq<MidiNote>, duration_us: u64, i: int, j: int)
    requires
        keys_apart(notes),
        ends_within(notes, duration_us),
        within_tick_range(duration_us),
        0 <= i < notes.len(),
        0 <= j < notes.len(),
        same_key(notes[i], notes[j]),
        key_down_event(notes[i]).tick == key_down_event(notes[j]).tick
            || key_up_event(notes[i]).tick == key_up_event(notes[j]).tick,
    ensures
        i == j,
{
    lemma_notes_fit(notes, duration_us);
    assert(key_down_event(notes[i]).tick < key_up_event(notes[i]).tick);
    assert(key_down_event(notes[j]).tick < key_up_event(notes[j]).tick);
    if i != j {
        assert(notes.contains(notes[i]) && notes.contains(notes[j]));
        assert(notes[i] != notes[j]);
        assert(apart(notes[i], notes[j]));
    }
}

proof fn lemma_clip_events_distinct(notes: Seq<MidiNote>, duration_us: u64)
    requires
        keys_apart(notes),
        ends_within(notes, duration_us),
        within_tick_range(duration_us),
    ensures
        clip_timed_events(notes, duration_us).no_duplicates(),
{
    let s = clip_timed_events(notes, duration_us);
    lemma_notes_fit(notes, duration_us);
    lemma_clip_event_at(notes, duration_us);
    assert forall|p: int, q: int| 0 <= p < s.len() && 0 <= q < s.len() && p != q implies s[p] != s[q] by {
        lemma_event_bounds(notes, duration_us, p);
        lemma_event_bounds(notes, duration_us, q);
        if s[p] == s[q] && 1 <= p <= 2 * notes.len() && 1 <= q <= 2 * notes.len() {
            let a = (p - 1) / 2;
            let b = (q - 1) / 2;
            assert(notes.contains(notes[a]) && notes.contains(notes[b]));
            assert(note_writable(notes[a]) && note_writable(notes[b]));
            if a != b {
                lemma_one_note_per_tick(notes, duration_us, a, b);
            }
        }
    }
}

/// What the file order keeps of the written events: the same events, none twice, sorted by
/// tick and order, and ready to be timed.
proof fn lemma_file_events(notes: Seq<MidiNote>, duration_us: u64)
    requires
        keys_apart(notes),
        ends_within(notes, duration_us),
        within_tick_range(duration_us),
    ensures
        file_events(notes, duration_us).len() == 2 * notes.len() + 2,
        key_sorted(file_events(notes, duration_us)),
        file_events(notes, duration_us).no_duplicates(),
        forall|e: TimedEvent| #[trigger] file_events(notes, duration_us).contains(e)
            <==> clip_timed_events(notes, duration_us).contains(e),
        clip_scan_ready(file_events(notes, duration_us)),
{
    let s = clip_timed_events(notes, duration_us);
    let r = file_events(notes, duration_us);
    let n = notes.len();
    lemma_notes_fit(notes, duration_us);
    lemma_clip_event_at(notes, duration_us);
    lemma_stable_sort_exists(s);
    law_stable_sort_is_permutation(r, s);
    r.to_multiset_ensures();
    s.to_multiset_ensures();
    assert forall|e: TimedEvent| #[trigger] r.contains(e) <==> s.contains(e) by {
        vstd::seq_lib::to_multiset_contains(r, e);
        vstd::seq_lib::to_multiset_contains(s, e);
    }
    lemma_clip_events_distinct(notes, duration_us);
    s.lemma_multiset_has_no_duplicates();
    r.lemma_multiset_has_no_duplicates_conv();
    // Each event of the file order is a written event, with its key and tick bounds.
    assert forall|p: int| 0 <= p < r.len() implies {
        &&& #[trigger] r[p].key_of() == r[p].tick * 256 + r[p].order
        &&& (r[p].kind is SetTempo ==> r[p] == s[0])
        &&& (r[p].key_of() == 0 ==> r[p] == s[0])
    } by {
        assert(r.contains(r[p]));
        let q = choose|q: int| 0 <= q < s.len() && s[q] == r[p];
        lemma_event_bounds(notes, duration_us, q);
    }
    assert forall|i: int, j: int| 0 <= i <= j < r.len() implies #[trigger] r[i].tick <= #[trigger] r[j].tick by {
        assert(r[i].key_of() <= r[j].key_of());
        assert(r[i].key_of() == r[i].tick * 256 + r[i].order);
        assert(r[j].key_of() == r[j].tick * 256 + r[j].order);
    }
    assert(s.contains(s[0]));
    assert(r.contains(s[0]));
    let p0 = choose|p: int| 0 <= p < r.len() && r[p] == s[0];
    assert(0 <= p0 < r.len() && r[p0] == s[0]);
    assert(r[0].key_of() <= r[p0].key_of());
    assert(s[0].key_of() == 0);
    assert(r[0] == s[0]);
    assert forall|p: int| 1 <= p < r.len() implies !(#[trigger] r[p].kind is SetTempo) by {
        if r[p].kind is SetTempo {
            assert(r[p].key_of() == r[p].tick * 256 + r[p].order);
            assert(r[p] == r[0]);
        }
    }
}

proof fn lemma_push_contains<T>(s: Seq<T>, e: T, x: T)
    ensures
        s.push(e).contains(x) <==> s.contains(x) || x == e,
{
    if s.push(e).contains(x) {
        let i = choose|i: int| 0 <= i < s.push(e).len() && s.push(e)[i] == x;
        if i < s.len() {
            assert(s[i] == x);
        }
    }
    if s.contains(x) {
        let i = choose|i: int| 0 <= i < s.len() && s[i] == x;
        assert(s.push(e)[i] == x);
    }
    if x == e {
        assert(s.push(e)[s.len() as int] == x);
    }
}

/// Events of the file order before position `i` are those of lower key, and none of higher.
proof fn lemma_seen_by_key(r: Seq<TimedEvent>, i: int, x: TimedEvent)
    requires
        key_sorted(r),
        r.contains(x),
        0 <= i < r.len(),
    ensures
        x.key_of() < r[i].key_of() ==> r.take(i).contains(x),
        x.key_of() > r[i].key_of() ==> !r.take(i).contains(x),
{
    let p = choose|p: int| 0 <= p < r.len() && r[p] == x;
    if x.key_of() < r[i].key_of() {
        if p >= i {
            assert(r[i].key_of() <= r[p].key_of());
        }
        assert(r.take(i)[p] == x);
    }
    if x.key_of() > r[i].key_of() && r.take(i).contains(x) {
        let t = choose|t: int| 0 <= t < r.take(i).len() && r.take(i)[t] == x;
        assert(r[t] == x);
        assert(r[t].key_of() <= r[i].key_of());
    }
}

/// Reading one more event of the written clip applies it at the time of its tick.
proof fn lemma_state_step(notes: Seq<MidiNote>, duration_us: u64, i: int)
    requires
        keys_apart(notes),
        ends_within(notes, duration_us),
        within_tick_range(duration_us),
        0 <= i < 2 * notes.len() + 2,
    ensures
        state_after(notes, duration_us, i + 1) == apply_event(
            state_after(notes, duration_us, i),
            parsed_event(with_deltas(file_events(notes, duration_us))[i]),
            tick_time_us(file_events(notes, duration_us)[i].tick),
        ),
        with_deltas(file_events(notes, duration_us))[i].kind == file_events(notes, duration_us)[i].kind,
{
    let r = file_events(notes, duration_us);
    lemma_file_events(notes, duration_us);
    let track = parsed_track(with_deltas(r));
    lemma_pair_track_step(track, i, CLIP_TICKS_PER_QUARTER, TrackerState { pending: Seq::empty(), notes: Seq::empty() });
    lemma_read_event(r, i);
}

/// An open note of the same key as the note whose key-up is read at position `i` is that note.
proof fn lemma_only_open_of_key(notes: Seq<MidiNote>, duration_us: u64, i: int, a: int, j: int)
    requires
        keys_apart(notes),
        ends_within(notes, duration_us),
        within_tick_range(duration_us),
        0 <= i < 2 * notes.len() + 2,
        0 <= a < notes.len(),
        0 <= j < notes.len(),
        file_events(notes, duration_us)[i] == key_up_event(notes[a]),
        same_key(notes[j], notes[a]),
        file_events(notes, duration_us).take(i).contains(key_down_event(notes[j])),
        !file_events(notes, duration_us).take(i).contains(key_up_event(notes[j])),
    ensures
        j == a,
{
    let r = file_events(notes, duration_us);
    let s = clip_timed_events(notes, duration_us);
    lemma_file_events(notes, duration_us);
    lemma_notes_fit(notes, duration_us);
    lemma_clip_event_at(notes, duration_us);
    if j != a {
        assert(notes.contains(notes[j]) && notes.contains(notes[a]));
        assert(notes[j] != notes[a]);
        assert(apart(notes[j], notes[a]));
        assert(s[2 * j + 1] == key_down_event(notes[j]) && s[2 * j + 2] == key_up_event(notes[j]));
        assert(s.contains(s[2 * j + 1]) && s.contains(s[2 * j + 2]));
        assert(r.contains(key_down_event(notes[j])) && r.contains(key_up_event(notes[j])));
        lemma_seen_by_key(r, i, key_up_event(notes[j]));
        lemma_seen_by_key(r, i, key_down_event(notes[j]));
        assert(key_down_event(notes[a]).tick < key_up_event(notes[a]).tick);
        assert(key_down_event(notes[j]).tick < key_up_event(notes[j]).tick);
    }
}

/// The facts every step of reading the written clip starts from.
pub open spec fn step_ready(notes: Seq<MidiNote>, duration_us: u64, i: int) -> bool {
    &&& keys_apart(notes)
    &&& ends_within(notes, duration_us)
    &&& within_tick_range(duration_us)
    &&& 0 <= i < 2 * notes.len() + 2
    &&& tracks_seen(notes, file_events(notes, duration_us).take(i), state_after(notes, duration_us, i))
}

/// The written event at position `i` of the file order, by its place among the written events.
proof fn lemma_event_source(notes: Seq<MidiNote>, duration_us: u64, i: int) -> (q: int)
    requires
        keys_apart(notes),
        ends_within(notes, duration_us),
        within_tick_range(duration_us),
        0 <= i < 2 * notes.len() + 2,
    ensures
        0 <= q < 2 * notes.len() + 2,
        clip_timed_events(notes, duration_us)[q] == file_events(notes, duration_us)[i],
        !file_events(notes, duration_us).take(i).contains(file_events(notes, duration_us)[i]),
        forall|y: TimedEvent| #[trigger] file_events(notes, duration_us).take(i + 1).contains(y)
            <==> file_events(notes, duration_us).take(i).contains(y) || y == file_events(notes, duration_us)[i],
{
    let r = file_events(notes, duration_us);
    let s = clip_timed_events(notes, duration_us);
    lemma_file_events(notes, duration_us);
    lemma_clip_event_at(notes, duration_us);
    assert(r.contains(r[i]));
    let q = choose|q: int| 0 <= q < s.len() && s[q] == r[i];
    if r.take(i).contains(r[i]) {
        let t = choose|t: int| 0 <= t < r.take(i).len() && r.take(i)[t] == r[i];
        assert(r[t] == r[i]);
    }
    assert(r.take(i + 1) =~= r.take(i).push(r[i]));
    assert forall|y: TimedEvent| #[trigger] r.take(i + 1).contains(y) <==> r.take(i).contains(y) || y == r[i] by {
        lemma_push_contains(r.take(i), r[i], y);
    }
    q
}

proof fn lemma_step_no_note(notes: Seq<MidiNote>, duration_us: u64, i: int, q: int)
    requires
        step_ready(notes, duration_us, i),
        q == 0 || q == 2 * notes.len() + 1,
        clip_timed_events(notes, duration_us)[q] == file_events(notes, duration_us)[i],
        forall|y: TimedEvent| #[trigger] file_events(notes, duration_us).take(i + 1).contains(y)
            <==> file_events(notes, duration_us).take(i).contains(y) || y == file_events(notes, duration_us)[i],
    ensures
        tracks_seen(notes, file_events(notes, duration_us).take(i + 1), state_after(notes, duration_us, i + 1)),
{
    let r = file_events(notes, duration_us);
    let seen = r.take(i);
    let seen2 = r.take(i + 1);
    lemma_clip_event_at(notes, duration_us);
    lemma_state_step(notes, duration_us, i);
    assert forall|j: int| #![trigger notes[j]] 0 <= j < notes.len() implies
        seen2.contains(key_down_event(notes[j])) == seen.contains(key_down_event(notes[j]))
        && seen2.contains(key_up_event(notes[j])) == seen.contains(key_up_event(notes[j])) by {
        assert(key_down_event(notes[j]) != r[i]);
        assert(key_up_event(notes[j]) != r[i]);
    }
    assert forall|x: PendingNote| open_in(notes, seen2, x) == open_in(notes, seen, x) by {
        if open_in(notes, seen2, x) {
            let j = choose|j: int| #![trigger notes[j]] 0 <= j < notes.len() && x == pending_of(notes[j])
                && seen2.contains(key_down_event(notes[j])) && !seen2.contains(key_up_event(notes[j]));
        }
        if open_in(notes, seen, x) {
            let j = choose|j: int| #![trigger notes[j]] 0 <= j < notes.len() && x == pending_of(notes[j])
                && seen.contains(key_down_event(notes[j])) && !seen.contains(key_up_event(notes[j]));
        }
    }
    assert forall|x: MidiNote| done_in(notes, seen2, x) == done_in(notes, seen, x) by {
        if done_in(notes, seen2, x) {
            let j = choose|j: int| #![trigger notes[j]] 0 <= j < notes.len() && x == on_tick_grid(notes[j])
                && seen2.contains(key_up_event(notes[j]));
        }
        if done_in(notes, seen, x) {
            let j = choose|j: int| #![trigger notes[j]] 0 <= j < notes.len() && x == on_tick_grid(notes[j])
                && seen.contains(key_up_event(notes[j]));
        }
    }
}

proof fn lemma_push_no_dup<T>(s: Seq<T>, e: T)
    requires
        s.no_duplicates(),
        !s.contains(e),
    ensures
        s.push(e).no_duplicates(),
{
    let t = s.push(e);
    assert forall|i: int, j: int| 0 <= i < t.len() && 0 <= j < t.len() && i != j implies t[i] != t[j] by {
        if i == s.len() && j < s.len() {
            assert(t[j] == s[j]);
        } else if j == s.len() && i < s.len() {
            assert(t[i] == s[i]);
        } else if i < s.len() && j < s.len() {
            assert(t[i] == s[i] && t[j] == s[j]);
        }
    }
}

proof fn lemma_remove_no_dup<T>(s: Seq<T>, k: int)
    requires
        s.no_duplicates(),
        0 <= k < s.len(),
    ensures
        s.remove(k).no_duplicates(),
        forall|x: T| #[trigger] s.remove(k).contains(x) <==> s.contains(x) && x != s[k],
{
    let t = s.remove(k);
    assert forall|i: int, j: int| 0 <= i < t.len() && 0 <= j < t.len() && i != j implies t[i] != t[j] by {
        let si = if i < k { i } else { i + 1 };
        let sj = if j < k { j } else { j + 1 };
        assert(t[i] == s[si] && t[j] == s[sj]);
    }
    assert forall|x: T| #[trigger] t.contains(x) <==> s.contains(x) && x != s[k] by {
        if t.contains(x) {
            let i = choose|i: int| 0 <= i < t.len() && t[i] == x;
            let si = if i < k { i } else { i + 1 };
            assert(t[i] == s[si]);
        }
        if s.contains(x) && x != s[k] {
            let i = choose|i: int| 0 <= i < s.len() && s[i] == x;
            if i < k {
                assert(t[i] == x);
            } else {
                assert(t[i - 1] == x);
            }
        }
    }
}

proof fn lemma_step_down(notes: Seq<MidiNote>, duration_us: u64, i: int, a: int)
    requires
        step_ready(notes, duration_us, i),
        0 <= a < notes.len(),
        file_events(notes, duration_us)[i] == key_down_event(notes[a]),
        !file_events(notes, duration_us).take(i).contains(file_events(notes, duration_us)[i]),
        forall|y: TimedEvent| #[trigger] file_events(notes, duration_us).take(i + 1).contains(y)
            <==> file_events(notes, duration_us).take(i).contains(y) || y == file_events(notes, duration_us)[i],
    ensures
        tracks_seen(notes, file_events(notes, duration_us).take(i + 1), state_after(notes, duration_us, i + 1)),
{
    let r = file_events(notes, duration_us);
    let s = clip_timed_events(notes, duration_us);
    let seen = r.take(i);
    let seen2 = r.take(i + 1);
    let m = notes[a];
    let st = state_after(notes, duration_us, i);
    lemma_file_events(notes, duration_us);
    lemma_notes_fit(notes, duration_us);
    lemma_clip_event_at(notes, duration_us);
    lemma_state_step(notes, duration_us, i);
    assert(notes.contains(m));
    assert(note_writable(m));
    let st2 = TrackerState { pending: st.pending.push(pending_of(m)), notes: st.notes };
    assert(state_after(notes, duration_us, i + 1) == st2);
    // The note's key-up comes later.
    assert(s[2 * a + 2] == key_up_event(m));
    assert(s.contains(s[2 * a + 2]));
    assert(r.contains(key_up_event(m)));
    lemma_seen_by_key(r, i, key_up_event(m));
    assert(key_down_event(m).tick < key_up_event(m).tick);
    assert(!seen.contains(key_up_event(m)));
    // Which notes changed status: only `m`, now struck.
    assert forall|j: int| #![trigger notes[j]] 0 <= j < notes.len() implies
        seen2.contains(key_down_event(notes[j])) == (seen.contains(key_down_event(notes[j])) || j == a)
        && seen2.contains(key_up_event(notes[j])) == seen.contains(key_up_event(notes[j])) by {
        if key_down_event(notes[j]) == key_down_event(m) {
            assert(notes.contains(notes[j]));
            lemma_one_note_per_tick(notes, duration_us, j, a);
        }
    }
    // `m` was not open before.
    if st.pending.contains(pending_of(m)) {
        assert(open_in(notes, seen, pending_of(m)));
        let j = choose|j: int| #![trigger notes[j]] 0 <= j < notes.len() && pending_of(m) == pending_of(notes[j])
            && seen.contains(key_down_event(notes[j])) && !seen.contains(key_up_event(notes[j]));
        if key_down_event(notes[j]).tick < key_down_event(m).tick {
            lemma_tick_time_strict(key_down_event(notes[j]).tick, key_down_event(m).tick);
        } else if key_down_event(notes[j]).tick > key_down_event(m).tick {
            lemma_tick_time_strict(key_down_event(m).tick, key_down_event(notes[j]).tick);
        }
        lemma_one_note_per_tick(notes, duration_us, j, a);
    }
    lemma_push_no_dup(st.pending, pending_of(m));
    assert forall|x: PendingNote| #[trigger] st2.pending.contains(x) <==> open_in(notes, seen2, x) by {
        lemma_push_contains(st.pending, pending_of(m), x);
        if open_in(notes, seen2, x) {
            let j = choose|j: int| #![trigger notes[j]] 0 <= j < notes.len() && x == pending_of(notes[j])
                && seen2.contains(key_down_event(notes[j])) && !seen2.contains(key_up_event(notes[j]));
            if j != a {
                assert(open_in(notes, seen, x));
            }
        }
        if open_in(notes, seen, x) {
            let j = choose|j: int| #![trigger notes[j]] 0 <= j < notes.len() && x == pending_of(notes[j])
                && seen.contains(key_down_event(notes[j])) && !seen.contains(key_up_event(notes[j]));
            assert(open_in(notes, seen2, x));
        }
        if x == pending_of(m) {
            assert(open_in(notes, seen2, x));
        }
    }
    assert forall|x: MidiNote| #[trigger] st2.notes.contains(x) <==> done_in(notes, seen2, x) by {
        if done_in(notes, seen2, x) {
            let j = choose|j: int| #![trigger notes[j]] 0 <= j < notes.len() && x == on_tick_grid(notes[j])
                && seen2.contains(key_up_event(notes[j]));
            assert(done_in(notes, seen, x));
        }
        if done_in(notes, seen, x) {
            let j = choose|j: int| #![trigger notes[j]] 0 <= j < notes.len() && x == on_tick_grid(notes[j])
                && seen.contains(key_up_event(notes[j]));
            assert(done_in(notes, seen2, x));
        }
    }
}

proof fn lemma_step_up(notes: Seq<MidiNote>, duration_us: u64, i: int, a: int)
    requires
        step_ready(notes, duration_us, i),
        0 <= a < notes.len(),
        file_events(notes, duration_us)[i] == key_up_event(notes[a]),
        !file_events(notes, duration_us).take(i).contains(file_events(notes, duration_us)[i]),
        forall|y: TimedEvent| #[trigger] file_events(notes, duration_us).take(i + 1).contains(y)
            <==> file_events(notes, duration_us).take(i).contains(y) || y == file_events(notes, duration_us)[i],
    ensures
        tracks_seen(notes, file_events(notes, duration_us).take(i + 1), state_after(notes, duration_us, i + 1)),
{
    let r = file_events(notes, duration_us);
    let s = clip_timed_events(notes, duration_us);
    let seen = r.take(i);
    let seen2 = r.take(i + 1);
    let m = notes[a];
    let st = state_after(notes, duration_us, i);
    lemma_file_events(notes, duration_us);
    lemma_notes_fit(notes, duration_us);
    lemma_clip_event_at(notes, duration_us);
    lemma_state_step(notes, duration_us, i);
    assert(notes.contains(m));
    assert(note_writable(m));
    // The note's key-down came before.
    assert(s[2 * a + 1] == key_down_event(m));
    assert(s.contains(s[2 * a + 1]));
    assert(r.contains(key_down_event(m)));
    lemma_seen_by_key(r, i, key_down_event(m));
    assert(key_down_event(m).tick < key_up_event(m).tick);
    assert(seen.contains(key_down_event(m)));
    assert(open_in(notes, seen, pending_of(m)));
    assert(st.pending.contains(pending_of(m)));
    let k0 = choose|k: int| 0 <= k < st.pending.len() && st.pending[k] == pending_of(m);
    // The only open note of this key is `m`'s.
    assert forall|t: int| 0 <= t < st.pending.len() && st.pending[t].channel == m.channel
        && st.pending[t].note == m.note implies #[trigger] st.pending[t] == pending_of(m) by {
        assert(st.pending.contains(st.pending[t]));
        assert(open_in(notes, seen, st.pending[t]));
        let j = choose|j: int| #![trigger notes[j]] 0 <= j < notes.len() && st.pending[t] == pending_of(notes[j])
            && seen.contains(key_down_event(notes[j])) && !seen.contains(key_up_event(notes[j]));
        lemma_only_open_of_key(notes, duration_us, i, a, j);
    }
    crate::notes::lemma_last_open_index(st.pending, m.channel, m.note);
    let found = crate::notes::last_open_index(st.pending, m.channel, m.note);
    assert(found == Some(k0)) by {
        match found {
            Some(k2) => {
                assert(st.pending[k2] == pending_of(m));
            },
            None => {
                assert(st.pending[k0].channel == m.channel && st.pending[k0].note == m.note);
            },
        }
    }
    let t_off = tick_time_us(key_up_event(m).tick);
    lemma_tick_time_monotone(key_down_event(m).tick, key_up_event(m).tick);
    assert(crate::notes::closed_note(st.pending[k0], t_off) == on_tick_grid(m));
    let st2 = TrackerState { pending: st.pending.remove(k0), notes: st.notes.push(on_tick_grid(m)) };
    assert(state_after(notes, duration_us, i + 1) == st2);
    // Which notes changed status: only `m`, now released.
    assert forall|j: int| #![trigger notes[j]] 0 <= j < notes.len() implies
        seen2.contains(key_down_event(notes[j])) == seen.contains(key_down_event(notes[j]))
        && seen2.contains(key_up_event(notes[j])) == (seen.contains(key_up_event(notes[j])) || j == a) by {
        if key_up_event(notes[j]) == key_up_event(m) {
            assert(notes.contains(notes[j]));
            lemma_one_note_per_tick(notes, duration_us, j, a);
        }
    }
    lemma_remove_no_dup(st.pending, k0);
    assert forall|x: PendingNote| #[trigger] st2.pending.contains(x) <==> open_in(notes, seen2, x) by {
        if open_in(notes, seen2, x) {
            let j = choose|j: int| #![trigger notes[j]] 0 <= j < notes.len() && x == pending_of(notes[j])
                && seen2.contains(key_down_event(notes[j])) && !seen2.contains(key_up_event(notes[j]));
            assert(open_in(notes, seen, x));
            if x == pending_of(m) {
                lemma_only_open_of_key(notes, duration_us, i, a, j);
            }
        }
        if open_in(notes, seen, x) && x != pending_of(m) {
            let j = choose|j: int| #![trigger notes[j]] 0 <= j < notes.len() && x == pending_of(notes[j])
                && seen.contains(key_down_event(notes[j])) && !seen.contains(key_up_event(notes[j]));
            assert(open_in(notes, seen2, x));
        }
    }
    // `m` was not finished before.
    if st.notes.contains(on_tick_grid(m)) {
        assert(done_in(notes, seen, on_tick_grid(m)));
        let j = choose|j: int| #![trigger notes[j]] 0 <= j < notes.len() && on_tick_grid(m) == on_tick_grid(notes[j])
            && seen.contains(key_up_event(notes[j]));
        if key_down_event(notes[j]).tick < key_down_event(m).tick {
            lemma_tick_time_strict(key_down_event(notes[j]).tick, key_down_event(m).tick);
        } else if key_down_event(notes[j]).tick > key_down_event(m).tick {
            lemma_tick_time_strict(key_down_event(m).tick, key_down_event(notes[j]).tick);
        }
        lemma_one_note_per_tick(notes, duration_us, j, a);
    }
    lemma_push_no_dup(st.notes, on_tick_grid(m));
    assert forall|x: MidiNote| #[trigger] st2.notes.contains(x) <==> done_in(notes, seen2, x) by {
        lemma_push_contains(st.notes, on_tick_grid(m), x);
        if done_in(notes, seen2, x) {
            let j = choose|j: int| #![trigger notes[j]] 0 <= j < notes.len() && x == on_tick_grid(notes[j])
                && seen2.contains(key_up_event(notes[j]));
            if j != a {
                assert(done_in(notes, seen, x));
            }
        }
        if done_in(notes, seen, x) {
            let j = choose|j: int| #![trigger notes[j]] 0 <= j < notes.len() && x == on_tick_grid(notes[j])
                && seen.contains(key_up_event(notes[j]));
            assert(done_in(notes, seen2, x));
        }
        if x == on_tick_grid(m) {
            assert(done_in(notes, seen2, x));
        }
    }
}

/// Reading the first `i` events of the written clip in file order keeps the tracker in step
/// with the notes.
proof fn lemma_reading(notes: Seq<MidiNote>, duration_us: u64, i: int)
    requires
        keys_apart(notes),
        ends_within(notes, duration_us),
        within_tick_range(duration_us),
        0 <= i <= 2 * notes.len() + 2,
    ensures
        tracks_seen(notes, file_events(notes, duration_us).take(i), state_after(notes, duration_us, i)),
    decreases i,
{
    let r = file_events(notes, duration_us);
    lemma_file_events(notes, duration_us);
    if i == 0 {
        let track = parsed_track(with_deltas(r));
        assert(track.take(0) =~= Seq::<SmfEvent>::empty());
        assert(r.take(0) =~= Seq::<TimedEvent>::empty());
        let st = state_after(notes, duration_us, 0);
        assert forall|x: PendingNote| #[trigger] st.pending.contains(x) <==> open_in(notes, r.take(0), x) by {}
        assert forall|x: MidiNote| #[trigger] st.notes.contains(x) <==> done_in(notes, r.take(0), x) by {}
    } else {
        lemma_reading(notes, duration_us, i - 1);
        let q = lemma_event_source(notes, duration_us, i - 1);
        lemma_notes_fit(notes, duration_us);
        lemma_clip_event_at(notes, duration_us);
        lemma_event_bounds(notes, duration_us, q);
        if q == 0 || q == 2 * notes.len() + 1 {
            lemma_step_no_note(notes, duration_us, i - 1, q);
        } else {
            let a = (q - 1) / 2;
            if q == 2 * a + 1 {
                lemma_step_down(notes, duration_us, i - 1, a);
            } else {
                lemma_step_up(notes, duration_us, i - 1, a);
            }
        }
    }
}

/// Two sequences without repeats that hold the same items are the same multiset.
proof fn lemma_same_items<T>(a: Seq<T>, b: Seq<T>)
    requires
        a.no_duplicates(),
        b.no_duplicates(),
        forall|x: T| #[trigger] a.contains(x) <==> b.contains(x),
    ensures
        a.to_multiset() == b.to_multiset(),
{
    a.lemma_multiset_has_no_duplicates();
    b.lemma_multiset_has_no_duplicates();
    assert forall|x: T| a.to_multiset().count(x) == b.to_multiset().count(x) by {
        vstd::seq_lib::to_multiset_contains(a, x);
        vstd::seq_lib::to_multiset_contains(b, x);
    }
    assert(a.to_multiset() =~= b.to_multiset());
}

proof fn lemma_grid_distinct(notes: Seq<MidiNote>, duration_us: u64)
    requires
        keys_apart(notes),
        ends_within(notes, duration_us),
        within_tick_range(duration_us),
    ensures
        notes_on_tick_grid(notes).no_duplicates(),
{
    let q = notes_on_tick_grid(notes);
    assert forall|i: int, j: int| 0 <= i < q.len() && 0 <= j < q.len() && i != j implies q[i] != q[j] by {
        if q[i] == q[j] {
            let ti = key_down_event(notes[i]).tick;
            let tj = key_down_event(notes[j]).tick;
            if ti < tj {
                lemma_tick_time_strict(ti, tj);
            } else if tj < ti {
                lemma_tick_time_strict(tj, ti);
            }
            lemma_one_note_per_tick(notes, duration_us, i, j);
        }
    }
}

/// Notes that keep their keys apart still do so in any order.
pub proof fn lemma_keys_apart_in_any_order(a: Seq<MidiNote>, b: Seq<MidiNote>)
    requires
        keys_apart(b),
        a.to_multiset() == b.to_multiset(),
    ensures
        keys_apart(a),
        forall|n: MidiNote| #[trigger] a.contains(n) <==> b.contains(n),
{
    assert forall|n: MidiNote| #[trigger] a.contains(n) <==> b.contains(n) by {
        vstd::seq_lib::to_multiset_contains(a, n);
        vstd::seq_lib::to_multiset_contains(b, n);
    }
    b.lemma_multiset_has_no_duplicates();
    a.lemma_multiset_has_no_duplicates_conv();
}

/// Reading back the file written for a clip gives the clip's notes again, each with its start
/// and end moved to the ticks they were written at, when no note is listed twice and two notes
/// of the same channel and key never overlap on the tick grid (chords are fine): every event
/// written fits the file format, the events, read in file order, pair up into exactly those
/// notes, each once, and the clip's length comes back on the tick grid.
pub proof fn law_written_clip_notes_read_back(notes: Seq<MidiNote>, duration_us: u64)
    requires
        keys_apart(notes),
        ends_within(notes, duration_us),
        within_tick_range(duration_us),
    ensures
        events_fit(with_deltas(stable_sorted(clip_timed_events(notes, duration_us)))),
        stable_sorted(smf_unsorted_notes(read_back_model(notes, duration_us), CLIP_TICKS_PER_QUARTER)).to_multiset()
            == notes_on_tick_grid(notes).to_multiset(),
        smf_duration_us(read_back_model(notes, duration_us), CLIP_TICKS_PER_QUARTER)
            == tick_time_us(end_tick(duration_us)),
{
    let r = file_events(notes, duration_us);
    let s = clip_timed_events(notes, duration_us);
    let n: int = notes.len() as int;
    lemma_file_events(notes, duration_us);
    lemma_notes_fit(notes, duration_us);
    lemma_clip_event_at(notes, duration_us);
    // Every event fits the file format.
    let written = with_deltas(r);
    assert forall|p: int| 0 <= p < written.len() implies #[trigger] event_fits(written[p]) by {
        assert(r.contains(r[p]));
        let q = choose|q: int| 0 <= q < s.len() && s[q] == r[p];
        lemma_event_bounds(notes, duration_us, q);
        if p > 0 {
            assert(r[p - 1].tick <= r[p].tick);
        }
    }
    // Reading all events leaves no note open and every note finished once.
    lemma_reading(notes, duration_us, 2 * n + 2);
    assert(r.take(2 * n + 2) =~= r);
    let track = parsed_track(written);
    assert(track.take(2 * n + 2) =~= track);
    let m = read_back_model(notes, duration_us);
    let s0 = TrackerState { pending: Seq::<PendingNote>::empty(), notes: Seq::<MidiNote>::empty() };
    assert(m.tracks.drop_last() =~= Seq::<Seq<SmfEvent>>::empty());
    assert(pair_tracks(m.tracks.drop_last(), CLIP_TICKS_PER_QUARTER) == s0);
    let finished = pair_tracks(m.tracks, CLIP_TICKS_PER_QUARTER);
    assert(finished == state_after(notes, duration_us, 2 * n + 2));
    if finished.pending.len() > 0 {
        assert(finished.pending.contains(finished.pending[0]));
        let j = choose|j: int| #![trigger notes[j]] 0 <= j < notes.len() && finished.pending[0] == pending_of(notes[j])
            && r.contains(key_down_event(notes[j])) && !r.contains(key_up_event(notes[j]));
        assert(s[2 * j + 2] == key_up_event(notes[j]));
        assert(s.contains(s[2 * j + 2]));
    }
    assert(finished.pending =~= Seq::<PendingNote>::empty());
    let unsorted = smf_unsorted_notes(m, CLIP_TICKS_PER_QUARTER);
    assert(unsorted =~= finished.notes);
    let grid = notes_on_tick_grid(notes);
    assert forall|x: MidiNote| #[trigger] unsorted.contains(x) <==> grid.contains(x) by {
        if unsorted.contains(x) {
            assert(done_in(notes, r, x));
            let j = choose|j: int| #![trigger notes[j]] 0 <= j < notes.len() && x == on_tick_grid(notes[j])
                && r.contains(key_up_event(notes[j]));
            assert(grid[j] == x);
        }
        if grid.contains(x) {
            let j = choose|j: int| 0 <= j < grid.len() && grid[j] == x;
            assert(s[2 * j + 2] == key_up_event(notes[j]));
            assert(s.contains(s[2 * j + 2]));
            assert(done_in(notes, r, x));
        }
    }
    lemma_grid_distinct(notes, duration_us);
    lemma_same_items(unsorted, grid);
    lemma_stable_sort_exists(unsorted);
    law_stable_sort_is_permutation(stable_sorted(unsorted), unsorted);
    // The longest (only) track ends at the end tick.
    lemma_scan(r, 2 * n + 2);
    assert(s.contains(s[2 * n + 1]));
    assert(r.contains(s[2 * n + 1]));
    let pe = choose|p: int| 0 <= p < r.len() && r[p] == s[2 * n + 1];
    assert(r[pe].tick <= r[2 * n + 1].tick);
    assert(r.contains(r[2 * n + 1]));
    let qe = choose|q: int| 0 <= q < s.len() && s[q] == r[2 * n + 1];
    lemma_event_bounds(notes, duration_us, qe);
    assert(max_track_acc(m.tracks.drop_last()) == 0);
}

/// Two lists of the same notes, in any order, give the same notes on the tick grid.
pub proof fn lemma_grid_in_any_order(a: Seq<MidiNote>, b: Seq<MidiNote>, duration_us: u64)
    requires
        keys_apart(b),
        a.to_multiset() == b.to_multiset(),
        ends_within(b, duration_us),
        within_tick_range(duration_us),
    ensures
        keys_apart(a),
        ends_within(a, duration_us),
        notes_on_tick_grid(a).to_multiset() == notes_on_tick_grid(b).to_multiset(),
{
    lemma_keys_apart_in_any_order(a, b);
    assert forall|i: int| 0 <= i < a.len() implies #[trigger] a[i].end_us <= duration_us by {
        assert(a.contains(a[i]));
        let j = choose|j: int| 0 <= j < b.len() && b[j] == a[i];
        assert(b[j].end_us <= duration_us);
    }
    lemma_grid_distinct(a, duration_us);
    lemma_grid_distinct(b, duration_us);
    let ga = notes_on_tick_grid(a);
    let gb = notes_on_tick_grid(b);
    assert forall|x: MidiNote| #[trigger] ga.contains(x) <==> gb.contains(x) by {
        if ga.contains(x) {
            let i = choose|i: int| 0 <= i < ga.len() && ga[i] == x;
            assert(a.contains(a[i]));
            assert(b.contains(a[i]));
            let j = choose|j: int| 0 <= j < b.len() && b[j] == a[i];
            assert(gb[j] == x);
        }
        if gb.contains(x) {
            let j = choose|j: int| 0 <= j < gb.len() && gb[j] == x;
            assert(b.contains(b[j]));
            assert(a.contains(b[j]));
            let i = choose|i: int| 0 <= i < a.len() && a[i] == b[j];
            assert(ga[i] == x);
        }
    }
    lemma_same_items(ga, gb);
}

/// Every tick a clip of these notes and this length is written at fits the 28 bits a file
/// gives an event's delta time.
pub open spec fn clip_in_tick_range(notes: Seq<MidiNote>, duration_us: u64) -> bool {
    &&& within_tick_range(duration_us)
    &&& forall|n: MidiNote| #[trigger] notes.contains(n) ==> key_up_event(n).tick < 0x1000_0000
}

proof fn lemma_event_shape(notes: Seq<MidiNote>, duration_us: u64, q: int)
    requires
        clip_in_tick_range(notes, duration_us),
        0 <= q < 2 * notes.len() + 2,
    ensures
        ({
            let e = clip_timed_events(notes, duration_us)[q];
            &&& e.key_of() == e.tick * 256 + e.order
            &&& e.tick < 0x1000_0000
            &&& event_fits(crate::smf::WrittenEvent { delta: 0, kind: e.kind })
        }),
{
    lemma_clip_event_at(notes, duration_us);
    if 1 <= q <= 2 * notes.len() {
        let a = (q - 1) / 2;
        assert(q == 2 * a + 1 || q == 2 * a + 2);
        assert(notes.contains(notes[a]));
    }
}

/// Every event of a clip in the tick range fits the file format, in file order with delta
/// times.
pub proof fn lemma_written_events_fit(notes: Seq<MidiNote>, duration_us: u64)
    requires
        clip_in_tick_range(notes, duration_us),
    ensures
        events_fit(with_deltas(stable_sorted(clip_timed_events(notes, duration_us)))),
{
    let s = clip_timed_events(notes, duration_us);
    let r = stable_sorted(s);
    lemma_clip_event_at(notes, duration_us);
    lemma_stable_sort_exists(s);
    law_stable_sort_is_permutation(r, s);
    r.to_multiset_ensures();
    s.to_multiset_ensures();
    assert forall|p: int| 0 <= p < r.len() implies {
        &&& #[trigger] r[p].key_of() == r[p].tick * 256 + r[p].order
        &&& r[p].tick < 0x1000_0000
        &&& event_fits(crate::smf::WrittenEvent { delta: 0, kind: r[p].kind })
    } by {
        assert(r.contains(r[p]));
        vstd::seq_lib::to_multiset_contains(r, r[p]);
        vstd::seq_lib::to_multiset_contains(s, r[p]);
        let q = choose|q: int| 0 <= q < s.len() && s[q] == r[p];
        lemma_event_shape(notes, duration_us, q);
    }
    let written = with_deltas(r);
    assert forall|p: int| 0 <= p < written.len() implies #[trigger] event_fits(written[p]) by {
        assert(r[p].key_of() == r[p].tick * 256 + r[p].order);
        if p > 0 {
            assert(r[p - 1].key_of() <= r[p].key_of());
            assert(r[p - 1].key_of() == r[p - 1].tick * 256 + r[p - 1].order);
        }
    }
}

/// A time moved to the tick grid stays within 521 us of where it was (half a tick, 1/1920 s,
/// plus the rounding down of the tick's time to a microsecond).
pub proof fn law_tick_grid_is_close(us: u64)
    requires
        us_to_ticks(us) < 0x1000_0000,
    ensures
        us - 521 <= tick_time_us(us_to_ticks(us)) <= us + 521,
{
    let a: int = us * 960 + 500_000;
    let t: int = us_to_ticks(us) as int;
    assert(t == a / 1_000_000);
    assert(1_000_000 * t <= a < 1_000_000 * t + 1_000_000);
    let y: int = t * 500_000;
    assert(tick_time_us(us_to_ticks(us)) == y / 480);
    assert(480 * (y / 480) <= y < 480 * (y / 480) + 480);
}

/// A writable note moved to the tick grid keeps its channel, key and velocity, and its start
/// and its end each stay within 521 us of where they were.
pub proof fn law_on_tick_grid_is_close(n: MidiNote)
    requires
        note_writable(n),
        key_up_event(n).tick < 0x1000_0000,
    ensures
        on_tick_grid(n).channel == n.channel,
        on_tick_grid(n).note == n.note,
        on_tick_grid(n).velocity == n.velocity,
        n.start_us - 521 <= on_tick_grid(n).start_us <= n.start_us + 521,
        n.end_us - 521 <= on_tick_grid(n).end_us <= n.end_us + 521,
{
    lemma_us_to_ticks_monotone(n.start_us, n.end_us);
    assert(key_up_event(n).tick == us_to_ticks(n.end_us));
    law_tick_grid_is_close(n.start_us);
    law_tick_grid_is_close(n.end_us);
}

/// Two writable notes of which one ends before the other starts stay apart on the tick grid.
pub proof fn law_notes_apart_in_time_stay_apart(a: MidiNote, b: MidiNote)
    requires
        note_writable(a),
        note_writable(b),
        a.end_us <= b.start_us,
    ensures
        key_up_event(a).tick <= key_down_event(b).tick,
{
    lemma_us_to_ticks_monotone(a.start_us, a.end_us);
    lemma_us_to_ticks_monotone(a.end_us, b.start_us);
}

/// Notes of which two of the same channel and key never overlap in time: one ends no later
/// than the other starts.
pub open spec fn keys_apart_in_time(notes: Seq<MidiNote>) -> bool {
    forall|i: int, j: int| 0 <= i < notes.len() && 0 <= j < notes.len() && i != j
        && same_key(#[trigger] notes[i], #[trigger] notes[j])
        ==> notes[i].end_us <= notes[j].start_us || notes[j].end_us <= notes[i].start_us
}

/// Reading back the file written for a clip gives every note again, and only those, each within
/// 521 us (half a tick and a microsecond) at its start and at its end, with its channel, key and
/// velocity, when every note is writable, two notes of the same channel and key never overlap
/// in time, and the clip covers every note and fits the tick range; the clip's length comes back
/// within 521 us too.
pub proof fn law_written_clip_reads_back_closely(notes: Seq<MidiNote>, duration_us: u64)
    requires
        forall|i: int| 0 <= i < notes.len() ==> #[trigger] note_writable(notes[i]),
        keys_apart_in_time(notes),
        ends_within(notes, duration_us),
        within_tick_range(duration_us),
    ensures
        events_fit(with_deltas(stable_sorted(clip_timed_events(notes, duration_us)))),
        stable_sorted(smf_unsorted_notes(read_back_model(notes, duration_us), CLIP_TICKS_PER_QUARTER)).to_multiset()
            == notes_on_tick_grid(notes).to_multiset(),
        forall|i: int| 0 <= i < notes.len() ==> {
            let g = #[trigger] notes_on_tick_grid(notes)[i];
            &&& g.channel == notes[i].channel && g.note == notes[i].note && g.velocity == notes[i].velocity
            &&& notes[i].start_us - 521 <= g.start_us <= notes[i].start_us + 521
            &&& notes[i].end_us - 521 <= g.end_us <= notes[i].end_us + 521
        },
        max_u64(duration_us, MIN_WRITTEN_US) - 521 <= smf_duration_us(read_back_model(notes, duration_us), CLIP_TICKS_PER_QUARTER)
            <= max_u64(duration_us, MIN_WRITTEN_US) + 521,
{
    // No note is listed twice, and notes of one key stay apart on the tick grid.
    assert forall|i: int, j: int| 0 <= i < notes.len() && 0 <= j < notes.len() && i != j implies notes[i] != notes[j] by {
        if notes[i] == notes[j] {
            assert(same_key(notes[i], notes[j]));
            assert(note_writable(notes[i]));
        }
    }
    assert forall|n: MidiNote| #[trigger] notes.contains(n) implies note_writable(n) by {
        let i = choose|i: int| 0 <= i < notes.len() && notes[i] == n;
        assert(note_writable(notes[i]));
    }
    assert forall|x: MidiNote, y: MidiNote| #[trigger] notes.contains(x) && #[trigger] notes.contains(y) && x != y
        && same_key(x, y) implies apart(x, y) by {
        let i = choose|i: int| 0 <= i < notes.len() && notes[i] == x;
        let j = choose|j: int| 0 <= j < notes.len() && notes[j] == y;
        assert(same_key(notes[i], notes[j]));
        if x.end_us <= y.start_us {
            law_notes_apart_in_time_stay_apart(x, y);
        } else {
            law_notes_apart_in_time_stay_apart(y, x);
        }
    }
    assert(keys_apart(notes));
    law_written_clip_notes_read_back(notes, duration_us);
    assert forall|i: int| 0 <= i < notes.len() implies {
        let g = #[trigger] notes_on_tick_grid(notes)[i];
        &&& g.channel == notes[i].channel && g.note == notes[i].note && g.velocity == notes[i].velocity
        &&& notes[i].start_us - 521 <= g.start_us <= notes[i].start_us + 521
        &&& notes[i].end_us - 521 <= g.end_us <= notes[i].end_us + 521
    } by {
        assert(note_writable(notes[i]));
        assert(notes[i].end_us <= duration_us);
        lemma_written_note(notes[i], duration_us);
        law_on_tick_grid_is_close(notes[i]);
    }
    law_tick_grid_is_close(max_u64(duration_us, MIN_WRITTEN_US));
}

} // verus!
