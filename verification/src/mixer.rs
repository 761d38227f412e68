use vstd::prelude::*;
use crate::text::{chars_of, concat_str, push_decimal, decimal, string_from_range};

verus! {

/// Frames written to the output file per block.
pub const WRITE_CHUNK_FRAMES: usize = 16_384;

/// Outcome of a mix: how many tracks went in and the shape of the output.
#[derive(Debug, Clone, Copy, PartialEq, Eq, Structural)]
pub struct MixSummary {
    pub track_count: usize,
    pub sample_rate: u32,
    pub channels: u16,
    pub frames: usize,
}

/// The integer shape of a track to be mixed: its audio, where it sits on the timeline, which
/// part of the audio it plays, and its switches.
#[derive(Debug, Clone, Copy, PartialEq, Eq, Structural)]
pub struct TrackLayout {
    pub sample_rate: u32,
    pub channels: u16,
    pub audio_frames: usize,
    pub offset_frames: usize,
    pub clip_start_frames: usize,
    pub clip_frame_count: usize,
    pub mute: bool,
    pub solo: bool,
}

// ---------------------------------------------------------------------------------------------
// Track specs on the command line

/// `path:gain` split at the last ':'; the gain text is read by the caller.
pub open spec fn spec_split_track_spec(raw: Seq<char>) -> Result<(Seq<char>, Seq<char>), Seq<char>> {
    match last_colon(raw) {
        Some(i) => Ok((raw.take(i), raw.skip(i + 1))),
        None => Err("invalid track spec `"@ + raw + "`; expected format `path.wav:gain`"@),
    }
}

pub open spec fn last_colon(s: Seq<char>) -> Option<int>
    decreases s.len(),
{
    if s.len() == 0 {
        None
    } else if s.last() == ':' {
        Some(s.len() - 1)
    } else {
        last_colon(s.drop_last())
    }
}

proof fn lemma_last_colon(s: Seq<char>, i: int)
    requires
        -1 <= i < s.len(),
        forall|k: int| i < k < s.len() ==> #[trigger] s[k] != ':',
        i >= 0 ==> s[i] == ':',
    ensures
        last_colon(s) == if i < 0 { None::<int> } else { Some(i) },
    decreases s.len(),
{
    if s.len() > 0 && i < s.len() - 1 {
        let t = s.drop_last();
        assert forall|k: int| i < k < t.len() implies #[trigger] t[k] != ':' by {
            assert(t[k] == s[k]);
        }
        if i >= 0 {
            assert(t[i] == s[i]);
        }
        lemma_last_colon(t, i);
    }
}

/// Splits a command-line track spec `path:gain` at its last ':'.
pub fn split_track_spec(raw: &str) -> (r: Result<(String, String), String>)
    ensures
        match r {
            Ok((p, g)) => spec_split_track_spec(raw@) == Ok::<(Seq<char>, Seq<char>), Seq<char>>((p@, g@)),
            Err(e) => spec_split_track_spec(raw@) == Err::<(Seq<char>, Seq<char>), Seq<char>>(e@),
        },
{
    let v = chars_of(raw);
    let mut i = v.len();
    while i > 0 && v[i - 1] != ':'
        invariant
            i <= v.len(),
            forall|k: int| i <= k < v.len() ==> #[trigger] v@[k] != ':',
        decreases i,
    {
        i = i - 1;
    }
    proof {
        lemma_last_colon(v@, i - 1);
    }
    if i == 0 {
        let mut msg = concat_str("invalid track spec `", raw);
        msg.append("`; expected format `path.wav:gain`");
        Err(msg)
    } else {
        let path = string_from_range(&v, 0, i - 1);
        let gain = string_from_range(&v, i, v.len());
        proof {
            assert(path@ =~= v@.take(i - 1));
            assert(gain@ =~= v@.skip(i as int));
        }
        Ok((path, gain))
    }
}

// ---------------------------------------------------------------------------------------------
// Which tracks sound

/// A track sounds unless muted; when any track is soloed, only soloed tracks sound.
pub open spec fn audible(tracks: Seq<TrackLayout>, t: TrackLayout) -> bool {
    !t.mute && (!any_solo(tracks) || t.solo)
}

pub open spec fn any_solo(tracks: Seq<TrackLayout>) -> bool {
    exists|i: int| 0 <= i < tracks.len() && #[trigger] tracks[i].solo
}

/// Positions of the audible tracks, in order.
pub open spec fn audible_indices(tracks: Seq<TrackLayout>, upto: int) -> Seq<usize>
    decreases upto,
{
    if upto <= 0 {
        Seq::empty()
    } else {
        let rest = audible_indices(tracks, upto - 1);
        if audible(tracks, tracks[upto - 1]) { rest.push((upto - 1) as usize) } else { rest }
    }
}

pub open spec fn no_audible_message() -> Seq<char> {
    "no audible tracks to mix"@
}

/// The positions of the tracks that sound, in order; an error when none does.
pub fn active_track_indices(tracks: &Vec<TrackLayout>) -> (r: Result<Vec<usize>, String>)
    ensures
        match r {
            Ok(v) => v@ == audible_indices(tracks@, tracks@.len() as int) && v@.len() > 0,
            Err(e) => audible_indices(tracks@, tracks@.len() as int).len() == 0 && e@ == no_audible_message(),
        },
{
    let n = tracks.len();
    let mut has_solo = false;
    for i in 0..n
        invariant
            n == tracks.len(),
            has_solo == exists|k: int| 0 <= k < i && #[trigger] tracks@[k].solo,
    {
        if tracks[i].solo {
            has_solo = true;
        }
    }
    let mut r: Vec<usize> = Vec::new();
    for i in 0..n
        invariant
            n == tracks.len(),
            has_solo == any_solo(tracks@),
            r@ == audible_indices(tracks@, i as int),
    {
        let t = tracks[i];
        if !t.mute && (!has_solo || t.solo) {
            r.push(i);
        }
    }
    if r.len() == 0 {
        Err(String::from_str("no audible tracks to mix"))
    } else {
        Ok(r)
    }
}

// ---------------------------------------------------------------------------------------------
// Clip bounds

pub open spec fn spec_check_clip_bounds(t: TrackLayout) -> Result<(), Seq<char>> {
    if t.clip_start_frames > t.audio_frames {
        Err("clip start exceeds source length"@)
    } else if t.clip_start_frames + t.clip_frame_count > t.audio_frames {
        Err("clip end exceeds source length"@)
    } else {
        Ok(())
    }
}

/// The played part of a track must lie within its audio.
pub fn check_clip_bounds(t: &TrackLayout) -> (r: Result<(), String>)
    ensures
        match r {
            Ok(()) => spec_check_clip_bounds(*t) == Ok::<(), Seq<char>>(()),
            Err(e) => spec_check_clip_bounds(*t) == Err::<(), Seq<char>>(e@),
        },
{
    if t.clip_start_frames > t.audio_frames {
        Err(String::from_str("clip start exceeds source length"))
    } else if t.clip_frame_count > t.audio_frames - t.clip_start_frames {
        Err(String::from_str("clip end exceeds source length"))
    } else {
        Ok(())
    }
}

// ---------------------------------------------------------------------------------------------
// The mix's shape

/// Shape of a mix of the given tracks: the first track's sample rate, the most channels, and
/// enough frames for the track that ends last.
#[derive(Debug, Clone, Copy, PartialEq, Eq, Structural)]
pub struct MixShape {
    pub sample_rate: u32,
    pub channels: u16,
    pub frames: usize,
}

pub open spec fn max_channels(tracks: Seq<TrackLayout>) -> u16
    decreases tracks.len(),
{
    if tracks.len() == 0 {
        0
    } else {
        let a = max_channels(tracks.drop_last());
        let b = tracks.last().channels;
        if a >= b { a } else { b }
    }
}

pub open spec fn track_end(t: TrackLayout) -> int {
    t.offset_frames + t.clip_frame_count
}

pub open spec fn max_end(tracks: Seq<TrackLayout>) -> int
    decreases tracks.len(),
{
    if tracks.len() == 0 {
        0
    } else {
        let a = max_end(tracks.drop_last());
        let b = track_end(tracks.last());
        if a >= b { a } else { b }
    }
}

/// The first track, after the first, whose sample rate differs from the first track's.
pub open spec fn first_rate_mismatch(tracks: Seq<TrackLayout>, upto: int) -> Option<int>
    decreases upto,
{
    if upto <= 1 {
        None
    } else {
        match first_rate_mismatch(tracks, upto - 1) {
            Some(i) => Some(i),
            None => if tracks[upto - 1].sample_rate != tracks[0].sample_rate { Some(upto - 1) } else { None },
        }
    }
}

pub open spec fn rate_mismatch_message(position: int, rate: u32, expected: u32) -> Seq<char> {
    "track "@ + decimal((position + 1) as nat) + " has sample rate "@ + decimal(rate as nat)
        + ", expected "@ + decimal(expected as nat)
}

pub open spec fn spec_mix_shape(tracks: Seq<TrackLayout>) -> Result<MixShape, Seq<char>> {
    if tracks.len() == 0 {
        Err("no tracks to mix"@)
    } else {
        match first_rate_mismatch(tracks, tracks.len() as int) {
            Some(i) => Err(rate_mismatch_message(i, tracks[i].sample_rate, tracks[0].sample_rate)),
            None => Ok(MixShape {
                sample_rate: tracks[0].sample_rate,
                channels: max_channels(tracks),
                frames: max_end(tracks) as usize,
            }),
        }
    }
}

/// Works out the shape of a mix; all tracks must share the first track's sample rate.
pub fn mix_shape(tracks: &Vec<TrackLayout>) -> (r: Result<MixShape, String>)
    requires
        forall|i: int| 0 <= i < tracks@.len() ==> track_end(#[trigger] tracks@[i]) <= usize::MAX,
    ensures
        match r {
            Ok(s) => spec_mix_shape(tracks@) == Ok::<MixShape, Seq<char>>(s),
            Err(e) => spec_mix_shape(tracks@) == Err::<MixShape, Seq<char>>(e@),
        },
{
    if tracks.len() == 0 {
        return Err(String::from_str("no tracks to mix"));
    }
    let n = tracks.len();
    let sample_rate = tracks[0].sample_rate;
    let mut channels: u16 = 0;
    let mut frames: usize = 0;
    for i in 0..n
        invariant
            n == tracks.len(),
            forall|k: int| 0 <= k < tracks@.len() ==> track_end(#[trigger] tracks@[k]) <= usize::MAX,
            channels == max_channels(tracks@.take(i as int)),
            frames == max_end(tracks@.take(i as int)),
    {
        proof {
            assert(tracks@.take(i + 1).drop_last() =~= tracks@.take(i as int));
            assert(track_end(tracks@[i as int]) <= usize::MAX);
        }
        let t = tracks[i];
        if t.channels > channels {
            channels = t.channels;
        }
        let end = t.offset_frames + t.clip_frame_count;
        if end > frames {
            frames = end;
        }
    }
    proof {
        assert(tracks@.take(n as int) =~= tracks@);
    }
    for i in 1..n
        invariant
            n == tracks.len(),
            n >= 1,
            sample_rate == tracks@[0].sample_rate,
            first_rate_mismatch(tracks@, i as int) is None,
    {
        let rate = tracks[i].sample_rate;
        if rate != sample_rate {
            let mut msg = String::from_str("track ");
            push_decimal(&mut msg, (i as u64) + 1);
            msg.append(" has sample rate ");
            push_decimal(&mut msg, rate as u64);
            msg.append(", expected ");
            push_decimal(&mut msg, sample_rate as u64);
            proof {
                assert(first_rate_mismatch(tracks@, i + 1) == Some(i as int));
                lemma_first_rate_mismatch_stable(tracks@, i + 1, n as int);
            }
            return Err(msg);
        }
    }
    Ok(MixShape { sample_rate, channels, frames })
}

proof fn lemma_first_rate_mismatch_stable(tracks: Seq<TrackLayout>, a: int, b: int)
    requires
        1 <= a <= b,
        first_rate_mismatch(tracks, a) is Some,
    ensures
        first_rate_mismatch(tracks, b) == first_rate_mismatch(tracks, a),
    decreases b - a,
{
    if a < b {
        lemma_first_rate_mismatch_stable(tracks, a, b - 1);
    }
}

// ---------------------------------------------------------------------------------------------
// Placing a track in a block of output

/// Where a track's audio lands in a block: `len` frames read from audio frame `source_start`
/// and added at block frame `block_start`.
#[derive(Debug, Clone, Copy, PartialEq, Eq, Structural)]
pub struct Overlap {
    pub source_start: usize,
    pub block_start: usize,
    pub len: usize,
}

pub open spec fn min_int(a: int, b: int) -> int {
    if a <= b { a } else { b }
}

pub open spec fn max_int(a: int, b: int) -> int {
    if a >= b { a } else { b }
}

/// The part of a track (placed at `offset_frames`, `clip_frame_count` frames long, read from
/// `clip_start_frames`) that falls inside the block of `frame_count` frames at `frame_start`.
pub open spec fn spec_overlap(t: TrackLayout, frame_start: usize, frame_count: usize) -> Option<Overlap> {
    let chunk_end = min_int(frame_start + frame_count, usize::MAX as int);
    let track_start = t.offset_frames as int;
    let track_end = t.offset_frames + t.clip_frame_count;
    if chunk_end <= track_start || frame_start >= track_end {
        None
    } else {
        let start = max_int(frame_start as int, track_start);
        let end = min_int(chunk_end, track_end);
        Some(Overlap {
            source_start: (t.clip_start_frames + (start - track_start)) as usize,
            block_start: (start - frame_start) as usize,
            len: (end - start) as usize,
        })
    }
}

pub fn block_overlap(t: &TrackLayout, frame_start: usize, frame_count: usize) -> (r: Option<Overlap>)
    requires
        track_end(*t) <= usize::MAX,
        t.clip_start_frames + t.clip_frame_count <= usize::MAX,
    ensures
        r == spec_overlap(*t, frame_start, frame_count),
{
    let chunk_end = frame_start.saturating_add(frame_count);
    let track_start = t.offset_frames;
    let track_end = t.offset_frames + t.clip_frame_count;
    if chunk_end <= track_start || frame_start >= track_end {
        return None;
    }
    let start = if frame_start >= track_start { frame_start } else { track_start };
    let end = if chunk_end <= track_end { chunk_end } else { track_end };
    Some(Overlap {
        source_start: t.clip_start_frames + (start - track_start),
        block_start: start - frame_start,
        len: end - start,
    })
}

/// Which source samples feed an output channel: one sample, or the average of two.
#[derive(Debug, Clone, Copy, PartialEq, Eq, Structural)]
pub enum SampleSource {
    One(usize),
    Average(usize, usize),
}

/// Channel mapping from interleaved audio with `input_channels` channels to an output with
/// `output_channels`: mono feeds every output channel; stereo is averaged into mono output and
/// otherwise feeds left to channel 0 and right to every other channel; wider input feeds each
/// output channel from the same channel, or from its last channel.
pub open spec fn spec_sample_source(input_channels: nat, frame: nat, out_ch: nat, output_channels: nat) -> SampleSource {
    if input_channels == 1 {
        SampleSource::One(frame as usize)
    } else if input_channels == 2 && output_channels == 1 {
        SampleSource::Average((frame * 2) as usize, (frame * 2 + 1) as usize)
    } else if input_channels == 2 {
        SampleSource::One((frame * 2 + if out_ch >= 1 { 1nat } else { 0nat }) as usize)
    } else {
        let src_ch = if out_ch <= input_channels - 1 { out_ch } else { (input_channels - 1) as nat };
        SampleSource::One((frame * input_channels + src_ch) as usize)
    }
}

pub fn sample_source(input_channels: u16, frame: usize, out_ch: usize, output_channels: usize) -> (r: SampleSource)
    requires
        input_channels >= 1,
        (frame + 1) * (input_channels as int) <= usize::MAX,
    ensures
        r == spec_sample_source(input_channels as nat, frame as nat, out_ch as nat, output_channels as nat),
{
    let n = input_channels as usize;
    proof {
        assert(frame * n + n <= usize::MAX) by (nonlinear_arith)
            requires (frame + 1) * n <= usize::MAX;
        assert(frame * n <= frame * n + n) by (nonlinear_arith)
            requires n >= 1;
    }
    if n == 1 {
        SampleSource::One(frame)
    } else if n == 2 && output_channels == 1 {
        SampleSource::Average(frame * 2, frame * 2 + 1)
    } else if n == 2 {
        SampleSource::One(frame * 2 + if out_ch >= 1 { 1 } else { 0 })
    } else {
        let src_ch = if out_ch <= n - 1 { out_ch } else { n - 1 };
        SampleSource::One(frame * n + src_ch)
    }
}

/// The next block to write: from `frame_start`, at most `WRITE_CHUNK_FRAMES` frames, never
/// past the end.
pub fn next_block_len(total_frames: usize, frame_start: usize) -> (r: usize)
    requires
        frame_start < total_frames,
    ensures
        r == min_int(total_frames - frame_start, WRITE_CHUNK_FRAMES as int),
        0 < r,
{
    let remaining = total_frames - frame_start;
    if remaining <= WRITE_CHUNK_FRAMES { remaining } else { WRITE_CHUNK_FRAMES }
}

// ---------------------------------------------------------------------------------------------
// Laws of the mix

proof fn lemma_max_end(tracks: Seq<TrackLayout>)
    ensures
        forall|i: int| 0 <= i < tracks.len() ==> track_end(#[trigger] tracks[i]) <= max_end(tracks),
        tracks.len() > 0 ==> exists|i: int| 0 <= i < tracks.len() && track_end(#[trigger] tracks[i]) == max_end(tracks),
        tracks.len() == 0 ==> max_end(tracks) == 0,
    decreases tracks.len(),
{
    if tracks.len() > 0 {
        let init = tracks.drop_last();
        lemma_max_end(init);
        assert forall|i: int| 0 <= i < tracks.len() implies track_end(#[trigger] tracks[i]) <= max_end(tracks) by {
            if i < init.len() {
                assert(tracks[i] == init[i]);
            }
        }
        if max_end(init) >= track_end(tracks.last()) && init.len() > 0 {
            let i = choose|i: int| 0 <= i < init.len() && track_end(#[trigger] init[i]) == max_end(init);
            assert(tracks[i] == init[i]);
        } else {
            assert(track_end(tracks[tracks.len() - 1]) == max_end(tracks));
        }
    }
}

proof fn lemma_max_channels(tracks: Seq<TrackLayout>)
    ensures
        forall|i: int| 0 <= i < tracks.len() ==> (#[trigger] tracks[i]).channels <= max_channels(tracks),
        tracks.len() > 0 ==> exists|i: int| 0 <= i < tracks.len() && (#[trigger] tracks[i]).channels == max_channels(tracks),
    decreases tracks.len(),
{
    if tracks.len() > 0 {
        let init = tracks.drop_last();
        lemma_max_channels(init);
        assert forall|i: int| 0 <= i < tracks.len() implies (#[trigger] tracks[i]).channels <= max_channels(tracks) by {
            if i < init.len() {
                assert(tracks[i] == init[i]);
            }
        }
        if max_channels(init) >= tracks.last().channels && init.len() > 0 {
            let i = choose|i: int| 0 <= i < init.len() && (#[trigger] init[i]).channels == max_channels(init);
            assert(tracks[i] == init[i]);
        } else {
            assert(tracks[tracks.len() - 1].channels == max_channels(tracks));
        }
    }
}

proof fn lemma_first_rate_mismatch(tracks: Seq<TrackLayout>, upto: int)
    requires
        upto <= tracks.len(),
    ensures
        first_rate_mismatch(tracks, upto) is None <==> forall|i: int| 0 <= i < upto ==> (#[trigger] tracks[i]).sample_rate == tracks[0].sample_rate,
    decreases upto,
{
    if upto > 1 {
        lemma_first_rate_mismatch(tracks, upto - 1);
        if first_rate_mismatch(tracks, upto - 1) is Some {
            let bad = choose|i: int| !(0 <= i < upto - 1 ==> (#[trigger] tracks[i]).sample_rate == tracks[0].sample_rate);
            assert(0 <= bad < upto);
        }
    }
}

/// The mix lasts exactly as long as the track that ends last: every track fits in it (the
/// shorter ones are padded with silence) and one of them fills it.
pub proof fn law_mix_lasts_as_long_as_the_longest_track(tracks: Seq<TrackLayout>)
    requires
        forall|i: int| 0 <= i < tracks.len() ==> track_end(#[trigger] tracks[i]) <= usize::MAX,
    ensures
        spec_mix_shape(tracks) matches Ok(s) ==> {
            &&& forall|i: int| 0 <= i < tracks.len() ==> track_end(#[trigger] tracks[i]) <= s.frames
            &&& exists|i: int| 0 <= i < tracks.len() && track_end(#[trigger] tracks[i]) == s.frames
        },
{
    lemma_max_end(tracks);
    if tracks.len() > 0 {
        let i = choose|i: int| 0 <= i < tracks.len() && track_end(#[trigger] tracks[i]) == max_end(tracks);
        assert(max_end(tracks) <= usize::MAX);
    }
}

/// Tracks are mixed only at one sample rate: the mix succeeds exactly when there is a track
/// and every track has the first track's rate, which is then the mix's rate.
pub proof fn law_mix_needs_one_sample_rate(tracks: Seq<TrackLayout>)
    ensures
        spec_mix_shape(tracks) is Ok <==> (tracks.len() > 0
            && forall|i: int| 0 <= i < tracks.len() ==> (#[trigger] tracks[i]).sample_rate == tracks[0].sample_rate),
        spec_mix_shape(tracks) matches Ok(s) ==> forall|i: int| 0 <= i < tracks.len() ==> (#[trigger] tracks[i]).sample_rate == s.sample_rate,
{
    if tracks.len() > 0 {
        lemma_first_rate_mismatch(tracks, tracks.len() as int);
    }
}

/// The mix has as many channels as the widest track.
pub proof fn law_mix_is_as_wide_as_the_widest_track(tracks: Seq<TrackLayout>)
    ensures
        spec_mix_shape(tracks) matches Ok(s) ==> {
            &&& forall|i: int| 0 <= i < tracks.len() ==> (#[trigger] tracks[i]).channels <= s.channels
            &&& exists|i: int| 0 <= i < tracks.len() && (#[trigger] tracks[i]).channels == s.channels
        },
{
    lemma_max_channels(tracks);
}

proof fn lemma_audible_indices(tracks: Seq<TrackLayout>, upto: int, x: usize)
    requires
        upto <= tracks.len(),
        tracks.len() <= usize::MAX,
    ensures
        audible_indices(tracks, upto).contains(x) <==> (x < upto && audible(tracks, tracks[x as int])),
    decreases upto,
{
    if upto > 0 {
        lemma_audible_indices(tracks, upto - 1, x);
        let rest = audible_indices(tracks, upto - 1);
        if audible(tracks, tracks[upto - 1]) {
            let pushed = rest.push((upto - 1) as usize);
            assert(pushed[rest.len() as int] == (upto - 1) as usize);
            if pushed.contains(x) && x != upto - 1 {
                let k = choose|k: int| 0 <= k < pushed.len() && pushed[k] == x;
                assert(rest[k] == x);
            }
            if rest.contains(x) {
                let k = choose|k: int| 0 <= k < rest.len() && rest[k] == x;
                assert(pushed[k] == x);
            }
        }
    }
}

/// Mute and solo decide what is heard: a muted track is never mixed; while any track is
/// soloed only soloed tracks are mixed; and every track that is neither muted nor shut out
/// by another track's solo is mixed.
pub proof fn law_mute_and_solo_decide_the_mix(tracks: Seq<TrackLayout>, i: int)
    requires
        0 <= i < tracks.len(),
        tracks.len() <= usize::MAX,
    ensures
        tracks[i].mute ==> !audible_indices(tracks, tracks.len() as int).contains(i as usize),
        (any_solo(tracks) && !tracks[i].solo) ==> !audible_indices(tracks, tracks.len() as int).contains(i as usize),
        (!tracks[i].mute && (tracks[i].solo || !any_solo(tracks))) ==> audible_indices(tracks, tracks.len() as int).contains(i as usize),
{
    lemma_audible_indices(tracks, tracks.len() as int, i as usize);
}

/// Mixing in blocks puts every frame where it belongs: a timeline frame inside a block lies
/// in the track's overlap with that block exactly when the track covers it, and it then reads
/// the track's audio at the clip start plus its distance from the track's offset.
pub proof fn law_block_overlap_places_each_frame(t: TrackLayout, frame_start: usize, frame_count: usize, frame: int)
    requires
        track_end(t) <= usize::MAX,
        t.clip_start_frames + t.clip_frame_count <= usize::MAX,
        frame_start <= frame < min_int(frame_start + frame_count, usize::MAX as int),
    ensures
        ({
            let covered = t.offset_frames <= frame < track_end(t);
            match spec_overlap(t, frame_start, frame_count) {
                Some(o) => {
                    let at = frame - frame_start;
                    &&& (o.block_start <= at < o.block_start + o.len) == covered
                    &&& covered ==> o.source_start + (at - o.block_start) == t.clip_start_frames + (frame - t.offset_frames)
                },
                None => !covered,
            }
        }),
{
}

} // verus!
