use vstd::prelude::*;
use crate::text::{chars_of, concat_str, vec_eq_str};

verus! {

/// Output buffering strategy for realtime playback.
#[derive(Debug, Clone, Copy, PartialEq, Eq, Structural)]
pub enum LatencyMode {
    Low,
    Balanced,
    Safe,
}

/// The textual name of each latency mode, as typed by users and shown back to them.
pub open spec fn spec_latency_label(mode: LatencyMode) -> Seq<char> {
    match mode {
        LatencyMode::Low => "low"@,
        LatencyMode::Balanced => "balanced"@,
        LatencyMode::Safe => "safe"@,
    }
}

impl LatencyMode {
    /// Returns the user-facing name of the mode.
    pub fn label(self) -> (r: &'static str)
        ensures
            r@ == spec_latency_label(self),
    {
        match self {
            LatencyMode::Low => "low",
            LatencyMode::Balanced => "balanced",
            LatencyMode::Safe => "safe",
        }
    }
}


/// The message for an unknown latency mode name.
pub open spec fn invalid_latency_message(raw: Seq<char>) -> Seq<char> {
    "invalid latency mode `"@ + raw + "`; use low, balanced, or safe"@
}

/// Reads a latency mode from its name; names are case-sensitive.
pub open spec fn spec_parse_latency(raw: Seq<char>) -> Result<LatencyMode, Seq<char>> {
    if raw == "low"@ {
        Ok(LatencyMode::Low)
    } else if raw == "balanced"@ {
        Ok(LatencyMode::Balanced)
    } else if raw == "safe"@ {
        Ok(LatencyMode::Safe)
    } else {
        Err(invalid_latency_message(raw))
    }
}

/// Output buffer size, in frames, that each latency mode asks for.
pub open spec fn spec_target_buffer_frames(mode: LatencyMode) -> u32 {
    match mode {
        LatencyMode::Low => 128,
        LatencyMode::Balanced => 256,
        LatencyMode::Safe => 512,
    }
}

impl LatencyMode {
    /// Reads a latency mode from its name.
    pub fn parse(raw: &str) -> (r: Result<LatencyMode, String>)
        ensures
            match r {
                Ok(m) => spec_parse_latency(raw@) == Ok::<LatencyMode, Seq<char>>(m),
                Err(e) => spec_parse_latency(raw@) == Err::<LatencyMode, Seq<char>>(e@),
            },
    {
        let v = chars_of(raw);
        if vec_eq_str(&v, "low") {
            Ok(LatencyMode::Low)
        } else if vec_eq_str(&v, "balanced") {
            Ok(LatencyMode::Balanced)
        } else if vec_eq_str(&v, "safe") {
            Ok(LatencyMode::Safe)
        } else {
            let mut msg = concat_str("invalid latency mode `", raw);
            msg.append("`; use low, balanced, or safe");
            Err(msg)
        }
    }

    /// The mode used until the user picks one.
    pub fn default_mode() -> (r: LatencyMode)
        ensures
            r == LatencyMode::Balanced,
    {
        LatencyMode::Balanced
    }

    /// Output buffer size, in frames, that the mode asks for.
    pub fn target_buffer_frames(self) -> (r: u32)
        ensures
            r == spec_target_buffer_frames(self),
    {
        match self {
            LatencyMode::Low => 128,
            LatencyMode::Balanced => 256,
            LatencyMode::Safe => 512,
        }
    }
}

/// The buffer size to request from a device that accepts sizes from `min` to `max`: the
/// mode's target, raised to `min`, then lowered to `max`.
pub open spec fn spec_preferred_buffer_frames(mode: LatencyMode, min: u32, max: u32) -> u32 {
    let target = spec_target_buffer_frames(mode);
    let raised = if min >= target { min } else { target };
    if raised <= max { raised } else { max }
}

pub fn preferred_buffer_frames(mode: LatencyMode, min: u32, max: u32) -> (r: u32)
    ensures
        r == spec_preferred_buffer_frames(mode, min, max),
{
    let target = mode.target_buffer_frames();
    let raised = if min >= target { min } else { target };
    if raised <= max { raised } else { max }
}

/// Every latency mode is read back from its own name.
pub proof fn law_latency_name_round_trip(mode: LatencyMode)
    ensures
        spec_parse_latency(spec_latency_label(mode)) == Ok::<LatencyMode, Seq<char>>(mode),
{
    reveal_strlit("low");
    reveal_strlit("balanced");
    reveal_strlit("safe");
    assert("balanced"@.len() != "low"@.len());
    assert("safe"@.len() != "low"@.len());
    assert("safe"@.len() != "balanced"@.len());
}

/// `low` asks for the smallest output buffer and `safe` for the largest; whatever the mode,
/// the size requested from a device lies within the sizes the device accepts.
pub proof fn law_latency_buffer_sizes(mode: LatencyMode, min: u32, max: u32)
    ensures
        spec_target_buffer_frames(LatencyMode::Low) < spec_target_buffer_frames(LatencyMode::Balanced),
        spec_target_buffer_frames(LatencyMode::Balanced) < spec_target_buffer_frames(LatencyMode::Safe),
        min <= max ==> min <= spec_preferred_buffer_frames(mode, min, max) <= max,
        min <= spec_target_buffer_frames(mode) <= max ==> spec_preferred_buffer_frames(mode, min, max)
            == spec_target_buffer_frames(mode),
{
}

} // verus!
