//! Freeform call-and-response within an open jam: the game plays a short
//! phrase over [`CALL_BARS`] bars, then gives the player [`RESPONSE_BARS`]
//! bars to answer it by ear. Paced entirely off the absolute bar count, so
//! the cycle always lines up with the 12-bar chart; each call is a pure
//! function of the jam's seed and the bar it starts on.
use vstd::prelude::*;

use crate::harmony::PitchClassSet;
use crate::phrase::{
    call_rhythm_from_cells, call_well_formed, generate_call, has_chord_tone, CallContext, CallDensity, CallNote,
    spec_generate_call, PlayableNote, CALL_BARS, SPLITMIX_GAMMA,
};

verus! {

/// Bars the player has to answer the call. Together with the call's own
/// bars they divide the 12-bar form evenly, so the pattern always lines up
/// with a fresh chorus.
pub const RESPONSE_BARS: usize = 2;

/// Whether the cycle is playing its call or waiting for the player's echo.
#[derive(Clone, Copy, PartialEq, Eq, Structural, Debug)]
pub enum CallResponsePhase {
    Calling,
    Responding,
}

impl Default for CallResponsePhase {
    fn default() -> (p: CallResponsePhase)
        ensures
            p == CallResponsePhase::Calling,
    {
        CallResponsePhase::Calling
    }
}

/// The phase of bar `absolute_bar`: the first [`CALL_BARS`] of every
/// cycle of `CALL_BARS + RESPONSE_BARS` are the call.
pub open spec fn spec_phase_for_bar(absolute_bar: int) -> CallResponsePhase {
    if absolute_bar % ((CALL_BARS + RESPONSE_BARS) as int) < (CALL_BARS as int) {
        CallResponsePhase::Calling
    } else {
        CallResponsePhase::Responding
    }
}

/// Which phase bar `absolute_bar` falls in, cycling every
/// `CALL_BARS + RESPONSE_BARS` bars forever.
pub fn phase_for_bar(absolute_bar: usize) -> (p: CallResponsePhase)
    ensures
        p == spec_phase_for_bar(absolute_bar as int),
{
    let cycle = CALL_BARS + RESPONSE_BARS;
    if absolute_bar % cycle < CALL_BARS {
        CallResponsePhase::Calling
    } else {
        CallResponsePhase::Responding
    }
}

/// The jam's seed mixed with the bar a call starts on.
pub open spec fn spec_call_seed(session_seed: u64, absolute_bar: usize) -> u64 {
    session_seed ^ (absolute_bar as u64).wrapping_mul(SPLITMIX_GAMMA)
}

/// The seed for the call starting at `absolute_bar`, so the same jam never
/// repeats a call bar-for-bar yet restarting it replays the same ones.
pub fn call_seed(session_seed: u64, absolute_bar: usize) -> (s: u64)
    ensures
        s == spec_call_seed(session_seed, absolute_bar),
{
    session_seed ^ (absolute_bar as u64).wrapping_mul(SPLITMIX_GAMMA)
}

/// The call-and-response cycle lines up with the 12-bar form: every
/// chorus begins a call, and a bar's phase is the same in every chorus.
pub proof fn law_cycle_lines_up_with_the_chorus(absolute_bar: int)
    requires
        absolute_bar >= 0,
    ensures
        spec_phase_for_bar(absolute_bar + 12) == spec_phase_for_bar(absolute_bar),
        absolute_bar % 12 == 0 ==> absolute_bar % ((CALL_BARS + RESPONSE_BARS) as int) == 0,
{
    assert((absolute_bar + 12) % 4 == absolute_bar % 4);
    if absolute_bar % 12 == 0 {
        assert(absolute_bar % 4 == 0);
    }
}

/// Two jams with different seeds never share the seed of a call starting
/// on the same bar.
pub proof fn law_sessions_seed_their_calls_apart(a: u64, b: u64, absolute_bar: usize)
    ensures
        spec_call_seed(a, absolute_bar) == spec_call_seed(b, absolute_bar) ==> a == b,
{
    let m = (absolute_bar as u64).wrapping_mul(SPLITMIX_GAMMA);
    assert((a ^ m) == (b ^ m) ==> a == b) by (bit_vector);
}

/// The localization key of the "Phrasing: ..." readout.
pub open spec fn spec_density_key(density: CallDensity) -> Seq<char> {
    match density {
        CallDensity::Sparse => "jam-call-density-sparse"@,
        CallDensity::Conversational => "jam-call-density-conversational"@,
        CallDensity::Busy => "jam-call-density-busy"@,
    }
}

/// The localization key of the "Phrasing: ..." readout for `density`.
pub fn density_key(density: CallDensity) -> (key: &'static str)
    ensures
        key@ == spec_density_key(density),
{
    match density {
        CallDensity::Sparse => "jam-call-density-sparse",
        CallDensity::Conversational => "jam-call-density-conversational",
        CallDensity::Busy => "jam-call-density-busy",
    }
}

/// The turn-taking banner's text key for `phase`.
pub open spec fn spec_banner_key(phase: CallResponsePhase) -> Seq<char> {
    match phase {
        CallResponsePhase::Calling => "jam-call-response-listen"@,
        CallResponsePhase::Responding => "jam-call-response-your-turn"@,
    }
}

/// What the turn-taking banner shows: nothing while the feature is off,
/// else "Listen…" during the call and "Your turn" during the response.
pub fn banner_key(enabled: bool, phase: CallResponsePhase) -> (key: Option<&'static str>)
    ensures
        key is None <==> !enabled,
        key matches Some(k) ==> k@ == spec_banner_key(phase),
{
    if !enabled {
        return None;
    }
    match phase {
        CallResponsePhase::Calling => Some("jam-call-response-listen"),
        CallResponsePhase::Responding => Some("jam-call-response-your-turn"),
    }
}

/// `rand::random::<u64>()`: a value from the thread-local generator.
/// Nothing is stated of the value. It fails (panics) only when the
/// operating system's random source cannot seed that generator.
#[verifier::external_body]
fn random_seed() -> u64 {
    rand::random::<u64>()
}

/// `holes` lists the holes `call` uses, each once, lowest first.
pub open spec fn is_lick_holes(holes: Seq<u8>, call: Seq<CallNote>) -> bool {
    &&& forall|i: int, j: int| 0 <= i < j < holes.len() ==> holes[i] < holes[j]
    &&& forall|h: u8| holes.contains(h) <==> exists|k: int| 0 <= k < call.len() && #[trigger] call[k].note.hole == h
}

/// The holes of `call`, sorted, each once.
pub fn lick_holes(call: &[CallNote]) -> (holes: Vec<u8>)
    ensures
        is_lick_holes(holes@, call@),
{
    let mut holes: Vec<u8> = Vec::new();
    let mut k: usize = 0;
    while k < call.len()
        invariant
            k <= call@.len(),
            forall|i: int, j: int| 0 <= i < j < holes@.len() ==> holes@[i] < holes@[j],
            forall|h: u8| holes@.contains(h) <==> exists|m: int| 0 <= m < k && #[trigger] call@[m].note.hole == h,
        decreases call@.len() - k,
    {
        let h = call[k].note.hole;
        let mut pos: usize = 0;
        while pos < holes.len() && holes[pos] < h
            invariant
                pos <= holes@.len(),
                forall|i: int| 0 <= i < pos ==> holes@[i] < h,
            decreases holes@.len() - pos,
        {
            pos = pos + 1;
        }
        let ghost before = holes@;
        if pos < holes.len() && holes[pos] == h {
            assert(before.contains(h));
        } else {
            holes.insert(pos, h);
            proof {
                assert forall|i: int, j: int| 0 <= i < j < holes@.len() implies holes@[i] < holes@[j] by {
                    if j < pos {
                        assert(holes@[i] == before[i] && holes@[j] == before[j]);
                    } else if j == pos {
                        assert(holes@[i] == before[i]);
                    } else if i < pos {
                        assert(holes@[i] == before[i] && holes@[j] == before[j - 1]);
                        assert(before[j - 1] > h);
                    } else if i == pos {
                        assert(holes@[j] == before[j - 1]);
                        assert(before[j - 1] >= before[pos as int]);
                    } else {
                        assert(holes@[i] == before[i - 1] && holes@[j] == before[j - 1]);
                    }
                }
                assert forall|x: u8| #[trigger] holes@.contains(x) <==> before.contains(x) || x == h by {
                    if holes@.contains(x) {
                        let i = choose|i: int| 0 <= i < holes@.len() && holes@[i] == x;
                        if i < pos {
                            assert(before[i] == x);
                        } else if i > pos {
                            assert(before[i - 1] == x);
                        }
                    }
                    if before.contains(x) {
                        let i = choose|i: int| 0 <= i < before.len() && before[i] == x;
                        if i < pos {
                            assert(holes@[i] == x);
                        } else {
                            assert(holes@[i + 1] == x);
                        }
                    }
                    if x == h {
                        assert(holes@[pos as int] == x);
                    }
                }
            }
        }
        proof {
            assert forall|x: u8| holes@.contains(x) <==> exists|m: int|
                0 <= m < k + 1 && #[trigger] call@[m].note.hole == x by {
                if x == h {
                    assert(call@[k as int].note.hole == x);
                }
                if exists|m: int| 0 <= m < k + 1 && #[trigger] call@[m].note.hole == x {
                    let m = choose|m: int| 0 <= m < k + 1 && #[trigger] call@[m].note.hole == x;
                    if m < k {
                        assert(exists|m2: int| 0 <= m2 < k && #[trigger] call@[m2].note.hole == x);
                    }
                }
            }
        }
        k = k + 1;
    }
    holes
}

/// Live state of the current cycle: its phase, which holes the current
/// call used (for the hole map's ghost highlight), and the seed every call
/// of this jam derives from.
#[derive(Debug)]
pub struct CallResponseState {
    pub phase: CallResponsePhase,
    pub lick_holes: Vec<u8>,
    pub seed: u64,
}

/// The context a call starting at the current bar is generated from: the
/// chords of the call's two bars, the harp's vocabulary and the seed for
/// `absolute_bar`.
pub open spec fn bar_call_context<'a>(
    playable: &'a [PlayableNote],
    chord_tones_by_bar: &'a [PitchClassSet],
    current_bar: int,
    scale: &'a PitchClassSet,
    swung: bool,
    density: CallDensity,
    seed: u64,
) -> CallContext<'a> {
    CallContext {
        playable,
        opening_chord: &chord_tones_by_bar@[current_bar],
        ending_chord: &chord_tones_by_bar@[(current_bar + 1) % chord_tones_by_bar@.len() as int],
        scale,
        swung,
        density,
        seed,
    }
}

impl CallResponseState {
    /// A reset state with a fresh random seed: every jam gets its own
    /// phrases, while within one jam each bar's call is a pure function of
    /// that seed.
    pub fn fresh() -> (s: CallResponseState)
        ensures
            s.phase == CallResponsePhase::Calling,
            s.lick_holes@.len() == 0,
    {
        CallResponseState { phase: CallResponsePhase::Calling, lick_holes: Vec::new(), seed: random_seed() }
    }

    /// A bar has begun at `absolute_bar`, with bar `current_bar` of the
    /// chart sounding: the phase follows the bar, and at the top of each
    /// cycle a new call is generated over the chords of this bar and the
    /// next, and its holes remembered. Returns the call to play (empty
    /// between calls, and when the harp cannot sound the opening chord).
    pub fn on_bar(
        &mut self,
        absolute_bar: usize,
        current_bar: usize,
        playable: &[PlayableNote],
        chord_tones_by_bar: &[PitchClassSet],
        scale: &PitchClassSet,
        swung: bool,
        density: CallDensity,
    ) -> (call: Vec<CallNote>)
        requires
            current_bar < chord_tones_by_bar@.len(),
            playable@.len() <= u32::MAX / 4,
        ensures
            final(self).phase == spec_phase_for_bar(absolute_bar as int),
            final(self).seed == old(self).seed,
            absolute_bar as int % ((CALL_BARS + RESPONSE_BARS) as int) != 0 ==> call@.len() == 0 && final(self).lick_holes@
                == old(self).lick_holes@,
            absolute_bar as int % ((CALL_BARS + RESPONSE_BARS) as int) == 0 ==> ({
                let ctx = bar_call_context(
                    playable,
                    chord_tones_by_bar,
                    current_bar as int,
                    scale,
                    swung,
                    density,
                    spec_call_seed(old(self).seed, absolute_bar),
                );
                &&& call@ == spec_generate_call(&ctx)
                &&& call@.len() == 0 <==> !has_chord_tone(playable@, chord_tones_by_bar@[current_bar as int]@)
                &&& call_well_formed(&ctx, call@)
                &&& call@.len() > 0 ==> call_rhythm_from_cells(&ctx, call@)
                &&& is_lick_holes(final(self).lick_holes@, call@)
            }),
    {
        self.phase = phase_for_bar(absolute_bar);
        let cycle = CALL_BARS + RESPONSE_BARS;
        if absolute_bar % cycle != 0 {
            return Vec::new();
        }
        let bars = chord_tones_by_bar.len();
        let ctx = CallContext {
            playable,
            opening_chord: &chord_tones_by_bar[current_bar],
            ending_chord: &chord_tones_by_bar[(current_bar + 1) % bars],
            scale,
            swung,
            density,
            seed: call_seed(self.seed, absolute_bar),
        };
        let call = generate_call(&ctx);
        self.lick_holes = lick_holes(call.as_slice());
        call
    }
}

} // verus!
