use harmonicon::call_response::{
    banner_key, call_seed, density_key, lick_holes, phase_for_bar, CallResponsePhase, CallResponseState,
    RESPONSE_BARS,
};
use harmonicon::harmony::PitchClassSet;
use harmonicon::phrase::{generate_call, CallContext, CallDensity, CallNote, PlayableNote, CALL_BARS};

#[test]
fn first_two_bars_of_the_cycle_are_calling() {
    assert_eq!(phase_for_bar(0), CallResponsePhase::Calling);
    assert_eq!(phase_for_bar(1), CallResponsePhase::Calling);
}

#[test]
fn next_two_bars_of_the_cycle_are_responding() {
    assert_eq!(phase_for_bar(2), CallResponsePhase::Responding);
    assert_eq!(phase_for_bar(3), CallResponsePhase::Responding);
}

#[test]
fn the_cycle_repeats_indefinitely() {
    assert_eq!(phase_for_bar(4), CallResponsePhase::Calling);
    assert_eq!(phase_for_bar(100), CallResponsePhase::Calling);
    assert_eq!(phase_for_bar(101), CallResponsePhase::Calling);
    assert_eq!(phase_for_bar(102), CallResponsePhase::Responding);
}

#[test]
fn the_cycle_divides_the_twelve_bar_form() {
    assert_eq!(12 % (CALL_BARS + RESPONSE_BARS), 0);
}

#[test]
fn call_seed_varies_by_bar_and_is_stable_for_a_session() {
    assert_eq!(call_seed(7, 4), call_seed(7, 4));
    assert_ne!(call_seed(7, 4), call_seed(7, 8));
    assert_ne!(call_seed(7, 4), call_seed(8, 4));
}

#[test]
fn call_seed_mixes_the_bar_into_the_session_seed() {
    assert_eq!(call_seed(7, 0), 7);
    assert_eq!(call_seed(0, 1), 0x9E37_79B9_7F4A_7C15);
    assert_eq!(call_seed(1, 1), 0x9E37_79B9_7F4A_7C14);
}

#[test]
fn a_fresh_state_is_reset_apart_from_its_seed() {
    let state = CallResponseState::fresh();
    assert_eq!(state.phase, CallResponsePhase::Calling);
    assert!(state.lick_holes.is_empty());
}

#[test]
fn density_cycles_through_all_three_and_back() {
    let start = CallDensity::default();
    assert_eq!(start, CallDensity::Conversational);
    assert_eq!(start.next().next().next(), start);
    let mut seen = vec![start];
    let mut d = start.next();
    while d != start {
        seen.push(d);
        d = d.next();
    }
    assert_eq!(seen.len(), 3);
}

#[test]
fn each_density_has_its_own_readout_key() {
    assert_eq!(density_key(CallDensity::Sparse), "jam-call-density-sparse");
    assert_eq!(
        density_key(CallDensity::Conversational),
        "jam-call-density-conversational"
    );
    assert_eq!(density_key(CallDensity::Busy), "jam-call-density-busy");
}

fn note(midi: u8, hole: u8, blow: bool) -> PlayableNote {
    PlayableNote { midi, hole, blow }
}

fn call_note(tick: usize, hole: u8) -> CallNote {
    CallNote {
        tick,
        len: 5,
        note: note(60 + hole, hole, true),
        held: false,
    }
}

#[test]
fn lick_holes_are_sorted_and_listed_once() {
    let call = [
        call_note(0, 5),
        call_note(6, 4),
        call_note(12, 5),
        call_note(18, 6),
        call_note(24, 4),
    ];
    assert_eq!(lick_holes(&call), vec![4, 5, 6]);
    assert!(lick_holes(&[]).is_empty());
}

/// Blow and draw of a C Richter harp, hole by hole.
fn c_harp_playable() -> Vec<PlayableNote> {
    let blow = [60, 64, 67, 72, 76, 79, 84, 88, 91, 96];
    let draw = [62, 67, 71, 74, 77, 81, 83, 86, 89, 93];
    let mut out = Vec::new();
    for hole in 0..10 {
        out.push(note(blow[hole], hole as u8 + 1, true));
        out.push(note(draw[hole], hole as u8 + 1, false));
    }
    out
}

#[test]
fn a_call_starts_each_cycle_and_remembers_its_holes() {
    let playable = c_harp_playable();
    let c7 = PitchClassSet::from_names(&["C", "E", "G", "A#"]);
    let f7 = PitchClassSet::from_names(&["F", "A", "C", "D#"]);
    let chords = vec![c7, f7, c7, c7];
    let scale = PitchClassSet::from_names(&["C", "D#", "F", "F#", "G", "A#"]);
    let mut state = CallResponseState {
        phase: CallResponsePhase::Responding,
        lick_holes: Vec::new(),
        seed: 42,
    };
    let call = state.on_bar(8, 0, &playable, &chords, &scale, false, CallDensity::Busy);
    assert_eq!(state.phase, CallResponsePhase::Calling);
    assert!(!call.is_empty());
    let mut expected: Vec<u8> = call.iter().map(|n| n.note.hole).collect();
    expected.sort_unstable();
    expected.dedup();
    assert_eq!(state.lick_holes, expected);
    // The next bar is still the call, but nothing new is generated.
    let more = state.on_bar(9, 1, &playable, &chords, &scale, false, CallDensity::Busy);
    assert!(more.is_empty());
    assert_eq!(state.lick_holes, expected);
    let answer = state.on_bar(10, 2, &playable, &chords, &scale, false, CallDensity::Busy);
    assert!(answer.is_empty());
    assert_eq!(state.phase, CallResponsePhase::Responding);
}

#[test]
fn a_restarted_jam_replays_the_same_call_for_the_same_bar() {
    let playable = c_harp_playable();
    let c7 = PitchClassSet::from_names(&["C", "E", "G", "A#"]);
    let chords = vec![c7; 12];
    let scale = PitchClassSet::from_names(&["C", "D#", "F", "F#", "G", "A#"]);
    let mut a = CallResponseState {
        phase: CallResponsePhase::Calling,
        lick_holes: Vec::new(),
        seed: 9,
    };
    let mut b = CallResponseState {
        phase: CallResponsePhase::Calling,
        lick_holes: Vec::new(),
        seed: 9,
    };
    let first = a.on_bar(4, 4, &playable, &chords, &scale, true, CallDensity::Conversational);
    let again = b.on_bar(4, 4, &playable, &chords, &scale, true, CallDensity::Conversational);
    assert_eq!(first, again);
}

#[test]
fn the_banner_speaks_only_while_the_feature_is_on() {
    assert_eq!(banner_key(false, CallResponsePhase::Calling), None);
    assert_eq!(
        banner_key(true, CallResponsePhase::Calling),
        Some("jam-call-response-listen")
    );
    assert_eq!(
        banner_key(true, CallResponsePhase::Responding),
        Some("jam-call-response-your-turn")
    );
}

#[test]
fn a_cycle_plays_the_call_generated_from_the_seed_mixed_with_its_bar() {
    let playable = c_harp_playable();
    let c7 = PitchClassSet::from_names(&["C", "E", "G", "A#"]);
    let f7 = PitchClassSet::from_names(&["F", "A", "C", "D#"]);
    let chords = vec![c7, f7, c7, c7];
    let scale = PitchClassSet::from_names(&["C", "D#", "F", "F#", "G", "A#"]);
    let mut state = CallResponseState {
        phase: CallResponsePhase::Calling,
        lick_holes: Vec::new(),
        seed: 1234,
    };
    let call = state.on_bar(12, 0, &playable, &chords, &scale, true, CallDensity::Conversational);
    let ctx = CallContext {
        playable: &playable,
        opening_chord: &chords[0],
        ending_chord: &chords[1],
        scale: &scale,
        swung: true,
        density: CallDensity::Conversational,
        seed: call_seed(1234, 12),
    };
    assert_eq!(call, generate_call(&ctx));
    assert_eq!(state.seed, 1234);
}
