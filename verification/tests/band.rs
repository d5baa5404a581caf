use harmonicon::band::{
    comping_target_after, phrase_density, AdaptiveBand, BandAnswer, BandListener, BandTracker,
    BeatActivity, CompingTarget, PhraseDensity,
};

/// A quarter-note line: four attacks a bar, sparse.
const PLAYING: BeatActivity = BeatActivity {
    attacks: 1,
    sounding: true,
};
/// Steady eighths: eight attacks a bar, dense.
const BUSY: BeatActivity = BeatActivity {
    attacks: 2,
    sounding: true,
};
const QUIET: BeatActivity = BeatActivity {
    attacks: 0,
    sounding: false,
};
/// A note held over from an earlier beat: nothing new attacked, but still
/// sounding.
const HELD: BeatActivity = BeatActivity {
    attacks: 0,
    sounding: true,
};

/// Feeds `beats` to a listener starting at beat 0 and collects every
/// answer as `(beat index the answer begins on, kind)`.
fn run(listener: &mut BandListener, beats: &[BeatActivity]) -> Vec<(usize, BandAnswer)> {
    let mut out = Vec::new();
    for (i, &b) in beats.iter().enumerate() {
        if let Some(answer) = listener.observe(i, b) {
            out.push((i + 1, answer));
        }
    }
    out
}

fn run_from(listener: &mut BandListener, first_beat: usize, beats: &[BeatActivity]) {
    for (i, &b) in beats.iter().enumerate() {
        listener.observe(first_beat + i, b);
    }
}

/// Three bars of playing and a bar of rest — the classic blues phrase.
fn phrase_then_rest() -> Vec<BeatActivity> {
    let mut v = vec![PLAYING; 12];
    v.extend([QUIET; 4]);
    v
}

#[test]
fn density_is_descriptive_by_attacks_per_bar() {
    assert_eq!(phrase_density(&[QUIET; 16]), PhraseDensity::Silent);
    assert_eq!(phrase_density(&[PLAYING; 16]), PhraseDensity::Sparse);
    assert_eq!(phrase_density(&[BUSY; 16]), PhraseDensity::Dense);
    assert_eq!(phrase_density(&[]), PhraseDensity::Silent);
}

#[test]
fn comping_thins_after_a_dense_phrase_and_holds_the_pocket_otherwise() {
    assert_eq!(comping_target_after(PhraseDensity::Dense), CompingTarget::Thinned);
    assert_eq!(comping_target_after(PhraseDensity::Sparse), CompingTarget::Full);
    assert_eq!(comping_target_after(PhraseDensity::Silent), CompingTarget::Full);
}

#[test]
fn a_finished_phrase_is_answered_on_beat_three_of_its_last_bar() {
    let mut listener = BandListener::default();
    let answers = run(&mut listener, &phrase_then_rest());
    // Beats are zero-based: bar 4 starts at beat 12, its beat 3 is 14.
    assert_eq!(answers, vec![(14, BandAnswer::Drums)]);
}

#[test]
fn no_answer_while_the_player_is_still_playing_into_the_last_bar() {
    let mut listener = BandListener::default();
    let answers = run(&mut listener, &[PLAYING; 16]);
    assert!(answers.is_empty());
}

#[test]
fn a_note_still_ringing_is_not_a_release() {
    let mut listener = BandListener::default();
    let mut beats = vec![PLAYING; 12];
    beats.extend([HELD, HELD, QUIET, QUIET]);
    assert!(run(&mut listener, &beats).is_empty());
}

#[test]
fn silence_is_left_alone_not_filled() {
    let mut listener = BandListener::default();
    let answers = run(&mut listener, &[QUIET; 48]);
    assert!(answers.is_empty());
    assert_eq!(listener.comping_target(), CompingTarget::Full);
}

#[test]
fn a_stray_note_or_two_is_not_a_phrase() {
    let mut listener = BandListener::default();
    let mut beats = vec![QUIET; 16];
    beats[5] = BeatActivity {
        attacks: 1,
        sounding: true,
    };
    beats[9] = BeatActivity {
        attacks: 2,
        sounding: true,
    };
    assert!(run(&mut listener, &beats).is_empty());
}

#[test]
fn answers_are_rate_capped_and_alternate_drums_and_chord() {
    let mut listener = BandListener::default();
    let mut beats = Vec::new();
    for _ in 0..4 {
        beats.extend(phrase_then_rest());
    }
    let answers = run(&mut listener, &beats);
    // Four phrase ends, but at least eight bars between answers: two answers.
    assert_eq!(
        answers,
        vec![(14, BandAnswer::Drums), (46, BandAnswer::Chord)]
    );
}

#[test]
fn comping_thins_for_the_phrase_after_a_dense_one_then_recovers() {
    let mut listener = BandListener::default();
    run(&mut listener, &[BUSY; 16]);
    assert_eq!(listener.comping_target(), CompingTarget::Thinned);
    run_from(&mut listener, 16, &[PLAYING; 16]);
    assert_eq!(listener.comping_target(), CompingTarget::Full);
}

#[test]
fn comping_target_only_changes_at_phrase_boundaries() {
    let mut listener = BandListener::default();
    for i in 0..15 {
        listener.observe(i, BUSY);
        assert_eq!(
            listener.comping_target(),
            CompingTarget::Full,
            "changed mid-phrase at beat {i}"
        );
    }
    listener.observe(15, BUSY);
    assert_eq!(listener.comping_target(), CompingTarget::Thinned);
}

#[test]
fn the_same_activity_stream_always_yields_the_same_reactions() {
    let mut stream = Vec::new();
    for round in 0..6u32 {
        for beat in 0..16u32 {
            stream.push(BeatActivity {
                attacks: (round * 7 + beat * 3) % 5,
                sounding: (round + beat) % 3 != 0,
            });
        }
    }
    let mut a = BandListener::default();
    let mut b = BandListener::default();
    assert_eq!(run(&mut a, &stream), run(&mut b, &stream));
    assert_eq!(a.comping_target(), b.comping_target());
}

#[test]
fn adaptive_band_is_on_by_default_and_a_fresh_tracker_comps_at_full() {
    assert!(AdaptiveBand::default().0);
    let mut tracker = BandTracker::fresh();
    let mut listener = BandListener::default();
    let reaction = tracker.advance(None, true, &mut listener);
    assert_eq!(reaction.comping, CompingTarget::Full);
    assert_eq!(reaction.answer, None);
}

#[test]
fn a_long_frame_still_feeds_every_skipped_beat() {
    // Twelve beats of playing, then a frame that jumps from beat 12 to
    // beat 15: the quiet beats 12..15 are fed and the answer still comes.
    let mut listener = BandListener::default();
    run(&mut listener, &[PLAYING; 12]);
    let answer = listener.observe_until(12, QUIET, 15);
    assert_eq!(answer, Some(BandAnswer::Drums));
    assert_eq!(listener.last_answer_beat(), Some(14));
}

#[test]
fn a_stall_longer_than_the_log_replays_only_what_the_log_holds() {
    let mut listener = BandListener::default();
    run(&mut listener, &[BUSY; 16]);
    assert_eq!(listener.comping_target(), CompingTarget::Thinned);
    // A thousand-beat stall: only the last 32 beats are fed, as quiet. The
    // log still holds the busy phrase, whose release the first replayed
    // answer beat (990) hears; every phrase boundary after it is quiet
    // enough to bring the comping back to full.
    let answer = listener.observe_until(16, QUIET, 1016);
    assert_eq!(answer, Some(BandAnswer::Drums));
    assert_eq!(listener.last_answer_beat(), Some(990));
    assert_eq!(listener.comping_target(), CompingTarget::Full);
    assert_eq!(listener.heard_attacks(), 0);
}

#[test]
fn the_tracker_counts_fresh_attacks_and_feeds_completed_beats() {
    let mut tracker = BandTracker::fresh();
    let mut listener = BandListener::default();
    tracker.advance(Some(0), true, &mut listener);
    tracker.hear(3, true);
    tracker.hear(5, false);
    assert_eq!(tracker.current.attacks, 5);
    assert!(tracker.current.sounding);
    // A running total that went backwards adds nothing.
    tracker.hear(4, false);
    assert_eq!(tracker.current.attacks, 5);
    let reaction = tracker.advance(Some(1), true, &mut listener);
    assert_eq!(reaction.answer, None);
    assert_eq!(tracker.current, BeatActivity::default());
    assert_eq!(listener.heard_attacks(), 5);
    assert_eq!(tracker.beat_index, Some(1));
}

#[test]
fn a_band_switched_off_keeps_listening_but_never_reacts() {
    let mut listener = BandListener::default();
    let mut tracker = BandTracker::fresh();
    tracker.advance(Some(0), false, &mut listener);
    for beat in 1..=16 {
        tracker.hear(2 * beat as u32, true);
        let reaction = tracker.advance(Some(beat), false, &mut listener);
        assert_eq!(reaction.comping, CompingTarget::Full);
        assert_eq!(reaction.answer, None);
    }
    // The log ran all along: it wants the comping thinned.
    assert_eq!(listener.comping_target(), CompingTarget::Thinned);
}
