use harmonicon::harmony::{classify_note_fit, NoteFit, PitchClassSet};
use harmonicon::session::{
    form_position, next_chorus_boundary, should_restart_jam_music, EndingStep, JamEnding,
};

#[test]
fn restarts_once_finished_when_loop_is_on() {
    assert!(should_restart_jam_music(true, false, false, true, false));
}

#[test]
fn does_not_restart_while_still_playing() {
    assert!(!should_restart_jam_music(true, false, false, true, true));
}

#[test]
fn does_not_restart_when_loop_is_off() {
    assert!(!should_restart_jam_music(false, false, false, true, false));
}

#[test]
fn does_not_restart_before_the_jam_has_started() {
    assert!(!should_restart_jam_music(true, false, false, false, false));
}

#[test]
fn generated_jam_restarts_without_the_finite_song_loop_toggle() {
    assert!(should_restart_jam_music(false, true, false, true, false));
}

#[test]
fn a_scheduled_or_completed_ending_prevents_restart() {
    assert!(!should_restart_jam_music(false, true, true, true, false));
}

#[test]
fn ending_is_scheduled_for_the_next_chorus_boundary() {
    assert_eq!(next_chorus_boundary(0), 12);
    assert_eq!(next_chorus_boundary(11), 12);
    assert_eq!(next_chorus_boundary(12), 24);
    assert_eq!(next_chorus_boundary(95), 96);
}

#[test]
fn note_fit_orders_chord_tone_above_scale_above_out_of_scale() {
    assert!(NoteFit::ChordTone > NoteFit::InScale);
    assert!(NoteFit::InScale > NoteFit::OutOfScale);
}

#[test]
fn classify_note_fit_prefers_chord_tone_over_plain_scale_membership() {
    let chord_tones = PitchClassSet::from_names(&["C"]);
    let scale = PitchClassSet::from_names(&["C", "E"]);
    assert_eq!(
        classify_note_fit("C", &chord_tones, &scale),
        NoteFit::ChordTone
    );
    assert_eq!(
        classify_note_fit("E", &chord_tones, &scale),
        NoteFit::InScale
    );
    assert_eq!(
        classify_note_fit("F", &chord_tones, &scale),
        NoteFit::OutOfScale
    );
}

#[test]
fn an_ending_is_asked_once_reached_once_and_then_held() {
    let mut ending = JamEnding::default();
    assert_eq!(ending.label_key(), "jam-keep-playing");
    assert_eq!(ending.step(30), EndingStep::Play);
    ending.request_end(30);
    assert_eq!(ending.stop_at_bar, Some(36));
    assert_eq!(ending.label_key(), "jam-ending-after-chorus");
    // Asking again in a later bar does not move the ending.
    ending.request_end(40);
    assert_eq!(ending.stop_at_bar, Some(36));
    assert!(ending.is_active());
    assert_eq!(ending.step(35), EndingStep::Play);
    assert_eq!(ending.step(36), EndingStep::Finish);
    assert!(ending.ended);
    assert_eq!(ending.label_key(), "jam-ended");
    assert_eq!(ending.step(37), EndingStep::Hold);
    // Once ended, asking again changes nothing.
    ending.request_end(50);
    assert_eq!(ending.stop_at_bar, Some(36));
}

#[test]
fn the_form_position_counts_choruses_and_bars_from_one() {
    assert_eq!(form_position(0), (1, 1));
    assert_eq!(form_position(11), (1, 12));
    assert_eq!(form_position(12), (2, 1));
    assert_eq!(form_position(95), (8, 12));
}

#[test]
fn the_chord_readout_shows_this_bar_and_the_next_wrapping_round() {
    assert_eq!(harmonicon::session::chord_now_and_next(0, 12), Some((0, 1)));
    assert_eq!(harmonicon::session::chord_now_and_next(11, 12), Some((11, 0)));
    assert_eq!(harmonicon::session::chord_now_and_next(25, 12), Some((1, 2)));
    assert_eq!(harmonicon::session::chord_now_and_next(3, 0), None);
}
