use harmonicon::lesson_widgets::{
    scheduled_tempo, stepped_bar, stepped_section, LessonMetronomePattern, MetronomeFeel,
};

#[test]
fn lesson_grid_steps_and_wraps_in_both_directions() {
    assert_eq!(stepped_bar(0, -1), 11);
    assert_eq!(stepped_bar(11, 1), 0);
    assert_eq!(stepped_bar(5, 1), 6);
}

#[test]
fn form_sections_step_and_wrap_for_any_form_length() {
    assert_eq!(stepped_section(0, -1, 4), 3);
    assert_eq!(stepped_section(3, 1, 4), 0);
    assert_eq!(stepped_section(1, 1, 3), 2);
    assert_eq!(stepped_section(0, 1, 0), 0);
}

#[test]
fn lesson_metronome_pattern_cycles_through_every_mode() {
    assert!(matches!(
        LessonMetronomePattern::Straight.next(),
        LessonMetronomePattern::Shuffle
    ));
    assert!(matches!(
        LessonMetronomePattern::Shuffle.next(),
        LessonMetronomePattern::Triplet
    ));
    assert!(matches!(
        LessonMetronomePattern::Triplet.next(),
        LessonMetronomePattern::Straight
    ));
}

#[test]
fn tempo_schedule_advances_on_configured_bar_boundaries() {
    let steps = [75.0, 80.0];
    assert_eq!(
        scheduled_tempo(3, 4, 1, LessonMetronomePattern::Straight, 0, &steps),
        None
    );
    assert_eq!(
        scheduled_tempo(4, 4, 1, LessonMetronomePattern::Straight, 0, &steps),
        Some(75.0)
    );
    assert_eq!(
        scheduled_tempo(12, 4, 1, LessonMetronomePattern::Triplet, 1, &steps),
        Some(80.0)
    );
    assert_eq!(
        scheduled_tempo(4, 4, 1, LessonMetronomePattern::Straight, 2, &steps),
        None
    );
}

#[test]
fn the_tempo_never_steps_before_the_first_tick_or_off_a_boundary() {
    let steps = [90u32];
    assert_eq!(
        scheduled_tempo(0, 4, 2, LessonMetronomePattern::Straight, 0, &steps),
        None
    );
    assert_eq!(
        scheduled_tempo(-8, 4, 2, LessonMetronomePattern::Straight, 0, &steps),
        None
    );
    assert_eq!(
        scheduled_tempo(4, 4, 2, LessonMetronomePattern::Straight, 0, &steps),
        None
    );
    assert_eq!(
        scheduled_tempo(8, 4, 2, LessonMetronomePattern::Straight, 0, &steps),
        Some(90)
    );
    // A zero bar length or step length counts as one.
    assert_eq!(
        scheduled_tempo(3, 0, 0, LessonMetronomePattern::Shuffle, 0, &steps),
        Some(90)
    );
}

#[test]
fn shuffle_and_triplet_clocks_tick_three_times_a_beat() {
    assert_eq!(LessonMetronomePattern::Straight.ticks_per_beat(), 1);
    assert_eq!(LessonMetronomePattern::Shuffle.ticks_per_beat(), 3);
    assert_eq!(LessonMetronomePattern::Triplet.ticks_per_beat(), 3);
    assert_eq!(
        LessonMetronomePattern::Straight.clock_feel(),
        MetronomeFeel::Straight
    );
    assert_eq!(
        LessonMetronomePattern::Shuffle.clock_feel(),
        MetronomeFeel::Shuffle
    );
    assert_eq!(
        LessonMetronomePattern::Triplet.clock_feel(),
        MetronomeFeel::Shuffle
    );
}

#[test]
fn steps_wrap_however_far_they_go() {
    assert_eq!(stepped_bar(3, -27), 0);
    assert_eq!(stepped_bar(3, 21), 0);
    assert_eq!(stepped_section(2, -9, 5), 3);
}

use harmonicon::lesson_reader::{
    first_open_tier, parse_progression, parse_scale, tier_about_key, tier_name_key,
    widget_positions, Position, Progression, Scale, Tier,
};

#[test]
fn parse_progression_reads_each_known_value() {
    assert_eq!(parse_progression(Some("standard")), Progression::Standard);
    assert_eq!(
        parse_progression(Some("quick-change")),
        Progression::QuickChange
    );
    assert_eq!(parse_progression(Some("minor")), Progression::Minor);
    assert_eq!(
        parse_progression(Some("jazz-blues")),
        Progression::JazzBlues
    );
}

#[test]
fn parse_progression_defaults_to_standard_when_absent_or_unknown() {
    assert_eq!(parse_progression(None), Progression::Standard);
    assert_eq!(parse_progression(Some("jazz")), Progression::Standard);
}

#[test]
fn parse_scale_reads_each_known_value() {
    assert_eq!(parse_scale(Some("first-position")), Scale::FirstPosition);
    assert_eq!(parse_scale(Some("second-position")), Scale::SecondPosition);
    assert_eq!(parse_scale(Some("third-position")), Scale::ThirdPosition);
    assert_eq!(parse_scale(Some("major")), Scale::Major);
    assert_eq!(
        parse_scale(Some("minor-pentatonic")),
        Scale::MinorPentatonic
    );
    assert_eq!(parse_scale(Some("country")), Scale::Country);
}

#[test]
fn parse_scale_defaults_to_first_position_when_absent_or_unknown() {
    assert_eq!(parse_scale(None), Scale::FirstPosition);
    assert_eq!(parse_scale(Some("dorian")), Scale::FirstPosition);
}

#[test]
fn the_panel_opens_on_the_first_tier_not_yet_passed() {
    assert_eq!(first_open_tier(|_| false), Tier::Isolate);
    assert_eq!(
        first_open_tier(|tier| tier.number() <= 2),
        Tier::Vary,
        "tiers 1 and 2 passed"
    );
    // Tiers aren't gated, so a gap below a passed tier is found first.
    assert_eq!(
        first_open_tier(|tier| tier == Tier::Isolate || tier == Tier::Vary),
        Tier::Consolidate
    );
    assert_eq!(first_open_tier(|_| true), Tier::Interleave);
}

#[test]
fn every_tier_has_its_own_name_and_description_keys() {
    let tiers = Tier::all();
    assert_eq!(tiers.len(), 5);
    for (i, a) in tiers.iter().enumerate() {
        assert_eq!(a.number() as usize, i + 1);
        assert_eq!(
            tier_about_key(*a),
            format!("{}-about", tier_name_key(*a))
        );
        for b in &tiers[i + 1..] {
            assert_ne!(tier_name_key(*a), tier_name_key(*b));
        }
    }
    assert_eq!(tier_name_key(Tier::InContext), "lesson-training-tier-in-context");
}

#[test]
fn a_circle_widget_shows_the_positions_it_names_or_all_of_them() {
    assert_eq!(
        widget_positions(&["second".to_string(), "bogus".to_string(), "twelfth".to_string()]),
        vec![Position::Second, Position::Twelfth]
    );
    assert_eq!(
        widget_positions(&[]),
        vec![
            Position::First,
            Position::Second,
            Position::Third,
            Position::Fourth,
            Position::Fifth,
            Position::Twelfth
        ]
    );
    assert!(widget_positions(&["sixth".to_string()]).is_empty());
}
