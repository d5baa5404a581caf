use harmonicon::hole_map::lowest_sounding;
use harmonicon::phrase::PlayableNote;

fn note(midi: u8, hole: u8, blow: bool) -> PlayableNote {
    PlayableNote { midi, hole, blow }
}

/// Blow and draw of holes 1-4 of a C harp: draw 2 and blow 3 are both G4.
fn harp() -> Vec<PlayableNote> {
    vec![
        note(60, 1, true),
        note(62, 1, false),
        note(64, 2, true),
        note(67, 2, false),
        note(67, 3, true),
        note(71, 3, false),
        note(72, 4, true),
        note(74, 4, false),
    ]
}

#[test]
fn a_chord_is_named_by_its_lowest_playable_note() {
    // Blow 4-5-6 sounding as C5 E5 G5 — but only C5 and its neighbours are
    // on this short harp: the lowest wins.
    let active = [72, 64, 67];
    assert_eq!(lowest_sounding(&active, &harp()), Some((1, note(64, 2, true))));
}

#[test]
fn a_pitch_playable_in_two_holes_names_the_first_listed() {
    assert_eq!(lowest_sounding(&[67], &harp()), Some((0, note(67, 2, false))));
}

#[test]
fn nothing_playable_names_nothing() {
    assert_eq!(lowest_sounding(&[], &harp()), None);
    assert_eq!(lowest_sounding(&[61, 99], &harp()), None);
}

#[test]
fn the_same_pitch_twice_names_its_first_reading() {
    assert_eq!(
        lowest_sounding(&[74, 60, 60], &harp()),
        Some((1, note(60, 1, true)))
    );
}
