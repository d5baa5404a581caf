use harmonicon::stems::{stem_is_shaped, JamStemMute, COMPING_STEM};

#[test]
fn jam_stem_mute_defaults_to_empty() {
    assert!(JamStemMute::default().0.is_empty());
}

#[test]
fn toggling_mutes_one_stem_and_toggling_again_unmutes_it() {
    let mut mute = JamStemMute::unmuted(3);
    assert_eq!(mute.0, vec![false, false, false]);
    mute.toggle(1);
    assert_eq!(mute.0, vec![false, true, false]);
    assert!(mute.is_muted(1));
    assert!(!mute.is_muted(0));
    mute.toggle(1);
    assert_eq!(mute.0, vec![false, false, false]);
}

#[test]
fn a_stem_the_song_lacks_is_never_muted() {
    let mut mute = JamStemMute::unmuted(2);
    mute.toggle(5);
    assert_eq!(mute.0, vec![false, false]);
    assert!(!mute.is_muted(5));
}

#[test]
fn only_a_generated_jams_comping_is_shaped() {
    assert!(stem_is_shaped(true, Some(COMPING_STEM)));
    assert!(!stem_is_shaped(false, Some(COMPING_STEM)));
    assert!(!stem_is_shaped(true, Some(0)));
    assert!(!stem_is_shaped(true, None));
}
