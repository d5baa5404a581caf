use harmonicon::groove::{
    groove_arrangement, groove_arrangement_for_energy, groove_arrangement_for_position,
    BandEnergy, Feel, Genre, GrooveArrangement, FULL_ACCENT,
};

#[test]
fn every_genre_label_round_trips_through_from_label() {
    for &genre in Genre::all().iter() {
        assert_eq!(Genre::from_label(genre.label()), Some(genre));
    }
}

#[test]
fn from_label_is_none_for_an_unknown_label() {
    assert_eq!(Genre::from_label("Ska"), None);
}

#[test]
fn blues_and_jazz_swing_the_rest_play_straight() {
    assert!(groove_arrangement(Genre::Blues).swung);
    assert!(groove_arrangement(Genre::Jazz).swung);
    assert!(!groove_arrangement(Genre::Rock).swung);
    assert!(!groove_arrangement(Genre::Reggae).swung);
    assert!(!groove_arrangement(Genre::Country).swung);
}

#[test]
fn metronome_feel_matches_swing_flag() {
    for &genre in Genre::all().iter() {
        let swung = groove_arrangement(genre).swung;
        let expected = if swung { Feel::Shuffle } else { Feel::Straight };
        assert_eq!(genre.metronome_feel(), expected, "{genre:?}");
    }
}

#[test]
fn every_arrangement_has_bounded_role_events() {
    for &genre in Genre::all().iter() {
        let arrangement = groove_arrangement(genre);
        assert!(
            arrangement.bass.iter().any(Option::is_some),
            "{genre:?} bass"
        );
        assert!(
            arrangement
                .drums
                .iter()
                .any(|event| event.kick || event.snare || event.hat),
            "{genre:?} drums"
        );
        assert!(
            arrangement.comping.iter().any(|event| event.hit),
            "{genre:?} comping"
        );
        assert!(
            arrangement
                .drums
                .iter()
                .all(|event| (0..=FULL_ACCENT).contains(&event.accent)),
            "{genre:?} drum accent"
        );
        assert!(
            arrangement
                .comping
                .iter()
                .all(|event| (0..=FULL_ACCENT).contains(&event.accent)),
            "{genre:?} comping accent"
        );
    }
}

#[test]
fn phrase_fills_are_restrained_and_turnaround_approaches_home() {
    for &genre in Genre::all().iter() {
        let base = groove_arrangement(genre);
        let bar_four = groove_arrangement_for_position(genre, 2, 3);
        assert_eq!(bar_four.bass, base.bass, "{genre:?} bar 4 bass");
        assert!(bar_four.drums[7].snare, "{genre:?} bar 4 fill");

        let turnaround = groove_arrangement_for_position(genre, 2, 11);
        assert_eq!(turnaround.bass[5..], [Some(9), Some(10), Some(11)]);
        assert!(turnaround.drums[5..].iter().all(|event| event.snare));
        assert!(turnaround.comping[5..].iter().all(|event| !event.hit));
        assert_eq!(
            groove_arrangement_for_position(genre, 2, 12),
            groove_arrangement_for_position(genre, 2, 0),
            "{genre:?} wrapped bar returns to the same chorus pocket"
        );
    }
}

#[test]
fn four_chorus_arc_opens_sparse_peaks_then_relaxes() {
    for &genre in Genre::all().iter() {
        let active_comp = |chorus| {
            groove_arrangement_for_position(genre, chorus, 0)
                .comping
                .into_iter()
                .filter(|event| event.hit)
                .count()
        };
        let drum_energy = |chorus| {
            groove_arrangement_for_position(genre, chorus, 0)
                .drums
                .into_iter()
                .map(|event| event.accent as u64)
                .sum::<u64>()
        };
        assert!(active_comp(0) <= active_comp(1), "{genre:?} sparse opening");
        assert!(
            drum_energy(2) > drum_energy(0),
            "{genre:?} third chorus lift"
        );
        assert!(
            drum_energy(3) < drum_energy(2),
            "{genre:?} fourth chorus relax"
        );
    }
}

#[test]
fn band_energy_changes_density_without_changing_bass_or_feel() {
    for &genre in Genre::all().iter() {
        let low = groove_arrangement_for_energy(genre, BandEnergy::Low, 2, 0);
        let medium = groove_arrangement_for_energy(genre, BandEnergy::Medium, 2, 0);
        let high = groove_arrangement_for_energy(genre, BandEnergy::High, 2, 0);
        let comp_hits = |arrangement: &GrooveArrangement| {
            arrangement.comping.iter().filter(|event| event.hit).count()
        };
        let drum_energy = |arrangement: &GrooveArrangement| {
            arrangement
                .drums
                .iter()
                .map(|event| event.accent as u64)
                .sum::<u64>()
        };

        assert_eq!(low.bass, medium.bass, "{genre:?} low bass");
        assert_eq!(high.bass, medium.bass, "{genre:?} high bass");
        assert_eq!(low.swung, medium.swung, "{genre:?} low feel");
        assert_eq!(high.swung, medium.swung, "{genre:?} high feel");
        assert!(
            comp_hits(&low) <= comp_hits(&medium),
            "{genre:?} low density"
        );
        assert!(
            comp_hits(&high) >= comp_hits(&medium),
            "{genre:?} high density"
        );
        assert!(
            drum_energy(&low) < drum_energy(&medium),
            "{genre:?} low dynamics"
        );
        assert!(
            drum_energy(&high) >= drum_energy(&medium),
            "{genre:?} high dynamics"
        );
    }
}

#[test]
fn the_blues_box_is_root_fifth_and_flat_seventh() {
    assert_eq!(
        groove_arrangement(Genre::Blues).bass,
        [Some(0), Some(0), Some(7), Some(7), Some(10), Some(10), Some(7), Some(10)]
    );
    assert_eq!(
        groove_arrangement(Genre::Reggae).bass,
        [None, Some(0), None, Some(7), None, Some(10), None, Some(7)]
    );
}

#[test]
fn the_arc_and_the_energy_scale_accents_exactly() {
    // Blues' first drum stroke is full scale: the opening chorus softens it
    // to 78%, low energy to 72% of that.
    let opening = groove_arrangement_for_energy(Genre::Blues, BandEnergy::Low, 0, 0);
    assert_eq!(opening.drums[0].accent, 561_600);
    // Low energy keeps the hat on the beat only.
    assert!(opening.drums[0].hat);
    assert!(!opening.drums[1].hat);
    // The opening chorus keeps every other comping hit (slots 1 and 5 of
    // 1, 3, 5, 7), and low energy every other one of those.
    let hits: Vec<bool> = opening.comping.iter().map(|e| e.hit).collect();
    assert_eq!(hits, vec![false, true, false, false, false, false, false, false]);
    let medium = groove_arrangement_for_energy(Genre::Blues, BandEnergy::Medium, 0, 0);
    let hits: Vec<bool> = medium.comping.iter().map(|e| e.hit).collect();
    assert_eq!(hits, vec![false, true, false, false, false, true, false, false]);
    // High energy in the third chorus: boosted twice but capped at full.
    let peak = groove_arrangement_for_energy(Genre::Rock, BandEnergy::High, 2, 0);
    assert_eq!(peak.drums[0].accent, FULL_ACCENT);
    assert!(peak.comping[7].hit);
    assert_eq!(peak.comping[7].accent, 550_000);
}

#[test]
fn bar_eleven_leads_into_the_turnaround() {
    let lead = groove_arrangement_for_position(Genre::Country, 1, 10);
    assert_eq!(lead.bass[7], Some(11));
    assert!(lead.drums[6].snare);
    assert_eq!(lead.drums[6].accent, 750_000);
    let turnaround = groove_arrangement_for_position(Genre::Country, 1, 23);
    assert_eq!(
        [turnaround.drums[5].accent, turnaround.drums[6].accent, turnaround.drums[7].accent],
        [550_000, 700_000, 850_000]
    );
}

#[test]
fn energies_are_listed_and_labelled() {
    assert_eq!(
        BandEnergy::all(),
        vec![BandEnergy::Low, BandEnergy::Medium, BandEnergy::High]
    );
    assert_eq!(BandEnergy::Medium.label(), "Medium");
    assert_eq!(BandEnergy::default(), BandEnergy::Medium);
    assert_eq!(Genre::default(), Genre::Blues);
}
