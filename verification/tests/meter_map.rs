use harmonicon::meter::{parse_time_signature, MusicScoreMeter};
use harmonicon::meter_map::MeterMap;

const Q: u32 = 12;

fn sig(m: MusicScoreMeter) -> String {
    format!("{}/{}", m.numerator, m.denominator)
}

#[test]
fn a_constant_map_counts_bars_like_a_single_meter() {
    let map = MeterMap::constant("4/4", Q);
    assert_eq!(map.segments().len(), 1);
    let p = map.position(48 * 3 + 12 * 2 + 5);
    assert_eq!((p.bar, p.beat, p.tick_in_beat), (3, 2, 5));
    assert_eq!(sig(p.meter), "4/4");
}

#[test]
fn bars_keep_counting_across_a_change_on_a_bar_line() {
    // Two bars of 4/4 (96 ticks), then 3/4.
    let map = MeterMap::new(&[(0, "4/4"), (96, "3/4")], Q);
    assert_eq!(map.position(95).bar, 1);
    assert_eq!(map.position(96).bar, 2, "the change starts bar 3");
    assert_eq!(map.position(96 + 36).bar, 3, "a 3/4 bar is 36 ticks");
    assert_eq!(map.position(96 + 36 + 24).beat, 2);
    assert_eq!(sig(map.meter_at(96)), "3/4");
    assert_eq!(sig(map.meter_at(95)), "4/4");
}

#[test]
fn a_change_away_from_a_bar_line_cuts_that_bar_short() {
    // 4/4, changed to 3/4 three quarters into bar 2 (tick 48 + 36 = 84).
    let map = MeterMap::new(&[(0, "4/4"), (84, "3/4")], Q);
    // Bar 2 (index 1) runs 48..84 and is only 36 ticks long.
    assert_eq!(map.position(83).bar, 1);
    assert_eq!(map.position(83).beat, 2);
    // The change starts bar 3 immediately, not a quarter later.
    assert_eq!(map.position(84).bar, 2);
    assert_eq!(map.position(84).beat, 0);
    assert!(map.is_bar_start(84));
    assert!(!map.is_bar_start(96), "the old 4/4 grid no longer applies");
    assert!(map.is_bar_start(84 + 36));
}

#[test]
fn six_eight_to_seven_eight_counts_in_eighths_on_both_sides() {
    // One bar of 6/8 (36 ticks), then 7/8 (42 ticks).
    let map = MeterMap::new(&[(0, "6/8"), (36, "7/8")], Q);
    assert_eq!(map.position(30).beat, 5, "sixth eighth of the 6/8 bar");
    assert_eq!(map.position(36).bar, 1);
    assert_eq!(
        map.position(36 + 6 * 6).beat,
        6,
        "seventh eighth of the 7/8 bar"
    );
    assert_eq!(map.position(36 + 42).bar, 2);
}

#[test]
fn bar_starts_lists_every_bar_line_including_the_change_tick() {
    let map = MeterMap::new(&[(0, "4/4"), (84, "3/4")], Q);
    assert_eq!(
        map.bar_starts(0, 200),
        vec![(0, 0), (48, 1), (84, 2), (120, 3), (156, 4), (192, 5)]
    );
    // A window that starts mid-bar picks up from the next line.
    assert_eq!(map.bar_starts(50, 130), vec![(84, 2), (120, 3)]);
}

#[test]
fn beat_starts_switches_beat_unit_at_the_change() {
    // 4/4 (quarter beats, 12 ticks) then 6/8 (eighth beats, 6 ticks).
    let map = MeterMap::new(&[(0, "4/4"), (48, "6/8")], Q);
    let ticks: Vec<u64> = map
        .beat_starts(36, 72)
        .into_iter()
        .map(|(t, _)| t)
        .collect();
    assert_eq!(ticks, vec![36, 48, 54, 60, 66]);
    let (_, p) = map.beat_starts(54, 55)[0];
    assert_eq!((p.bar, p.beat), (1, 1));
}

#[test]
fn a_map_without_a_tick_zero_point_gets_common_time_in_front() {
    let map = MeterMap::new(&[(48, "3/4")], Q);
    assert_eq!(sig(map.meter_at(0)), "4/4");
    assert_eq!(sig(map.meter_at(48)), "3/4");
    assert_eq!(map.position(48).bar, 1);
}

#[test]
fn duplicate_ticks_keep_the_later_point_and_order_is_irrelevant() {
    let map = MeterMap::new(&[(96, "3/4"), (0, "4/4"), (96, "5/4")], Q);
    assert_eq!(sig(map.meter_at(96)), "5/4");
    assert_eq!(map.segments().len(), 2);
}

#[test]
fn changes_lists_everything_after_the_opening_meter() {
    let map = MeterMap::new(&[(0, "4/4"), (96, "3/4"), (180, "6/8")], Q);
    let changes: Vec<(u64, String)> = map
        .changes()
        .into_iter()
        .map(|(t, m)| (t, sig(m)))
        .collect();
    assert_eq!(changes, vec![(96, "3/4".into()), (180, "6/8".into())]);
}

#[test]
fn a_meter_too_fine_for_the_grid_falls_back_rather_than_dividing_by_zero() {
    let map = MeterMap::new(&[(0, "4/32")], Q);
    assert_eq!(map.segment_at(0).ticks_per_bar, 48);
    let _ = map.position(1000);
}

// ── time signatures, segment edges and bar lists ─────────────────────────

#[test]
fn time_signatures_read_both_numbers_and_fall_back_to_common_time() {
    assert_eq!(sig(parse_time_signature("7/8")), "7/8");
    assert_eq!(sig(parse_time_signature("12/16")), "12/16");
    assert_eq!(sig(parse_time_signature("")), "4/4");
    assert_eq!(sig(parse_time_signature("3")), "4/4");
    assert_eq!(sig(parse_time_signature("0/4")), "4/4");
    assert_eq!(sig(parse_time_signature("3/x")), "4/4");
    assert_eq!(sig(parse_time_signature("99999999999/4")), "4/4");
}

#[test]
fn beat_and_bar_lengths_follow_the_denominator() {
    let six_eight = parse_time_signature("6/8");
    assert_eq!(six_eight.ticks_per_beat(12), Some(6));
    assert_eq!(six_eight.ticks_per_bar(12), Some(36));
    assert_eq!(parse_time_signature("4/32").ticks_per_beat(12), None);
}

#[test]
fn the_bar_number_grows_by_one_exactly_at_each_bar_line() {
    let map = MeterMap::new(&[(0, "4/4"), (84, "3/4"), (150, "5/8")], Q);
    assert_eq!(map.position(0).bar, 0);
    for t in 1..400u64 {
        let step = map.position(t).bar - map.position(t - 1).bar;
        assert_eq!(step, usize::from(map.is_bar_start(t)), "tick {t}");
    }
}

#[test]
fn the_changes_list_is_empty_for_a_constant_map() {
    let map = MeterMap::constant("3/4", Q);
    assert!(map.changes().is_empty());
    assert_eq!(map.bar_starts(0, 100), vec![(0, 0), (36, 1), (72, 2)]);
}

#[test]
fn bar_numbers_never_go_back_across_a_cut_short_bar() {
    let map = MeterMap::new(&[(0, "4/4"), (36, "3/4"), (90, "6/8")], Q);
    let mut last = 0;
    for t in 0..300u64 {
        let bar = map.position(t).bar;
        assert!(bar >= last);
        last = bar;
    }
}

#[test]
fn listed_bar_starts_count_up_one_at_a_time() {
    let map = MeterMap::new(&[(0, "4/4"), (36, "3/4"), (90, "6/8")], Q);
    let starts = map.bar_starts(0, 300);
    for pair in starts.windows(2) {
        assert_eq!(pair[1].1, pair[0].1 + 1);
    }
}

#[test]
fn every_bar_line_is_also_a_beat() {
    let map = MeterMap::new(&[(0, "4/4"), (36, "3/4"), (90, "6/8")], Q);
    let beats: Vec<u64> = map.beat_starts(0, 300).into_iter().map(|(t, _)| t).collect();
    for (t, _) in map.bar_starts(0, 300) {
        assert!(beats.contains(&t));
    }
    for (_, p) in map.beat_starts(0, 300) {
        assert_eq!(p.tick_in_beat, 0);
    }
}

#[test]
fn a_cloned_map_places_ticks_the_same() {
    let map = MeterMap::new(&[(0, "4/4"), (36, "3/4")], Q);
    let copy = map.clone();
    for t in [0u64, 35, 36, 100] {
        assert_eq!(copy.position(t), map.position(t));
    }
}

#[test]
fn a_grid_too_coarse_for_a_common_time_bar_falls_back_to_four_ticks() {
    let map = MeterMap::new(&[(0, "4/32")], u32::MAX);
    assert_eq!(map.segment_at(0).ticks_per_beat, u32::MAX as u64);
    assert_eq!(map.segment_at(0).ticks_per_bar, 4);
}
