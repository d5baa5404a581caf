//! Where the bars fall when the meter changes mid-piece.
//!
//! A [`MeterMap`] answers "which bar and beat is tick *T* in" for a chart
//! whose time signature switches part-way. Bars are numbered continuously
//! across changes. A change that lands *between* bar lines of the meter
//! before it cuts that bar short: the new meter starts a fresh bar at the
//! change tick, and the truncated bar still counts as one.
use vstd::prelude::*;
use vstd::arithmetic::div_mod::{
    lemma_fundamental_div_mod, lemma_fundamental_div_mod_converse,
};

use crate::meter::{
    common_time, parse_time_signature, spec_parse_time_signature, MusicScoreMeter,
};

verus! {

/// One stretch of constant meter: from `start_tick` until the next
/// segment's start (or forever).
#[derive(Clone, Copy, Debug, PartialEq, Eq)]
pub struct MeterSegment {
    pub start_tick: u64,
    pub meter: MusicScoreMeter,
    /// 0-based index of the bar that starts at `start_tick`.
    pub first_bar: usize,
    /// Ticks in one beat of `meter` — the unit its upper number counts.
    pub ticks_per_beat: u64,
    /// Ticks in one bar of `meter`.
    pub ticks_per_bar: u64,
}

/// Where a tick falls: 0-based bar and beat, and the tick offset into
/// that beat.
#[derive(Clone, Copy, Debug, PartialEq, Eq)]
pub struct BarPosition {
    pub bar: usize,
    pub beat: usize,
    pub tick_in_beat: u64,
    /// The meter in force at that tick.
    pub meter: MusicScoreMeter,
}

/// A chart's meter over time. Always has at least one segment, at tick 0.
#[derive(Debug)]
pub struct MeterMap {
    segments: Vec<MeterSegment>,
}

/// `s / b` rounded up.
pub open spec fn ceil_div(s: int, b: int) -> int {
    s / b + if s % b == 0 { 0int } else { 1int }
}

/// Bars a stretch of `span` ticks holds, a cut-short last bar counting as
/// one.
pub open spec fn bars_in_span(span: int, ticks_per_bar: int) -> int {
    ceil_div(span, ticks_per_bar)
}

/// The shape every meter map has: a first segment at tick 0 starting bar
/// 0, segments in strictly increasing tick order, positive beat and bar
/// lengths, and each segment's first bar following from the bars the
/// segment before it held.
pub open spec fn segments_wf(segs: Seq<MeterSegment>) -> bool {
    &&& segs.len() >= 1
    &&& segs[0].start_tick == 0
    &&& segs[0].first_bar == 0
    &&& forall|i: int|
        0 <= i < segs.len() ==> {
            &&& #[trigger] segs[i].ticks_per_beat > 0
            &&& segs[i].ticks_per_bar > 0
            &&& segs[i].first_bar <= segs[i].start_tick
        }
    &&& forall|i: int, j: int|
        0 <= i < j < segs.len() ==> #[trigger] segs[i].start_tick < #[trigger] segs[j].start_tick
    &&& forall|i: int|
        0 <= i < segs.len() - 1 ==> #[trigger] segs[i + 1].first_bar == segs[i].first_bar
            + bars_in_span(segs[i + 1].start_tick - segs[i].start_tick, segs[i].ticks_per_bar as int)
}

/// Segment `i` is the one in force at `tick`.
pub open spec fn covers(segs: Seq<MeterSegment>, i: int, tick: int) -> bool {
    &&& 0 <= i < segs.len()
    &&& segs[i].start_tick <= tick
    &&& i + 1 < segs.len() ==> tick < segs[i + 1].start_tick
}

/// The beat and bar lengths a meter gets on a grid of `quarter_ticks`
/// ticks per quarter note: its own when both are whole and positive,
/// common time's (at least one tick each) otherwise.
pub open spec fn resolved_lengths(meter: MusicScoreMeter, quarter_ticks: u32) -> (u64, u64) {
    match (meter.spec_ticks_per_beat(quarter_ticks), meter.spec_ticks_per_bar(quarter_ticks)) {
        (Some(beat), Some(bar)) => if beat > 0 && bar > 0 {
            (beat as u64, bar as u64)
        } else {
            fallback_lengths(quarter_ticks)
        },
        _ => fallback_lengths(quarter_ticks),
    }
}

/// Common time's beat and bar on the grid, each at least one tick (a
/// beat of one tick and a bar of four where the grid cannot hold them).
pub open spec fn fallback_lengths(quarter_ticks: u32) -> (u64, u64) {
    let beat = match common_time().spec_ticks_per_beat(quarter_ticks) {
        Some(b) => if b >= 1 { b } else { 1u32 },
        None => 1u32,
    };
    let bar = match common_time().spec_ticks_per_bar(quarter_ticks) {
        Some(b) => if b >= 1 { b } else { 1u32 },
        None => 4u32,
    };
    (beat as u64, bar as u64)
}

/// Whether some point of `points` sits at `tick`.
pub open spec fn has_point_at(points: Seq<(u64, &str)>, tick: u64) -> bool {
    exists|k: int| 0 <= k < points.len() && #[trigger] points[k].0 == tick
}

/// The meter of the last point of `points` at `tick` (a later point at
/// the same tick overrides an earlier one).
pub open spec fn last_meter_at(points: Seq<(u64, &str)>, tick: u64) -> Option<MusicScoreMeter>
    decreases points.len(),
{
    if points.len() == 0 {
        None
    } else if points.last().0 == tick {
        Some(spec_parse_time_signature(points.last().1@))
    } else {
        last_meter_at(points.drop_last(), tick)
    }
}

/// The meter a map built from `points` has at a change tick: that of the
/// last point there, or common time at a tick 0 no point names.
pub open spec fn meter_named_at(points: Seq<(u64, &str)>, tick: u64) -> MusicScoreMeter {
    match last_meter_at(points, tick) {
        Some(m) => m,
        None => common_time(),
    }
}

proof fn lemma_last_meter_some(points: Seq<(u64, &str)>, tick: u64)
    ensures
        last_meter_at(points, tick).is_some() <==> has_point_at(points, tick),
    decreases points.len(),
{
    if points.len() > 0 {
        lemma_last_meter_some(points.drop_last(), tick);
        if has_point_at(points, tick) && points.last().0 != tick {
            let k = choose|k: int| 0 <= k < points.len() && #[trigger] points[k].0 == tick;
            assert(points.drop_last()[k].0 == tick);
        }
        if has_point_at(points.drop_last(), tick) {
            let k = choose|k: int| 0 <= k < points.len() - 1 && #[trigger] points.drop_last()[k].0 == tick;
            assert(points[k].0 == tick);
        }
    }
}

proof fn lemma_last_meter_push(points: Seq<(u64, &str)>, p: (u64, &str), tick: u64)
    ensures
        last_meter_at(points.push(p), tick) == if p.0 == tick {
            Some(spec_parse_time_signature(p.1@))
        } else {
            last_meter_at(points, tick)
        },
{
    assert(points.push(p).drop_last() =~= points);
}

/// `ceil_div(s, b)` is one more than `(s - 1) / b` for a positive span.
proof fn lemma_ceil_div_step(s: int, b: int)
    requires
        s >= 1,
        b >= 1,
    ensures
        ceil_div(s, b) == (s - 1) / b + 1,
        ceil_div(s, b) <= s,
{
    let q = (s - 1) / b;
    let r = (s - 1) % b;
    lemma_fundamental_div_mod(s - 1, b);
    assert(0 <= r < b);
    if r + 1 < b {
        lemma_fundamental_div_mod_converse(s, b, q, r + 1);
    } else {
        assert(s == (q + 1) * b) by (nonlinear_arith)
            requires
                s - 1 == b * q + r,
                r + 1 == b,
        ;
        lemma_fundamental_div_mod_converse(s, b, q + 1, 0);
    }
    assert(q * b <= s - 1) by (nonlinear_arith)
        requires
            s - 1 == b * q + r,
            r >= 0,
    ;
    assert(q + 1 <= s) by (nonlinear_arith)
        requires
            q * b <= s - 1,
            b >= 1,
            s >= 1,
    ;
}

/// One tick further into a segment moves the bar on exactly when the new
/// tick is a bar line.
proof fn lemma_div_step(o: int, b: int)
    requires
        o >= 1,
        b >= 1,
    ensures
        o / b == (o - 1) / b + if o % b == 0 { 1int } else { 0int },
        (o - 1) / b <= o / b,
{
    let q = (o - 1) / b;
    let r = (o - 1) % b;
    lemma_fundamental_div_mod(o - 1, b);
    if r + 1 < b {
        lemma_fundamental_div_mod_converse(o, b, q, r + 1);
    } else {
        assert(o == (q + 1) * b) by (nonlinear_arith)
            requires
                o - 1 == b * q + r,
                r + 1 == b,
        ;
        lemma_fundamental_div_mod_converse(o, b, q + 1, 0);
    }
}

/// Dividing a tick offset never gives more than the offset.
proof fn lemma_div_le(o: int, b: int)
    requires
        o >= 0,
        b >= 1,
    ensures
        0 <= o / b <= o,
        0 <= o % b < b,
        o % b <= o,
{
    lemma_fundamental_div_mod(o, b);
    assert(0 <= o / b <= o) by (nonlinear_arith)
        requires
            o == b * (o / b) + o % b,
            0 <= o % b < b,
            o >= 0,
            b >= 1,
    ;
}

impl Clone for MeterMap {
    /// The same segments, in the same order.
    fn clone(&self) -> (c: MeterMap)
        ensures
            c.view() == self.view(),
    {
        proof {
            use_type_invariant(self);
        }
        let segments = self.segments.clone();
        assert(segments@ =~= self.segments@);
        MeterMap { segments }
    }
}

impl MeterMap {
    /// The map's segments in tick order.
    pub closed spec fn view(&self) -> Seq<MeterSegment> {
        self.segments@
    }

    #[verifier::type_invariant]
    closed spec fn inv(self) -> bool {
        segments_wf(self.segments@)
    }

    /// The index of the segment in force at `tick`.
    pub open spec fn segment_index(&self, tick: u64) -> int {
        choose|i: int| covers(self.view(), i, tick as int)
    }

    /// Which bar and beat `tick` is in, by the segment in force there.
    pub open spec fn spec_position(&self, tick: u64) -> BarPosition {
        let s = self.view()[self.segment_index(tick)];
        let off = tick - s.start_tick;
        let in_bar = off % (s.ticks_per_bar as int);
        BarPosition {
            bar: (s.first_bar + off / (s.ticks_per_bar as int)) as usize,
            beat: (in_bar / (s.ticks_per_beat as int)) as usize,
            tick_in_beat: (in_bar % (s.ticks_per_beat as int)) as u64,
            meter: s.meter,
        }
    }

    /// Whether a bar starts exactly at `tick`.
    pub open spec fn spec_is_bar_start(&self, tick: u64) -> bool {
        let s = self.view()[self.segment_index(tick)];
        (tick - s.start_tick) % (s.ticks_per_bar as int) == 0
    }

    /// Whether a beat of the segment in force starts exactly at `tick`.
    pub open spec fn spec_is_beat_start(&self, tick: u64) -> bool {
        let s = self.view()[self.segment_index(tick)];
        (tick - s.start_tick) % (s.ticks_per_beat as int) == 0
    }

    /// Exactly one segment is in force at every tick.
    pub proof fn lemma_covering_segment(&self, tick: u64)
        requires
            segments_wf(self.view()),
        ensures
            covers(self.view(), self.segment_index(tick), tick as int),
            forall|j: int| covers(self.view(), j, tick as int) ==> j == self.segment_index(tick),
    {
        let segs = self.view();
        lemma_cover_exists(segs, tick as int, segs.len() as int);
        let i = self.segment_index(tick);
        assert forall|j: int| covers(segs, j, tick as int) implies j == i by {
            if j < i {
                assert(segs[j + 1].start_tick <= segs[i].start_tick);
            } else if i < j {
                assert(segs[i + 1].start_tick <= segs[j].start_tick);
            }
        }
    }
}

/// The beat and bar lengths of `meter` on the grid, common time's when its
/// own are not whole positive tick counts.
fn resolve_lengths(meter: MusicScoreMeter, quarter_ticks: u32) -> (r: (u64, u64))
    ensures
        r == resolved_lengths(meter, quarter_ticks),
        r.0 >= 1,
        r.1 >= 1,
{
    match (meter.ticks_per_beat(quarter_ticks), meter.ticks_per_bar(quarter_ticks)) {
        (Some(beat), Some(bar)) => {
            if beat > 0 && bar > 0 {
                return (beat as u64, bar as u64);
            }
        },
        _ => {},
    }
    let fallback = MusicScoreMeter::common();
    let beat = match fallback.ticks_per_beat(quarter_ticks) {
        Some(b) => if b >= 1 { b } else { 1 },
        None => 1,
    };
    let bar = match fallback.ticks_per_bar(quarter_ticks) {
        Some(b) => if b >= 1 { b } else { 1 },
        None => 4,
    };
    (beat as u64, bar as u64)
}

/// The distinct ticks seen so far in increasing order, each carrying the
/// meter of the last point at that tick.
spec fn sorted_points_for(
    pts: Seq<(u64, MusicScoreMeter)>,
    points: Seq<(u64, &str)>,
) -> bool {
    &&& forall|a: int, b: int| 0 <= a < b < pts.len() ==> #[trigger] pts[a].0 < #[trigger] pts[b].0
    &&& forall|a: int| 0 <= a < pts.len() ==> has_point_at(points, #[trigger] pts[a].0)
    &&& forall|a: int| 0 <= a < pts.len() ==> last_meter_at(points, #[trigger] pts[a].0) == Some(pts[a].1)
    &&& forall|t: u64| #[trigger] has_point_at(points, t) ==> exists|a: int| 0 <= a < pts.len() && pts[a].0 == t
}

impl MeterMap {
    /// Builds the map from `(tick, "N/D")` points, `quarter_ticks` ticks to
    /// a quarter note. Points are sorted; a duplicate tick keeps the later
    /// entry; a map without a point at tick 0 gets a common-time segment in
    /// front so every tick has a meter. A meter too fine for the tick grid
    /// (a beat that isn't a whole number of ticks) gets common time's beat
    /// and bar lengths rather than a zero-length bar.
    pub fn new(points: &[(u64, &str)], quarter_ticks: u32) -> (map: MeterMap)
        requires
            forall|k: int| 0 <= k < points@.len() ==> #[trigger] points@[k].0 <= usize::MAX,
        ensures
            segments_wf(map@),
            forall|t: u64|
                (exists|i: int| 0 <= i < map@.len() && #[trigger] map@[i].start_tick == t) <==> (t
                    == 0 || has_point_at(points@, t)),
            forall|i: int|
                0 <= i < map@.len() ==> #[trigger] map@[i].meter == meter_named_at(
                    points@,
                    map@[i].start_tick,
                ),
            forall|i: int|
                0 <= i < map@.len() ==> (#[trigger] map@[i].ticks_per_beat, map@[i].ticks_per_bar)
                    == resolved_lengths(map@[i].meter, quarter_ticks),
    {
        let mut pts: Vec<(u64, MusicScoreMeter)> = Vec::new();
        let mut k: usize = 0;
        while k < points.len()
            invariant
                k <= points@.len(),
                sorted_points_for(pts@, points@.subrange(0, k as int)),
            decreases points@.len() - k,
        {
            let (tick, sig) = points[k];
            let meter = parse_time_signature(sig);
            let ghost before = points@.subrange(0, k as int);
            let ghost after = points@.subrange(0, k + 1);
            proof {
                assert(after =~= before.push(points@[k as int]));
                assert forall|t: u64| #[trigger] last_meter_at(after, t) == if t == tick {
                    Some(meter)
                } else {
                    last_meter_at(before, t)
                } by {
                    lemma_last_meter_push(before, points@[k as int], t);
                }
                assert forall|t: u64| #[trigger] has_point_at(after, t) <==> (t == tick
                    || has_point_at(before, t)) by {
                    lemma_last_meter_some(after, t);
                    lemma_last_meter_some(before, t);
                }
            }
            let mut j: usize = 0;
            while j < pts.len() && pts[j].0 < tick
                invariant
                    j <= pts@.len(),
                    forall|a: int| 0 <= a < j ==> #[trigger] pts@[a].0 < tick,
                decreases pts@.len() - j,
            {
                j = j + 1;
            }
            let ghost old_pts = pts@;
            if j < pts.len() && pts[j].0 == tick {
                pts.set(j, (tick, meter));
                proof {
                    assert forall|t: u64| #[trigger] has_point_at(after, t) implies exists|a: int|
                        0 <= a < pts@.len() && pts@[a].0 == t by {
                        if t != tick {
                            let a = choose|a: int| 0 <= a < old_pts.len() && old_pts[a].0 == t;
                            assert(pts@[a].0 == t);
                        } else {
                            assert(pts@[j as int].0 == t);
                        }
                    }
                }
            } else {
                pts.insert(j, (tick, meter));
                proof {
                    assert forall|a: int, b: int| 0 <= a < b < pts@.len() implies #[trigger] pts@[a].0
                        < #[trigger] pts@[b].0 by {
                        if b < j {
                        } else if a == j {
                            assert(pts@[b] == old_pts[b - 1]);
                        } else if b == j {
                        } else if a > j {
                            assert(pts@[a] == old_pts[a - 1]);
                            assert(pts@[b] == old_pts[b - 1]);
                        } else {
                            assert(pts@[b] == old_pts[b - 1]);
                        }
                    }
                    assert forall|t: u64| #[trigger] has_point_at(after, t) implies exists|a: int|
                        0 <= a < pts@.len() && pts@[a].0 == t by {
                        if t != tick {
                            let a = choose|a: int| 0 <= a < old_pts.len() && old_pts[a].0 == t;
                            if a < j {
                                assert(pts@[a].0 == t);
                            } else {
                                assert(pts@[a + 1].0 == t);
                            }
                        } else {
                            assert(pts@[j as int].0 == t);
                        }
                    }
                    assert forall|a: int| 0 <= a < pts@.len() implies last_meter_at(
                        after,
                        #[trigger] pts@[a].0,
                    ) == Some(pts@[a].1) by {
                        if a < j {
                            assert(pts@[a] == old_pts[a]);
                        } else if a > j {
                            assert(pts@[a] == old_pts[a - 1]);
                        }
                    }
                    assert forall|a: int| 0 <= a < pts@.len() implies has_point_at(
                        after,
                        #[trigger] pts@[a].0,
                    ) by {
                        if a < j {
                            assert(pts@[a] == old_pts[a]);
                        } else if a > j {
                            assert(pts@[a] == old_pts[a - 1]);
                        }
                    }
                }
            }
            k = k + 1;
        }
        proof {
            assert(points@.subrange(0, points@.len() as int) =~= points@);
        }
        let ghost named = pts@;
        if pts.len() == 0 || pts[0].0 != 0 {
            pts.insert(0, (0, MusicScoreMeter::common()));
            proof {
                lemma_last_meter_some(points@, 0);
                if has_point_at(points@, 0) {
                    let a = choose|a: int| 0 <= a < named.len() && named[a].0 == 0u64;
                    assert(named[0].0 <= named[a].0);
                }
            }
        }
        let ghost sorted = pts@;
        // Every entry of `sorted` is a change tick with its named meter.
        assert forall|a: int| 0 <= a < sorted.len() implies #[trigger] sorted[a].1 == meter_named_at(
            points@,
            sorted[a].0,
        ) && (sorted[a].0 == 0 || has_point_at(points@, sorted[a].0)) && sorted[a].0 <= usize::MAX by {
            if sorted.len() != named.len() && a > 0 {
                assert(sorted[a] == named[a - 1]);
            }
            if has_point_at(points@, sorted[a].0) {
                let kk = choose|kk: int| 0 <= kk < points@.len() && #[trigger] points@[kk].0 == sorted[a].0;
            }
        }
        assert(sorted.len() >= 1 && sorted[0].0 == 0);
        assert forall|a: int, b: int| 0 <= a < b < sorted.len() implies #[trigger] sorted[a].0
            < #[trigger] sorted[b].0 by {
            if sorted.len() != named.len() {
                if a > 0 {
                    assert(sorted[a] == named[a - 1]);
                }
                assert(sorted[b] == named[b - 1]);
                if a == 0 {
                    assert(named[0].0 <= named[b - 1].0);
                }
            }
        }

        let n = pts.len();
        let mut segments: Vec<MeterSegment> = Vec::with_capacity(n);
        let mut next_bar: usize = 0;
        let mut i: usize = 0;
        while i < n
            invariant
                n == sorted.len(),
                pts@ == sorted,
                n >= 1,
                sorted[0].0 == 0,
                forall|a: int, b: int| 0 <= a < b < sorted.len() ==> #[trigger] sorted[a].0
                    < #[trigger] sorted[b].0,
                forall|a: int| 0 <= a < sorted.len() ==> #[trigger] sorted[a].0 <= usize::MAX,
                i <= n,
                segments@.len() == i,
                forall|a: int|
                    0 <= a < i ==> {
                        &&& #[trigger] segments@[a].start_tick == sorted[a].0
                        &&& segments@[a].meter == sorted[a].1
                        &&& (segments@[a].ticks_per_beat, segments@[a].ticks_per_bar)
                            == resolved_lengths(sorted[a].1, quarter_ticks)
                        &&& segments@[a].ticks_per_beat > 0
                        &&& segments@[a].ticks_per_bar > 0
                        &&& segments@[a].first_bar <= segments@[a].start_tick
                    },
                i == 0 ==> next_bar == 0,
                i > 0 && i < n ==> next_bar == segments@[i - 1].first_bar + bars_in_span(
                    sorted[i as int].0 - segments@[i - 1].start_tick,
                    segments@[i - 1].ticks_per_bar as int,
                ),
                i < n ==> next_bar <= sorted[i as int].0,
                segments_prefix_links(segments@),
                i > 0 ==> segments@[0].first_bar == 0,
            decreases n - i,
        {
            let (start_tick, meter) = pts[i];
            let (ticks_per_beat, ticks_per_bar) = resolve_lengths(meter, quarter_ticks);
            let ghost prev_segments = segments@;
            segments.push(
                MeterSegment { start_tick, meter, first_bar: next_bar, ticks_per_beat, ticks_per_bar },
            );
            proof {
                assert forall|a: int| 0 <= a < i + 1 implies {
                    &&& #[trigger] segments@[a].start_tick == sorted[a].0
                    &&& segments@[a].meter == sorted[a].1
                    &&& (segments@[a].ticks_per_beat, segments@[a].ticks_per_bar)
                        == resolved_lengths(sorted[a].1, quarter_ticks)
                    &&& segments@[a].ticks_per_beat > 0
                    &&& segments@[a].ticks_per_bar > 0
                    &&& segments@[a].first_bar <= segments@[a].start_tick
                } by {
                    if a < i {
                        assert(segments@[a] == prev_segments[a]);
                    } else {
                        assert(segments@[a].start_tick == start_tick);
                        assert(start_tick == sorted[a].0);
                        assert(segments@[a].first_bar == next_bar);
                    }
                }
                assert forall|a: int| 0 <= a < segments@.len() - 1 implies #[trigger] segments@[a
                    + 1].first_bar == segments@[a].first_bar + bars_in_span(
                    segments@[a + 1].start_tick - segments@[a].start_tick,
                    segments@[a].ticks_per_bar as int,
                ) by {
                    if a + 1 < i {
                        assert(segments@[a] == prev_segments[a]);
                        assert(segments@[a + 1] == prev_segments[a + 1]);
                    }
                }
            }
            if i + 1 < n {
                let span: u64 = pts[i + 1].0 - start_tick;
                proof {
                    assert(sorted[i as int].0 < sorted[i + 1].0);
                    lemma_ceil_div_step(span as int, ticks_per_bar as int);
                }
                let whole: u64 = span / ticks_per_bar;
                let bars: u64 = if span % ticks_per_bar == 0 { whole } else { whole + 1 };
                next_bar = next_bar + bars as usize;
            }
            i = i + 1;
        }
        proof {
            assert(segments@[0].first_bar == 0);
            assert forall|a: int, b: int| 0 <= a < b < segments@.len() implies #[trigger] segments@[a].start_tick
                < #[trigger] segments@[b].start_tick by {
                assert(sorted[a].0 < sorted[b].0);
            }
            assert forall|a: int| 0 <= a < segments@.len() implies {
                &&& #[trigger] segments@[a].ticks_per_beat > 0
                &&& segments@[a].ticks_per_bar > 0
                &&& segments@[a].first_bar <= segments@[a].start_tick
            } by {
                assert(segments@[a].start_tick == sorted[a].0);
            }
            assert(segments_wf(segments@));
        }
        let map = MeterMap { segments };
        proof {
            assert forall|t: u64|
                (exists|a: int| 0 <= a < map@.len() && #[trigger] map@[a].start_tick == t) <==> (t == 0
                    || has_point_at(points@, t)) by {
                if exists|a: int| 0 <= a < map@.len() && #[trigger] map@[a].start_tick == t {
                    let a = choose|a: int| 0 <= a < map@.len() && #[trigger] map@[a].start_tick == t;
                    assert(sorted[a].0 == t);
                }
                if t == 0 {
                    assert(map@[0].start_tick == t);
                } else if has_point_at(points@, t) {
                    let a = choose|a: int| 0 <= a < named.len() && named[a].0 == t;
                    if sorted.len() == named.len() {
                        assert(map@[a].start_tick == t);
                    } else {
                        assert(sorted[a + 1] == named[a]);
                        assert(map@[a + 1].start_tick == t);
                    }
                }
            }
        }
        map
    }
}

impl MeterMap {
    /// A map with one meter for the whole piece.
    pub fn constant(meter: &str, quarter_ticks: u32) -> (map: MeterMap)
        ensures
            map@.len() == 1,
            map@[0].start_tick == 0,
            map@[0].first_bar == 0,
            map@[0].meter == spec_parse_time_signature(meter@),
            (map@[0].ticks_per_beat, map@[0].ticks_per_bar) == resolved_lengths(
                map@[0].meter,
                quarter_ticks,
            ),
    {
        let points = [(0u64, meter)];
        let map = MeterMap::new(&points, quarter_ticks);
        proof {
            let pts = points@;
            assert(pts.len() == 1 && pts[0].0 == 0);
            assert(pts.drop_last().len() == 0);
            assert(last_meter_at(pts, 0) == Some(spec_parse_time_signature(meter@)));
            assert(has_point_at(pts, 0));
            if map@.len() > 1 {
                assert(map@[0].start_tick < map@[1].start_tick);
                let t = map@[1].start_tick;
                assert(exists|i: int| 0 <= i < map@.len() && #[trigger] map@[i].start_tick == t);
                assert(has_point_at(pts, t));
                let k = choose|k: int| 0 <= k < pts.len() && #[trigger] pts[k].0 == t;
                assert(k == 0);
            }
        }
        map
    }

    /// The map's segments, in tick order.
    pub fn segments(&self) -> (r: &[MeterSegment])
        ensures
            r@ == self@,
    {
        self.segments.as_slice()
    }

    /// The segment in force at `tick`.
    pub fn segment_at(&self, tick: u64) -> (seg: &MeterSegment)
        ensures
            *seg == self@[self.segment_index(tick)],
            covers(self@, self.segment_index(tick), tick as int),
    {
        proof {
            use_type_invariant(self);
            self.lemma_covering_segment(tick);
        }
        let n = self.segments.len();
        let mut i: usize = 0;
        while i + 1 < n && self.segments[i + 1].start_tick <= tick
            invariant
                n == self@.len(),
                segments_wf(self@),
                i < n,
                self@[i as int].start_tick <= tick,
            decreases n - i,
        {
            i = i + 1;
        }
        proof {
            assert(covers(self@, i as int, tick as int));
        }
        &self.segments[i]
    }

    /// The meter in force at `tick`.
    pub fn meter_at(&self, tick: u64) -> (m: MusicScoreMeter)
        ensures
            m == self@[self.segment_index(tick)].meter,
    {
        self.segment_at(tick).meter
    }

    /// Which bar and beat `tick` is in.
    pub fn position(&self, tick: u64) -> (p: BarPosition)
        requires
            tick <= usize::MAX,
        ensures
            p == self.spec_position(tick),
    {
        proof {
            use_type_invariant(self);
            self.lemma_covering_segment(tick);
        }
        let seg = self.segment_at(tick);
        assert(self@[self.segment_index(tick)].ticks_per_beat > 0);
        let offset: u64 = tick - seg.start_tick;
        let bar_in_segment: u64 = offset / seg.ticks_per_bar;
        let in_bar: u64 = offset % seg.ticks_per_bar;
        proof {
            lemma_div_le(offset as int, seg.ticks_per_bar as int);
            lemma_div_le(in_bar as int, seg.ticks_per_beat as int);
        }
        BarPosition {
            bar: seg.first_bar + bar_in_segment as usize,
            beat: (in_bar / seg.ticks_per_beat) as usize,
            tick_in_beat: in_bar % seg.ticks_per_beat,
            meter: seg.meter,
        }
    }

    /// Whether a bar starts exactly at `tick`.
    pub fn is_bar_start(&self, tick: u64) -> (r: bool)
        ensures
            r == self.spec_is_bar_start(tick),
    {
        proof {
            use_type_invariant(self);
            self.lemma_covering_segment(tick);
        }
        let seg = self.segment_at(tick);
        assert(self@[self.segment_index(tick)].ticks_per_beat > 0);
        (tick - seg.start_tick) % seg.ticks_per_bar == 0
    }

    /// Every meter *change* (every segment after the first) as
    /// `(tick, meter)`, in tick order.
    pub fn changes(&self) -> (r: Vec<(u64, MusicScoreMeter)>)
        ensures
            r@.len() == self@.len() - 1,
            forall|k: int|
                0 <= k < r@.len() ==> #[trigger] r@[k] == (
                    self@[k + 1].start_tick,
                    self@[k + 1].meter,
                ),
    {
        proof {
            use_type_invariant(self);
        }
        let mut out: Vec<(u64, MusicScoreMeter)> = Vec::new();
        let mut i: usize = 1;
        while i < self.segments.len()
            invariant
                1 <= i <= self@.len(),
                out@.len() == i - 1,
                forall|k: int|
                    0 <= k < out@.len() ==> #[trigger] out@[k] == (
                        self@[k + 1].start_tick,
                        self@[k + 1].meter,
                    ),
            decreases self@.len() - i,
        {
            out.push((self.segments[i].start_tick, self.segments[i].meter));
            i = i + 1;
        }
        out
    }
}

/// The grid a segment is walked on: its beats or its bars.
pub open spec fn grid_step(seg: MeterSegment, beats: bool) -> int {
    if beats {
        seg.ticks_per_beat as int
    } else {
        seg.ticks_per_bar as int
    }
}

/// How far `t` is past the last grid line of a grid of `step` ticks
/// anchored at `start`.
pub open spec fn grid_offset(t: u64, start: u64, step: u64) -> int {
    (t - start) % (step as int)
}

/// Two ticks on the same grid less than one step apart are the same tick.
proof fn lemma_grid_unique(s: int, b: int, u: int, t: int)
    requires
        b >= 1,
        s <= u <= t < u + b,
        (t - s) % b == 0,
        (u - s) % b == 0,
    ensures
        t == u,
{
    lemma_fundamental_div_mod(t - s, b);
    lemma_fundamental_div_mod(u - s, b);
    let q1 = (t - s) / b;
    let q2 = (u - s) / b;
    assert(q1 == q2) by (nonlinear_arith)
        requires
            t - s == b * q1,
            u - s == b * q2,
            0 <= t - u < b,
            b >= 1,
    ;
}

/// A tick past a grid line but short of the next one is off the grid.
proof fn lemma_off_grid(x: int, b: int, q: int)
    requires
        b >= 1,
        q * b < x < (q + 1) * b,
    ensures
        x % b != 0,
{
    assert(0 < x - q * b < b) by (nonlinear_arith)
        requires
            q * b < x < (q + 1) * b,
    ;
    lemma_fundamental_div_mod_converse(x, b, q, x - q * b);
}

impl MeterMap {
    /// Whether a grid line of the segment in force falls exactly on `tick`
    /// (a beat line when `beats`, else a bar line).
    pub open spec fn on_grid(&self, tick: u64, beats: bool) -> bool {
        let s = self@[self.segment_index(tick)];
        (tick - s.start_tick) % grid_step(s, beats) == 0
    }

    /// Every grid line within `[from, to)`, in increasing order.
    fn grid_ticks(&self, from: u64, to: u64, beats: bool) -> (r: Vec<u64>)
        ensures
            forall|a: int, b: int| 0 <= a < b < r@.len() ==> #[trigger] r@[a] < #[trigger] r@[b],
            forall|k: int|
                0 <= k < r@.len() ==> from <= #[trigger] r@[k] < to && self.on_grid(r@[k], beats),
            forall|t: u64| from <= t < to && #[trigger] self.on_grid(t, beats) ==> r@.contains(t),
    {
        proof {
            use_type_invariant(self);
        }
        let ghost segs = self@;
        let n = self.segments.len();
        let mut out: Vec<u64> = Vec::new();
        let mut i: usize = 0;
        while i < n
            invariant
                n == segs.len(),
                segs == self@,
                segments_wf(segs),
                i <= n,
                forall|a: int, b: int| 0 <= a < b < out@.len() ==> #[trigger] out@[a] < #[trigger] out@[b],
                forall|k: int|
                    0 <= k < out@.len() ==> from <= #[trigger] out@[k] < to && self.on_grid(out@[k], beats)
                        && (i < n ==> out@[k] < segs[i as int].start_tick),
                forall|t: u64|
                    from <= t < to && (i < n ==> t < segs[i as int].start_tick) && #[trigger] self.on_grid(
                        t,
                        beats,
                    ) ==> out@.contains(t),
            decreases n - i,
        {
            let seg = &self.segments[i];
            let start = seg.start_tick;
            let step: u64 = if beats { seg.ticks_per_beat } else { seg.ticks_per_bar };
            let last = i + 1 == n;
            let end: u64 = if last { 0 } else { self.segments[i + 1].start_tick };
            assert(segs[i as int].ticks_per_beat > 0);
            assert(step == grid_step(segs[i as int], beats));
            assert(step >= 1);
            // Ticks of this segment are exactly those it covers.
            assert forall|t: u64| start <= t && (last || t < end) implies #[trigger] self.segment_index(t) == i by {
                self.lemma_covering_segment(t);
                assert(covers(segs, i as int, t as int));
            }
            assert forall|t: u64| start <= t && (last || t < end) implies (#[trigger] self.on_grid(t, beats) <==> grid_offset(t, start, step) == 0) by {
                assert(self.segment_index(t) == i);
            }
            let first: Option<u64> = if from <= start {
                Some(start)
            } else {
                let d: u64 = from - start;
                let rem: u64 = d % step;
                if rem == 0 {
                    Some(from)
                } else if from <= u64::MAX - (step - rem) {
                    Some(from + (step - rem))
                } else {
                    None
                }
            };
            let ghost lo: int = if from <= start { start as int } else { from as int };
            proof {
                if from > start {
                    let d = from - start;
                    lemma_fundamental_div_mod(d as int, step as int);
                    let q = (d as int) / (step as int);
                    let rem = (d as int) % (step as int);
                    assert(q * step + rem == d) by (nonlinear_arith)
                        requires
                            d == step * q + rem,
                    ;
                    assert forall|t: u64| lo <= t && (first.is_none() || t < first.unwrap()) implies #[trigger] grid_offset(t, start, step) != 0 by {
                        assert(q * step + rem == d) by (nonlinear_arith)
                            requires
                                d == step * q + rem,
                        ;
                        if rem != 0 {
                            assert(t - start < (q + 1) * step) by (nonlinear_arith)
                                requires
                                    q * step + rem == d,
                                    t <= u64::MAX,
                                    first.is_none() ==> from + step - rem > u64::MAX,
                                    first.is_some() ==> t < from + (step - rem),
                                    d == from - start,
                            ;
                            lemma_off_grid(t - start, step as int, q);
                        }
                    }
                    if first.is_some() {
                        assert((first.unwrap() - start) % (step as int) == 0) by {
                            if rem != 0 {
                                assert(first.unwrap() - start == (q + 1) * step) by (nonlinear_arith)
                                    requires
                                        q * step + rem == d,
                                        first.unwrap() == from + (step - rem),
                                        d == from - start,
                                ;
                                lemma_fundamental_div_mod_converse(
                                    first.unwrap() - start,
                                    step as int,
                                    q + 1,
                                    0,
                                );
                            }
                        }
                    }
                } else {
                    lemma_fundamental_div_mod_converse(0, step as int, 0, 0);
                }
            }
            let ghost out_before = out@;
            match first {
                Some(first_tick) => {
                    let mut tick: u64 = first_tick;
                    let mut more = true;
                    while more && tick < to && (last || tick < end)
                        invariant
                            segs == self@,
                            segments_wf(segs),
                            i < n,
                            start == segs[i as int].start_tick,
                            step == grid_step(segs[i as int], beats),
                            step >= 1,
                            last == (i + 1 == n),
                            !last ==> end == segs[i + 1].start_tick,
                            lo <= tick,
                            from <= lo,
                            start <= lo,
                            grid_offset(tick, start, step) == 0,
                            forall|t: u64| start <= t && (last || t < end) ==> #[trigger] self.segment_index(t) == i,
                            forall|t: u64| start <= t && (last || t < end) ==> (#[trigger] self.on_grid(t, beats) <==> grid_offset(t, start, step) == 0),
                            forall|t: u64| lo <= t < first_tick ==> #[trigger] grid_offset(t, start, step) != 0,
                            lo <= first_tick <= tick,
                            !more ==> tick as int + step > u64::MAX,
                            forall|a: int, b: int|
                                0 <= a < b < out@.len() ==> #[trigger] out@[a] < #[trigger] out@[b],
                            forall|k: int|
                                0 <= k < out@.len() ==> from <= #[trigger] out@[k] < to && self.on_grid(
                                    out@[k],
                                    beats,
                                ) && out@[k] < tick + if more { 0int } else { 1int },
                            forall|k: int|
                                0 <= k < out_before.len() ==> #[trigger] out_before[k] < start,
                            forall|k: int| 0 <= k < out@.len() && !last ==> #[trigger] out@[k] < end,
                            out_before.len() <= out@.len(),
                            forall|k: int| 0 <= k < out_before.len() ==> out@[k] == out_before[k],
                            forall|t: u64|
                                from <= t < to && t < start && #[trigger] self.on_grid(t, beats)
                                    ==> out_before.contains(t),
                            forall|t: u64|
                                lo <= t < to && (t < tick || (!more && t == tick)) && (last || t < end)
                                    && grid_offset(t, start, step) == 0 ==> #[trigger] out@.contains(t),
                        decreases (if more { 1int } else { 0int }) + u64::MAX - tick,
                    {
                        let ghost before_push = out@;
                        out.push(tick);
                        proof {
                            assert forall|t: u64|
                                lo <= t < to && t < tick && (last || t < end) && grid_offset(t, start, step)
                                    == 0 implies #[trigger] out@.contains(t) by {
                                assert(before_push.contains(t));
                                let k = choose|k: int| 0 <= k < before_push.len() && before_push[k] == t;
                                assert(out@[k] == t);
                            }
                            assert(out@[out@.len() - 1] == tick);
                            assert forall|k: int| 0 <= k < out_before.len() implies out@[k] == out_before[k] by {
                                assert(out@[k] == before_push[k]);
                            }
                        }
                        if tick > u64::MAX - step {
                            more = false;
                        } else {
                            proof {
                                assert forall|t: u64|
                                    lo <= t < to && t < tick + step && (last || t < end) && (t - start) % (
                                    step as int) == 0 implies #[trigger] out@.contains(t) by {
                                    if t >= tick {
                                        lemma_grid_unique(start as int, step as int, tick as int, t as int);
                                        assert(out@[out@.len() - 1] == t);
                                    } else {
                                        assert(before_push.contains(t));
                                        let k = choose|k: int| 0 <= k < before_push.len() && before_push[k] == t;
                                        assert(out@[k] == t);
                                    }
                                }
                                assert((tick + step - start) % (step as int) == 0) by {
                                    lemma_fundamental_div_mod(tick - start, step as int);
                                    let q = (tick - start) / (step as int);
                                    assert(tick + step - start == (q + 1) * step) by (nonlinear_arith)
                                        requires
                                            tick - start == step * q + 0,
                                    ;
                                    lemma_fundamental_div_mod_converse(tick + step - start, step as int, q + 1, 0);
                                }
                            }
                            tick = tick + step;
                        }
                    }
                    proof {
                        assert forall|t: u64|
                            from <= t < to && (i + 1 < n ==> t < segs[i + 1].start_tick) && #[trigger] self.on_grid(
                                t,
                                beats,
                            ) implies out@.contains(t) by {
                            if t < start {
                                assert(out_before.contains(t));
                                let k = choose|k: int| 0 <= k < out_before.len() && out_before[k] == t;
                                assert(out@[k] == t);
                            } else {
                                if t < first_tick {
                                    assert(grid_offset(t, start, step) != 0);
                                } else if !more && t > tick {
                                    lemma_grid_unique(start as int, step as int, tick as int, t as int);
                                }
                            }
                        }
                    }
                },
                None => {
                    proof {
                        assert forall|t: u64|
                            from <= t < to && (i + 1 < n ==> t < segs[i + 1].start_tick) && #[trigger] self.on_grid(
                                t,
                                beats,
                            ) implies out@.contains(t) by {
                            if t >= start {
                                assert(grid_offset(t, start, step) != 0);
                            }
                        }
                    }
                },
            }
            i = i + 1;
        }
        out
    }
}

impl MeterMap {
    /// The tick each *bar* starts on within `[from, to)`, with its 0-based
    /// index, in increasing order — for drawing bar lines and bar numbers.
    /// A bar cut short by a meter change still starts where it starts; the
    /// change's own tick is the next bar's start.
    pub fn bar_starts(&self, from: u64, to: u64) -> (r: Vec<(u64, usize)>)
        requires
            to <= usize::MAX as int + 1,
        ensures
            forall|a: int, b: int| 0 <= a < b < r@.len() ==> #[trigger] r@[a].0 < #[trigger] r@[b].0,
            forall|k: int|
                0 <= k < r@.len() ==> from <= #[trigger] r@[k].0 < to && self.spec_is_bar_start(r@[k].0)
                    && r@[k].1 == self.spec_position(r@[k].0).bar,
            forall|t: u64|
                from <= t < to && #[trigger] self.spec_is_bar_start(t) ==> exists|k: int|
                    0 <= k < r@.len() && r@[k].0 == t,
            forall|k: int| 0 <= k < r@.len() - 1 ==> #[trigger] r@[k + 1].1 == r@[k].1 + 1,
    {
        proof {
            use_type_invariant(self);
        }
        let ticks = self.grid_ticks(from, to, false);
        let mut out: Vec<(u64, usize)> = Vec::new();
        let mut k: usize = 0;
        while k < ticks.len()
            invariant
                k <= ticks@.len(),
                out@.len() == k,
                to <= usize::MAX as int + 1,
                forall|a: int| 0 <= a < ticks@.len() ==> from <= #[trigger] ticks@[a] < to,
                forall|a: int| 0 <= a < k ==> #[trigger] out@[a] == (ticks@[a], self.spec_position(ticks@[a]).bar),
            decreases ticks@.len() - k,
        {
            let t = ticks[k];
            let p = self.position(t);
            out.push((t, p.bar));
            k = k + 1;
        }
        proof {
            assert forall|t: u64| from <= t < to && #[trigger] self.spec_is_bar_start(t) implies exists|k: int|
                0 <= k < out@.len() && out@[k].0 == t by {
                assert(self.on_grid(t, false));
                assert(ticks@.contains(t));
                let k = choose|k: int| 0 <= k < ticks@.len() && ticks@[k] == t;
                assert(out@[k].0 == t);
            }
            assert forall|k: int| 0 <= k < out@.len() implies from <= #[trigger] out@[k].0 < to
                && self.spec_is_bar_start(out@[k].0) && out@[k].1 == self.spec_position(out@[k].0).bar by {
                assert(self.on_grid(ticks@[k], false));
            }
            assert forall|a: int, b: int| 0 <= a < b < out@.len() implies #[trigger] out@[a].0
                < #[trigger] out@[b].0 by {
                assert(ticks@[a] < ticks@[b]);
            }
            assert forall|k: int| 0 <= k < out@.len() - 1 implies #[trigger] out@[k + 1].1 == out@[k].1 + 1 by {
                let a = out@[k].0;
                let b = out@[k + 1].0;
                assert(a < b);
                assert(self.spec_is_bar_start(b));
                assert forall|t: u64| a < t <= (b - 1) as u64 implies !#[trigger] self.spec_is_bar_start(t) by {
                    if self.spec_is_bar_start(t) {
                        let j = choose|j: int| 0 <= j < out@.len() && out@[j].0 == t;
                        if j <= k {
                            if j < k {
                                assert(out@[j].0 < out@[k].0);
                            }
                        } else if j >= k + 1 {
                            if j > k + 1 {
                                assert(out@[k + 1].0 < out@[j].0);
                            }
                        }
                    }
                }
                Self::lemma_bar_holds(self, a, (b - 1) as u64);
                Self::law_bar_number_steps_at_bar_lines(self, b);
            }
        }
        out
    }

    /// The tick each *beat* of the meter starts on within `[from, to)`,
    /// with its position, in increasing order — for the ruler's beat
    /// numbers. A beat cut short by a change is still listed at its own
    /// start.
    pub fn beat_starts(&self, from: u64, to: u64) -> (r: Vec<(u64, BarPosition)>)
        requires
            to <= usize::MAX as int + 1,
        ensures
            forall|a: int, b: int| 0 <= a < b < r@.len() ==> #[trigger] r@[a].0 < #[trigger] r@[b].0,
            forall|k: int|
                0 <= k < r@.len() ==> from <= #[trigger] r@[k].0 < to && self.spec_is_beat_start(r@[k].0)
                    && r@[k].1 == self.spec_position(r@[k].0),
            forall|t: u64|
                from <= t < to && #[trigger] self.spec_is_beat_start(t) ==> exists|k: int|
                    0 <= k < r@.len() && r@[k].0 == t,
    {
        let ticks = self.grid_ticks(from, to, true);
        let mut out: Vec<(u64, BarPosition)> = Vec::new();
        let mut k: usize = 0;
        while k < ticks.len()
            invariant
                k <= ticks@.len(),
                out@.len() == k,
                to <= usize::MAX as int + 1,
                forall|a: int| 0 <= a < ticks@.len() ==> from <= #[trigger] ticks@[a] < to,
                forall|a: int| 0 <= a < k ==> #[trigger] out@[a] == (ticks@[a], self.spec_position(ticks@[a])),
            decreases ticks@.len() - k,
        {
            let t = ticks[k];
            let p = self.position(t);
            out.push((t, p));
            k = k + 1;
        }
        proof {
            assert forall|t: u64| from <= t < to && #[trigger] self.spec_is_beat_start(t) implies exists|k: int|
                0 <= k < out@.len() && out@[k].0 == t by {
                assert(self.on_grid(t, true));
                assert(ticks@.contains(t));
                let k = choose|k: int| 0 <= k < ticks@.len() && ticks@[k] == t;
                assert(out@[k].0 == t);
            }
            assert forall|k: int| 0 <= k < out@.len() implies from <= #[trigger] out@[k].0 < to
                && self.spec_is_beat_start(out@[k].0) && out@[k].1 == self.spec_position(out@[k].0) by {
                assert(self.on_grid(ticks@[k], true));
            }
            assert forall|a: int, b: int| 0 <= a < b < out@.len() implies #[trigger] out@[a].0
                < #[trigger] out@[b].0 by {
                assert(ticks@[a] < ticks@[b]);
            }
        }
        out
    }
}

impl MeterMap {
    /// Tick 0 is the first beat of bar 0.
    pub proof fn law_starts_on_bar_zero(map: &MeterMap)
        requires
            segments_wf(map@),
        ensures
            map.spec_is_bar_start(0),
            map.spec_position(0).bar == 0,
            map.spec_position(0).beat == 0,
            map.spec_position(0).tick_in_beat == 0,
    {
        map.lemma_covering_segment(0);
        let i = map.segment_index(0);
        assert(covers(map@, 0, 0));
        assert(i == 0);
        assert(map@[0].ticks_per_beat > 0);
        lemma_fundamental_div_mod_converse(0, map@[0].ticks_per_bar as int, 0, 0);
        lemma_fundamental_div_mod_converse(0, map@[0].ticks_per_beat as int, 0, 0);
    }

    /// Every meter change starts a fresh bar, numbered on from the bars
    /// before it, on its first beat and in its own meter.
    pub proof fn law_change_starts_a_bar(map: &MeterMap, i: int)
        requires
            segments_wf(map@),
            0 <= i < map@.len(),
            map@[i].start_tick <= usize::MAX,
        ensures
            map.spec_is_bar_start(map@[i].start_tick),
            map.spec_position(map@[i].start_tick).bar == map@[i].first_bar,
            map.spec_position(map@[i].start_tick).beat == 0,
            map.spec_position(map@[i].start_tick).tick_in_beat == 0,
            map.spec_position(map@[i].start_tick).meter == map@[i].meter,
    {
        let t = map@[i].start_tick;
        map.lemma_covering_segment(t);
        assert(covers(map@, i, t as int));
        assert(map@[i].ticks_per_beat > 0);
        lemma_fundamental_div_mod_converse(0, map@[i].ticks_per_bar as int, 0, 0);
        lemma_fundamental_div_mod_converse(0, map@[i].ticks_per_beat as int, 0, 0);
    }

    /// Bars are counted continuously across meter changes: moving one tick
    /// on, the bar number grows by one exactly when the new tick starts a
    /// bar, and otherwise stays the same — a bar cut short by a change
    /// still counts as one.
    pub proof fn law_bar_number_steps_at_bar_lines(map: &MeterMap, t: u64)
        requires
            segments_wf(map@),
            1 <= t <= usize::MAX,
        ensures
            map.spec_position(t).bar == map.spec_position((t - 1) as u64).bar + if map.spec_is_bar_start(
                t,
            ) {
                1int
            } else {
                0int
            },
    {
        let segs = map@;
        let u = (t - 1) as u64;
        map.lemma_covering_segment(t);
        map.lemma_covering_segment(u);
        let i = map.segment_index(t);
        let j = map.segment_index(u);
        let s = segs[i];
        assert(s.ticks_per_beat > 0);
        if u >= s.start_tick {
            assert(covers(segs, i, u as int));
            assert(j == i);
            let off = t - s.start_tick;
            lemma_div_step(off, s.ticks_per_bar as int);
            lemma_div_le(off, s.ticks_per_bar as int);
            lemma_div_le(off - 1, s.ticks_per_bar as int);
        } else {
            assert(t == s.start_tick);
            assert(i >= 1) by {
                if i == 0 {
                    assert(segs[0].start_tick == 0);
                }
            }
            let p = segs[i - 1];
            assert(p.start_tick < s.start_tick);
            assert(covers(segs, i - 1, u as int));
            assert(j == i - 1);
            assert(p.ticks_per_beat > 0);
            let span = s.start_tick - p.start_tick;
            assert(s.first_bar == p.first_bar + bars_in_span(span, p.ticks_per_bar as int));
            lemma_ceil_div_step(span, p.ticks_per_bar as int);
            lemma_div_le(span - 1, p.ticks_per_bar as int);
            lemma_fundamental_div_mod_converse(0, s.ticks_per_bar as int, 0, 0);
        }
    }
}

impl MeterMap {
    /// The bar number never goes back: a later tick is in the same bar as
    /// an earlier one or in a later bar.
    pub proof fn law_bar_never_decreases(map: &MeterMap, t1: u64, t2: u64)
        requires
            segments_wf(map@),
            t1 <= t2 <= usize::MAX,
        ensures
            map.spec_position(t1).bar <= map.spec_position(t2).bar,
        decreases t2 - t1,
    {
        if t1 < t2 {
            Self::law_bar_never_decreases(map, t1, (t2 - 1) as u64);
            Self::law_bar_number_steps_at_bar_lines(map, t2);
        }
    }

    /// With no bar line after `t1` up to `t2`, both ticks are in one bar.
    pub proof fn lemma_bar_holds(map: &MeterMap, t1: u64, t2: u64)
        requires
            segments_wf(map@),
            t1 <= t2 <= usize::MAX,
            forall|t: u64| t1 < t <= t2 ==> !#[trigger] map.spec_is_bar_start(t),
        ensures
            map.spec_position(t2).bar == map.spec_position(t1).bar,
        decreases t2 - t1,
    {
        if t1 < t2 {
            Self::lemma_bar_holds(map, t1, (t2 - 1) as u64);
            Self::law_bar_number_steps_at_bar_lines(map, t2);
        }
    }

    /// Where every meter's bar is a whole number of its beats, every bar
    /// line is also a beat, and a beat starts exactly where a tick sits at
    /// offset 0 into its beat.
    pub proof fn law_bar_lines_fall_on_beats(map: &MeterMap, t: u64)
        requires
            segments_wf(map@),
            forall|i: int|
                0 <= i < map@.len() ==> #[trigger] map@[i].ticks_per_bar % map@[i].ticks_per_beat == 0,
        ensures
            map.spec_is_bar_start(t) ==> map.spec_is_beat_start(t),
            map.spec_is_beat_start(t) <==> map.spec_position(t).tick_in_beat == 0,
    {
        map.lemma_covering_segment(t);
        let i = map.segment_index(t);
        let sg = map@[i];
        assert(sg.ticks_per_beat > 0);
        let beat = sg.ticks_per_beat as int;
        let bar = sg.ticks_per_bar as int;
        let off = t - sg.start_tick;
        assert(off >= 0);
        lemma_fundamental_div_mod(bar, beat);
        let m = bar / beat;
        assert(bar == beat * m);
        assert(m > 0) by (nonlinear_arith)
            requires
                bar == beat * m,
                bar > 0,
                beat > 0,
        ;
        vstd::arithmetic::div_mod::lemma_mod_mod(off, beat, m);
        lemma_div_le(off, bar);
        lemma_div_le(off % bar, beat);
        if off % bar == 0 {
            lemma_fundamental_div_mod_converse(0, beat, 0, 0);
        }
    }
}

/// Each segment's first bar follows from the one before it.
spec fn segments_prefix_links(segs: Seq<MeterSegment>) -> bool {
    forall|a: int|
        0 <= a < segs.len() - 1 ==> #[trigger] segs[a + 1].first_bar == segs[a].first_bar
            + bars_in_span(segs[a + 1].start_tick - segs[a].start_tick, segs[a].ticks_per_bar as int)
}

/// Segment `i` is in force at `tick` when only the first `n` segments
/// are considered.
spec fn covers_prefix(segs: Seq<MeterSegment>, i: int, tick: int, n: int) -> bool {
    0 <= i < n && segs[i].start_tick <= tick && (i + 1 < n ==> tick < segs[i + 1].start_tick)
}

/// Among the first `n` segments one is in force at `tick` when only those
/// are considered.
proof fn lemma_cover_exists(segs: Seq<MeterSegment>, tick: int, n: int)
    requires
        segments_wf(segs),
        1 <= n <= segs.len(),
        tick >= 0,
    ensures
        n == segs.len() ==> exists|i: int| covers(segs, i, tick),
        exists|i: int| covers_prefix(segs, i, tick, n),
    decreases n,
{
    if n == 1 {
        assert(covers_prefix(segs, 0, tick, n));
    } else {
        let m = n - 1;
        lemma_cover_exists(segs, tick, m);
        let i = choose|i: int| covers_prefix(segs, i, tick, m);
        if segs[n - 1].start_tick <= tick {
            assert(covers_prefix(segs, n - 1, tick, n));
        } else {
            assert(covers_prefix(segs, i, tick, n));
        }
    }
    if n == segs.len() {
        let i = choose|i: int| covers_prefix(segs, i, tick, n);
        assert(covers(segs, i, tick));
    }
}

} // verus!
