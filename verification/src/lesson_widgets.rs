//! The rules behind a lesson's interactive widgets: the metronome's click
//! patterns and tempo ladder, and the stepping of the 12-bar grid and the
//! form map.
use vstd::prelude::*;
use vstd::arithmetic::div_mod::{lemma_fundamental_div_mod, lemma_fundamental_div_mod_converse};

verus! {

/// How a metronome subdivides its beat.
#[derive(Clone, Copy, PartialEq, Eq, Structural, Debug)]
pub enum MetronomeFeel {
    Straight,
    Shuffle,
}

/// The click patterns a lesson's metronome offers.
#[derive(Clone, Copy, PartialEq, Eq, Structural, Debug)]
pub enum LessonMetronomePattern {
    Straight,
    Shuffle,
    Triplet,
}

impl LessonMetronomePattern {
    /// The metronome clock's feel: a straight pattern ticks once a beat,
    /// shuffle and triplet three times.
    pub fn clock_feel(self) -> (f: MetronomeFeel)
        ensures
            f == if self == LessonMetronomePattern::Straight {
                MetronomeFeel::Straight
            } else {
                MetronomeFeel::Shuffle
            },
    {
        match self {
            LessonMetronomePattern::Straight => MetronomeFeel::Straight,
            LessonMetronomePattern::Shuffle | LessonMetronomePattern::Triplet => MetronomeFeel::Shuffle,
        }
    }

    /// The next pattern in cycle order, for a single cycling button.
    pub fn next(self) -> (p: LessonMetronomePattern)
        ensures
            p == match self {
                LessonMetronomePattern::Straight => LessonMetronomePattern::Shuffle,
                LessonMetronomePattern::Shuffle => LessonMetronomePattern::Triplet,
                LessonMetronomePattern::Triplet => LessonMetronomePattern::Straight,
            },
    {
        match self {
            LessonMetronomePattern::Straight => LessonMetronomePattern::Shuffle,
            LessonMetronomePattern::Shuffle => LessonMetronomePattern::Triplet,
            LessonMetronomePattern::Triplet => LessonMetronomePattern::Straight,
        }
    }

    /// Clock ticks per beat under this pattern.
    pub open spec fn spec_ticks_per_beat(self) -> int {
        if self == LessonMetronomePattern::Straight {
            1
        } else {
            3
        }
    }

    /// Clock ticks per beat under this pattern.
    pub fn ticks_per_beat(self) -> (t: i64)
        ensures
            t == self.spec_ticks_per_beat(),
    {
        match self {
            LessonMetronomePattern::Straight => 1,
            LessonMetronomePattern::Shuffle | LessonMetronomePattern::Triplet => 3,
        }
    }
}

/// Cycling the pattern three times comes back to where it started, through
/// every pattern on the way.
pub proof fn law_patterns_cycle(p: LessonMetronomePattern)
    ensures
        ({
            let n1 = match p {
                LessonMetronomePattern::Straight => LessonMetronomePattern::Shuffle,
                LessonMetronomePattern::Shuffle => LessonMetronomePattern::Triplet,
                LessonMetronomePattern::Triplet => LessonMetronomePattern::Straight,
            };
            let n2 = match n1 {
                LessonMetronomePattern::Straight => LessonMetronomePattern::Shuffle,
                LessonMetronomePattern::Shuffle => LessonMetronomePattern::Triplet,
                LessonMetronomePattern::Triplet => LessonMetronomePattern::Straight,
            };
            let n3 = match n2 {
                LessonMetronomePattern::Straight => LessonMetronomePattern::Shuffle,
                LessonMetronomePattern::Shuffle => LessonMetronomePattern::Triplet,
                LessonMetronomePattern::Triplet => LessonMetronomePattern::Straight,
            };
            &&& n3 == p
            &&& n1 != p && n2 != p && n1 != n2
        }),
{
}

/// `n` raised to at least one.
pub open spec fn at_least_one(n: int) -> int {
    if n >= 1 {
        n
    } else {
        1
    }
}

/// Clock ticks between two tempo steps: the steps come every
/// `bars_per_step` bars of `beats_per_bar` beats (each at least one).
pub open spec fn ticks_per_step(beats_per_bar: int, bars_per_step: int, pattern: LessonMetronomePattern) -> int {
    at_least_one(beats_per_bar) * at_least_one(bars_per_step) * pattern.spec_ticks_per_beat()
}

/// The next tempo of a stepped tempo ladder, due at clock tick `tick`:
/// `tempo_steps[step]` on every step boundary after the first tick, none
/// in between or once the ladder is climbed.
pub fn scheduled_tempo<T: Copy>(
    tick: i64,
    beats_per_bar: usize,
    bars_per_step: usize,
    pattern: LessonMetronomePattern,
    step: usize,
    tempo_steps: &[T],
) -> (r: Option<T>)
    requires
        ticks_per_step(beats_per_bar as int, bars_per_step as int, pattern) <= i64::MAX,
    ensures
        r == if tick > 0 && tick as int % ticks_per_step(beats_per_bar as int, bars_per_step as int, pattern) == 0
            && step < tempo_steps@.len() {
            Some(tempo_steps@[step as int])
        } else {
            None
        },
{
    let bpb: usize = if beats_per_bar >= 1 { beats_per_bar } else { 1 };
    let bps: usize = if bars_per_step >= 1 { bars_per_step } else { 1 };
    let tpb = pattern.ticks_per_beat();
    proof {
        let prod = bpb * bps * tpb;
        assert(prod == ticks_per_step(beats_per_bar as int, bars_per_step as int, pattern));
        assert(bpb * bps <= prod) by (nonlinear_arith)
            requires
                tpb >= 1,
                bpb >= 1,
                bps >= 1,
                prod == bpb * bps * tpb,
        ;
        assert(bpb <= bpb * bps && bps <= bpb * bps) by (nonlinear_arith)
            requires
                bps >= 1,
                bpb >= 1,
        ;
    }
    let per_step: i64 = (bpb as i64) * (bps as i64) * tpb;
    if tick > 0 && tick % per_step == 0 && step < tempo_steps.len() {
        Some(tempo_steps[step])
    } else {
        None
    }
}

/// `x` modulo `m`, never negative.
pub open spec fn wrap(x: int, m: int) -> int {
    x % m
}

/// `x` modulo `m` (positive), never negative.
fn rem_euclid(x: i64, m: i64) -> (r: i64)
    requires
        m > 0,
    ensures
        r == wrap(x as int, m as int),
        0 <= r < m,
{
    if x >= 0 {
        let r = ((x as u64) % (m as u64)) as i64;
        proof {
            lemma_fundamental_div_mod(x as int, m as int);
        }
        r
    } else {
        // x = -(a + 1), so x mod m = m - 1 - (a mod m).
        let a: u64 = (-(x + 1)) as u64;
        let ra: u64 = a % (m as u64);
        let r: i64 = m - 1 - (ra as i64);
        proof {
            lemma_fundamental_div_mod(a as int, m as int);
            let q = a as int / m as int;
            assert(x == m * (-(q + 1)) + r) by (nonlinear_arith)
                requires
                    x == -(a + 1),
                    a == m * q + ra,
                    r == m - 1 - ra,
            ;
            lemma_fundamental_div_mod_converse(x as int, m as int, -(q + 1), r as int);
        }
        r
    }
}

/// The 12-bar grid's bar after stepping `delta` bars from `current`,
/// wrapping round the form both ways.
pub fn stepped_bar(current: usize, delta: i32) -> (b: usize)
    requires
        i32::MIN <= (current as i32) + delta <= i32::MAX,
    ensures
        b == wrap((current as i32) + delta, 12),
        b < 12,
{
    let moved: i32 = (current as i32) + delta;
    rem_euclid(moved as i64, 12) as usize
}

/// The section after stepping `delta` sections from `current` in a cycle
/// of `count` sections (a form map's sections, a phrase strip's cells),
/// wrapping both ways; 0 for an empty cycle.
pub fn stepped_section(current: usize, delta: i32, count: usize) -> (s: usize)
    requires
        count <= i32::MAX,
        count == 0 || i32::MIN <= (current as i32) + delta <= i32::MAX,
    ensures
        s == if count == 0 {
            0
        } else {
            wrap((current as i32) + delta, count as int)
        },
        count > 0 ==> s < count,
{
    if count == 0 {
        return 0;
    }
    let moved: i32 = (current as i32) + delta;
    rem_euclid(moved as i64, count as i64) as usize
}

} // verus!
