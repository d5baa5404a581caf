//! The call-phrase generator: a short harmonica phrase built from small
//! musical decisions — a rhythm cell per bar (rests, pickups, syncopation,
//! held and repeated notes), a two-to-four-note motif in a limited range,
//! and an answering bar that repeats the motif or sequences it up or down —
//! rather than one chord tone per beat. Every pitch is drawn from what the
//! player's own harp can produce with a plain blow or draw, consecutive
//! notes of a bar stay within a playable hole/breath move of each other, a
//! note outside the chord always resolves to a chord tone next, the phrase
//! ends on a chord tone, and the last bar leaves audible space before the
//! player's turn.
//!
//! Pure: harmony + harp + density + seed in, notes on the
//! [`TICKS_PER_BEAT`] grid out.
use vstd::prelude::*;

use crate::harmony::{fit, spec_fit, NoteFit, PitchClassSet};

verus! {

/// Ticks in one beat of the call grid.
pub const TICKS_PER_BEAT: usize = 12;
/// Eighth-note slots per 4/4 bar — the grid every rhythm cell is written on.
pub const SLOTS_PER_BAR: u8 = 8;
/// Ticks in one 4/4 bar of the call grid.
pub const TICKS_PER_BAR: usize = 4 * TICKS_PER_BEAT;
/// A held note: three eighths or longer. Gets breath (vibrato) when rendered.
pub const HELD_SLOTS: u8 = 3;
/// Widest a motif may reach from its anchor, in semitones — a fifth.
pub const MOTIF_RANGE: i32 = 7;
/// How far an "answer up"/"answer down" aims its new anchor, in semitones.
pub const ANSWER_SHIFT: i32 = 4;
/// Ticks shaved off every note so a repeated pitch re-articulates.
pub const NOTE_GAP_TICKS: usize = 1;
/// Bars in one call: an opening bar and an answering bar.
pub const CALL_BARS: usize = 2;
/// The last eighth slot an ending cell may reach (exclusive): the phrase
/// is over by beat 3 of its last bar.
pub const ENDING_LAST_SLOT: u8 = 4;

/// How dense the generated calls are. Musical density only — never a
/// level, never a score.
#[derive(Clone, Copy, PartialEq, Eq, Structural, Debug)]
pub enum CallDensity {
    Sparse,
    Conversational,
    Busy,
}

impl Default for CallDensity {
    fn default() -> (d: CallDensity)
        ensures
            d == CallDensity::Conversational,
    {
        CallDensity::Conversational
    }
}

impl CallDensity {
    /// The next density in cycle order, for a single cycling button.
    pub fn next(self) -> (d: CallDensity)
        ensures
            d == match self {
                CallDensity::Sparse => CallDensity::Conversational,
                CallDensity::Conversational => CallDensity::Busy,
                CallDensity::Busy => CallDensity::Sparse,
            },
    {
        match self {
            CallDensity::Sparse => CallDensity::Conversational,
            CallDensity::Conversational => CallDensity::Busy,
            CallDensity::Busy => CallDensity::Sparse,
        }
    }
}

/// One pitch the player's harp can sound with a plain blow or draw.
#[derive(Clone, Copy, PartialEq, Eq, Structural, Debug)]
pub struct PlayableNote {
    pub midi: u8,
    pub hole: u8,
    pub blow: bool,
}

/// One note of a generated call, on the [`TICKS_PER_BEAT`] grid from the
/// start of the call. `held` marks a note long enough to want breath.
#[derive(Clone, Copy, PartialEq, Eq, Structural, Debug)]
pub struct CallNote {
    pub tick: usize,
    pub len: usize,
    pub note: PlayableNote,
    pub held: bool,
}

/// The opening cells (first bar) of each density: `(first eighth slot,
/// length in eighths)` per note. Each density has rests and a pickup.
pub open spec fn spec_openings(density: CallDensity) -> Seq<Seq<(u8, u8)>> {
    match density {
        CallDensity::Sparse => seq![
            seq![(0u8, 2u8), (4, 3)],
            seq![(2u8, 2u8), (6, 2)],
            seq![(0u8, 3u8)],
            seq![(1u8, 1u8), (2, 4)],
            seq![(3u8, 1u8), (4, 3)],
        ],
        CallDensity::Conversational => seq![
            seq![(0u8, 1u8), (1, 1), (2, 3), (6, 2)],
            seq![(0u8, 3u8), (3, 1), (4, 1), (6, 2)],
            seq![(1u8, 1u8), (2, 1), (3, 1), (4, 2)],
            seq![(0u8, 1u8), (2, 1), (4, 1), (6, 2)],
            seq![(2u8, 1u8), (3, 1), (4, 2), (7, 1)],
        ],
        CallDensity::Busy => seq![
            seq![(0u8, 1u8), (1, 1), (2, 1), (3, 1), (4, 2), (6, 1), (7, 1)],
            seq![(0u8, 1u8), (1, 1), (2, 1), (4, 1), (5, 1), (6, 2)],
            seq![(1u8, 1u8), (2, 1), (3, 1), (5, 1), (6, 1), (7, 1)],
            seq![(0u8, 1u8), (1, 1), (3, 1), (4, 1), (5, 1), (6, 2)],
        ],
    }
}

/// The ending cells (last bar) of each density. Every one finishes by
/// [`ENDING_LAST_SLOT`]; sparse includes an empty cell.
pub open spec fn spec_endings(density: CallDensity) -> Seq<Seq<(u8, u8)>> {
    match density {
        CallDensity::Sparse => seq![seq![(0u8, 4u8)], seq![(0u8, 2u8)], seq![(1u8, 3u8)], seq![]],
        CallDensity::Conversational => seq![
            seq![(0u8, 1u8), (1, 1), (2, 2)],
            seq![(0u8, 2u8), (2, 2)],
            seq![(1u8, 1u8), (2, 2)],
            seq![(0u8, 1u8), (2, 2)],
        ],
        CallDensity::Busy => seq![
            seq![(0u8, 1u8), (1, 1), (2, 1), (3, 1)],
            seq![(0u8, 1u8), (1, 1), (2, 2)],
            seq![(0u8, 1u8), (1, 1), (3, 1)],
        ],
    }
}

/// Entry `k` of a cell ends by the time entry `k + 1` starts.
pub open spec fn ends_before_next_entry(cell: Seq<(u8, u8)>, k: int) -> bool {
    cell[k].0 + cell[k].1 <= cell[k + 1].0
}

/// A cell whose notes each last at least one slot, follow one another
/// without overlapping, and end by slot `last_slot`.
pub open spec fn cell_fits(cell: Seq<(u8, u8)>, last_slot: int) -> bool {
    &&& forall|k: int| 0 <= k < cell.len() ==> #[trigger] cell[k].1 >= 1
    &&& forall|k: int| 0 <= k < cell.len() - 1 ==> #[trigger] ends_before_next_entry(cell, k)
    &&& cell.len() > 0 ==> cell.last().0 + cell.last().1 <= last_slot
}

/// Every opening cell is non-empty and fits its bar; every ending cell
/// leaves the last two beats of its bar free.
pub proof fn lemma_cells_fit(density: CallDensity)
    ensures
        spec_openings(density).len() >= 1,
        spec_endings(density).len() >= 1,
        forall|i: int|
            0 <= i < spec_openings(density).len() ==> #[trigger] spec_openings(density)[i].len() >= 1
                && cell_fits(spec_openings(density)[i], SLOTS_PER_BAR as int),
        forall|i: int|
            0 <= i < spec_endings(density).len() ==> #[trigger] cell_fits(
                spec_endings(density)[i],
                ENDING_LAST_SLOT as int,
            ),
{
    let o = spec_openings(density);
    let e = spec_endings(density);
    assert forall|i: int| 0 <= i < o.len() implies #[trigger] o[i].len() >= 1 && cell_fits(
        o[i],
        SLOTS_PER_BAR as int,
    ) by {
        let c = o[i];
        assert forall|k: int| 0 <= k < c.len() - 1 implies #[trigger] ends_before_next_entry(c, k) by {}
    }
    assert forall|i: int| 0 <= i < e.len() implies #[trigger] cell_fits(e[i], ENDING_LAST_SLOT as int) by {
        let c = e[i];
        assert forall|k: int| 0 <= k < c.len() - 1 implies #[trigger] ends_before_next_entry(c, k) by {}
    }
}

/// The opening cells of `density`, one per rhythm the first bar may take.
pub fn openings(density: CallDensity) -> (cells: Vec<Vec<(u8, u8)>>)
    ensures
        cells@.len() == spec_openings(density).len(),
        forall|i: int| 0 <= i < cells@.len() ==> #[trigger] cells@[i]@ == spec_openings(density)[i],
{
    let cells = match density {
        CallDensity::Sparse => vec![
            vec![(0u8, 2u8), (4, 3)],
            vec![(2u8, 2u8), (6, 2)],
            vec![(0u8, 3u8)],
            vec![(1u8, 1u8), (2, 4)],
            vec![(3u8, 1u8), (4, 3)],
        ],
        CallDensity::Conversational => vec![
            vec![(0u8, 1u8), (1, 1), (2, 3), (6, 2)],
            vec![(0u8, 3u8), (3, 1), (4, 1), (6, 2)],
            vec![(1u8, 1u8), (2, 1), (3, 1), (4, 2)],
            vec![(0u8, 1u8), (2, 1), (4, 1), (6, 2)],
            vec![(2u8, 1u8), (3, 1), (4, 2), (7, 1)],
        ],
        CallDensity::Busy => vec![
            vec![(0u8, 1u8), (1, 1), (2, 1), (3, 1), (4, 2), (6, 1), (7, 1)],
            vec![(0u8, 1u8), (1, 1), (2, 1), (4, 1), (5, 1), (6, 2)],
            vec![(1u8, 1u8), (2, 1), (3, 1), (5, 1), (6, 1), (7, 1)],
            vec![(0u8, 1u8), (1, 1), (3, 1), (4, 1), (5, 1), (6, 2)],
        ],
    };
    assert(cells@.len() == spec_openings(density).len());
    assert forall|i: int| 0 <= i < cells@.len() implies #[trigger] cells@[i]@ == spec_openings(density)[i] by {
        assert(cells@[i]@ =~= spec_openings(density)[i]);
    }
    cells
}

/// The ending cells of `density`, one per rhythm the last bar may take.
pub fn endings(density: CallDensity) -> (cells: Vec<Vec<(u8, u8)>>)
    ensures
        cells@.len() == spec_endings(density).len(),
        forall|i: int| 0 <= i < cells@.len() ==> #[trigger] cells@[i]@ == spec_endings(density)[i],
{
    let cells = match density {
        CallDensity::Sparse => vec![vec![(0u8, 4u8)], vec![(0u8, 2u8)], vec![(1u8, 3u8)], vec![]],
        CallDensity::Conversational => vec![
            vec![(0u8, 1u8), (1, 1), (2, 2)],
            vec![(0u8, 2u8), (2, 2)],
            vec![(1u8, 1u8), (2, 2)],
            vec![(0u8, 1u8), (2, 2)],
        ],
        CallDensity::Busy => vec![
            vec![(0u8, 1u8), (1, 1), (2, 1), (3, 1)],
            vec![(0u8, 1u8), (1, 1), (2, 2)],
            vec![(0u8, 1u8), (1, 1), (3, 1)],
        ],
    };
    assert(cells@.len() == spec_endings(density).len());
    assert forall|i: int| 0 <= i < cells@.len() implies #[trigger] cells@[i]@ == spec_endings(density)[i] by {
        assert(cells@[i]@ =~= spec_endings(density)[i]);
    }
    cells
}

/// The eighth-slot grid in ticks. A swung bar splits each beat 2:1 (long
/// eighth on the beat), a straight one evenly.
pub open spec fn spec_slot_tick(slot: int, swung: bool) -> int {
    (slot / 2) * (TICKS_PER_BEAT as int) + if slot % 2 == 1 {
        if swung {
            (TICKS_PER_BEAT as int) * 2 / 3
        } else {
            (TICKS_PER_BEAT as int) / 2
        }
    } else {
        0int
    }
}

/// The tick eighth slot `slot` of a bar starts on.
pub fn slot_tick(slot: u8, swung: bool) -> (t: usize)
    requires
        slot <= SLOTS_PER_BAR,
    ensures
        t == spec_slot_tick(slot as int, swung),
        t <= TICKS_PER_BAR,
{
    let beat: usize = (slot / 2) as usize;
    let off: usize = if slot % 2 == 1 {
        if swung {
            TICKS_PER_BEAT * 2 / 3
        } else {
            TICKS_PER_BEAT / 2
        }
    } else {
        0
    };
    beat * TICKS_PER_BEAT + off
}

/// A later slot starts later: the grid never runs backwards.
pub proof fn lemma_slot_tick_increases(a: int, b: int, swung: bool)
    requires
        0 <= a < b <= SLOTS_PER_BAR,
    ensures
        spec_slot_tick(a, swung) < spec_slot_tick(b, swung),
        spec_slot_tick(a, swung) + 4 <= spec_slot_tick(b, swung),
        0 <= spec_slot_tick(a, swung),
        spec_slot_tick(b, swung) <= TICKS_PER_BAR,
{
}

/// Ticks of one cell entry: its start, and its length minus the
/// articulation gap (never below one tick).
pub open spec fn spec_slot_span(slot: int, len: int, swung: bool) -> (int, int) {
    let start = spec_slot_tick(slot, swung);
    let end = spec_slot_tick(slot + len, swung);
    let gap = if end - start >= NOTE_GAP_TICKS { end - start - NOTE_GAP_TICKS } else { 0int };
    (start, if gap >= 1 { gap } else { 1int })
}

/// The ticks of one cell entry, minus the articulation gap.
pub fn slot_span(slot: u8, len: u8, swung: bool) -> (r: (usize, usize))
    requires
        slot as int + len as int <= SLOTS_PER_BAR,
    ensures
        r.0 as int == spec_slot_span(slot as int, len as int, swung).0,
        r.1 as int == spec_slot_span(slot as int, len as int, swung).1,
        r.0 <= TICKS_PER_BAR,
{
    let start = slot_tick(slot, swung);
    let end = slot_tick(slot + len, swung);
    proof {
        if len > 0 {
            lemma_slot_tick_increases(slot as int, slot + len, swung);
        }
    }
    let gap = (end - start).saturating_sub(NOTE_GAP_TICKS);
    (start, if gap >= 1 { gap } else { 1 })
}

/// A laid-out note is held — breathed out, given vibrato — exactly when
/// its cell entry lasts three eighths or more: a quarter note or anything
/// shorter never is. Each note sings its own pitch, in order.
pub proof fn law_only_notes_of_three_eighths_or_more_are_held(
    cell: Seq<(u8, u8)>,
    pitches: Seq<PlayableNote>,
    bar: int,
    swung: bool,
    k: int,
)
    requires
        0 <= k < spec_laid_out(cell, pitches, bar, swung).len(),
    ensures
        spec_laid_out(cell, pitches, bar, swung)[k].held <==> cell[k].1 >= 3,
        spec_laid_out(cell, pitches, bar, swung)[k].note == pitches[k],
        k < cell.len() && k < pitches.len(),
{
}

/// The notes `pitches` laid onto `cell` in bar `bar`, one per entry,
/// stopping at the shorter of the two.
pub open spec fn spec_laid_out(
    cell: Seq<(u8, u8)>,
    pitches: Seq<PlayableNote>,
    bar: int,
    swung: bool,
) -> Seq<CallNote> {
    let n = if cell.len() <= pitches.len() { cell.len() } else { pitches.len() };
    Seq::new(
        n,
        |k: int|
            CallNote {
                tick: (bar * TICKS_PER_BAR + spec_slot_span(cell[k].0 as int, cell[k].1 as int, swung).0) as usize,
                len: spec_slot_span(cell[k].0 as int, cell[k].1 as int, swung).1 as usize,
                note: pitches[k],
                held: cell[k].1 >= HELD_SLOTS,
            },
    )
}

/// Lays `pitches` onto `cell` in bar `bar`, one per entry.
pub fn lay_out(cell: &[(u8, u8)], pitches: &[PlayableNote], bar: usize, swung: bool) -> (notes: Vec<CallNote>)
    requires
        bar < CALL_BARS,
        forall|k: int| 0 <= k < cell@.len() ==> #[trigger] cell@[k].0 + cell@[k].1 <= SLOTS_PER_BAR,
    ensures
        notes@ == spec_laid_out(cell@, pitches@, bar as int, swung),
{
    let n = if cell.len() <= pitches.len() { cell.len() } else { pitches.len() };
    let mut notes: Vec<CallNote> = Vec::new();
    let mut k: usize = 0;
    while k < n
        invariant
            k <= n,
            n == if cell@.len() <= pitches@.len() { cell@.len() } else { pitches@.len() },
            bar < CALL_BARS,
            forall|j: int| 0 <= j < cell@.len() ==> #[trigger] cell@[j].0 + cell@[j].1 <= SLOTS_PER_BAR,
            notes@ =~= spec_laid_out(cell@, pitches@, bar as int, swung).subrange(0, k as int),
        decreases n - k,
    {
        let (slot, len) = cell[k];
        let (start, ticks) = slot_span(slot, len, swung);
        assert(bar * TICKS_PER_BAR <= TICKS_PER_BAR) by (nonlinear_arith)
            requires
                bar < CALL_BARS,
                CALL_BARS == 2,
                TICKS_PER_BAR == 48,
        ;
        notes.push(CallNote { tick: bar * TICKS_PER_BAR + start, len: ticks, note: pitches[k], held: len >= HELD_SLOTS });
        k = k + 1;
    }
    notes
}

/// Whether a harmonica player can move from `a` to `b` cleanly inside a
/// phrase: at most two holes apart, and a breath-direction change only on
/// the same or an adjacent hole.
pub open spec fn spec_transition_ok(a: PlayableNote, b: PlayableNote) -> bool {
    let d = if a.hole >= b.hole { a.hole - b.hole } else { b.hole - a.hole };
    d <= 2 && (a.blow == b.blow || d <= 1)
}

/// Whether a harmonica player can move from `a` to `b` cleanly.
pub fn transition_ok(a: PlayableNote, b: PlayableNote) -> (r: bool)
    ensures
        r == spec_transition_ok(a, b),
{
    let d: u8 = if a.hole >= b.hole { a.hole - b.hole } else { b.hole - a.hole };
    d <= 2 && (a.blow == b.blow || d <= 1)
}

/// The increment SplitMix64 adds to its state each step.
pub const SPLITMIX_GAMMA: u64 = 0x9E37_79B9_7F4A_7C15;

/// SplitMix64's output for the state `z`.
pub open spec fn splitmix_output(z: u64) -> u64 {
    let a = (z ^ (z >> 30u64)).wrapping_mul(0xBF58_476D_1CE4_E5B9);
    let b = (a ^ (a >> 27u64)).wrapping_mul(0x94D0_49BB_1331_11EB);
    b ^ (b >> 31u64)
}

/// SplitMix64 — tiny, portable, and deterministic for a given seed: the
/// same jam bar, harp and seed yield the same call on every platform.
pub struct Rng(pub u64);

/// The sum of `weights[..n]`.
pub open spec fn weight_prefix(weights: Seq<u32>, n: int) -> int
    decreases n,
{
    if n <= 0 {
        0
    } else {
        weight_prefix(weights, n - 1) + weights[n - 1]
    }
}

/// The index a roll of `roll` picks from `weights[j..]`: the first whose
/// running total passes the roll, or the last one when none does.
pub open spec fn pick_by_weight(weights: Seq<u32>, roll: int, j: int) -> int
    decreases weights.len() - j,
{
    if j >= weights.len() {
        weights.len() - 1
    } else if roll < weights[j] {
        j
    } else {
        pick_by_weight(weights, roll - weights[j], j + 1)
    }
}

impl Rng {
    /// The state after one step from `state`.
    pub open spec fn stepped(state: u64) -> u64 {
        state.wrapping_add(SPLITMIX_GAMMA)
    }

    /// Advances the state and returns its SplitMix64 output.
    pub fn next(&mut self) -> (r: u64)
        ensures
            final(self).0 == Rng::stepped(old(self).0),
            r == splitmix_output(final(self).0),
    {
        self.0 = self.0.wrapping_add(SPLITMIX_GAMMA);
        let z: u64 = self.0;
        let a: u64 = (z ^ (z >> 30u64)).wrapping_mul(0xBF58_476D_1CE4_E5B9);
        let b: u64 = (a ^ (a >> 27u64)).wrapping_mul(0x94D0_49BB_1331_11EB);
        b ^ (b >> 31u64)
    }

    /// Uniform in `0..n`.
    pub fn below(&mut self, n: usize) -> (r: usize)
        requires
            n > 0,
        ensures
            final(self).0 == Rng::stepped(old(self).0),
            r as int == splitmix_output(final(self).0) as int % n as int,
            r < n,
    {
        let x = self.next();
        (x % (n as u64)) as usize
    }

    /// One item of a non-empty list, uniform.
    pub fn pick<'a, T>(&mut self, items: &'a [T]) -> (r: &'a T)
        requires
            items@.len() > 0,
        ensures
            final(self).0 == Rng::stepped(old(self).0),
            *r == items@[splitmix_output(final(self).0) as int % items@.len() as int],
    {
        let i = self.below(items.len());
        &items[i]
    }

    /// Picks an index with probability proportional to its weight: the
    /// first index whose running total of weights passes the roll.
    pub fn weighted(&mut self, weights: &[u32]) -> (r: usize)
        requires
            weights@.len() > 0,
            weight_prefix(weights@, weights@.len() as int) <= u32::MAX,
        ensures
            final(self).0 == Rng::stepped(old(self).0),
            r < weights@.len(),
            ({
                let total = weight_prefix(weights@, weights@.len() as int);
                let roll = splitmix_output(final(self).0) as int % (if total >= 1 { total } else { 1int });
                if total == 0 {
                    r == weights@.len() - 1
                } else {
                    weight_prefix(weights@, r as int) <= roll < weight_prefix(weights@, r + 1)
                }
            }),
            r == pick_by_weight(
                weights@,
                splitmix_output(final(self).0) as int % (if weight_prefix(weights@, weights@.len() as int) >= 1 {
                    weight_prefix(weights@, weights@.len() as int)
                } else {
                    1int
                }),
                0,
            ),
    {
        let ghost w = weights@;
        let mut total: u32 = 0;
        let mut i: usize = 0;
        while i < weights.len()
            invariant
                i <= w.len(),
                w == weights@,
                total == weight_prefix(w, i as int),
                weight_prefix(w, w.len() as int) <= u32::MAX,
            decreases w.len() - i,
        {
            proof {
                lemma_weight_prefix_monotone(w, i + 1, w.len() as int);
            }
            total = total + weights[i];
            i = i + 1;
        }
        let bound: usize = if total >= 1 { total as usize } else { 1 };
        let mut roll: u32 = self.below(bound) as u32;
        let ghost roll0 = roll as int;
        let mut j: usize = 0;
        while j < weights.len()
            invariant
                j <= w.len(),
                w == weights@,
                roll as int == roll0 - weight_prefix(w, j as int),
                roll0 < if total >= 1 { total as int } else { 1int },
                roll0 == splitmix_output(self.0) as int % (if total >= 1 { total as int } else { 1int }),
                self.0 == Rng::stepped(old(self).0),
                total == weight_prefix(w, w.len() as int),
                pick_by_weight(w, roll0, 0) == pick_by_weight(w, roll as int, j as int),
            decreases w.len() - j,
        {
            if roll < weights[j] {
                proof {
                    lemma_weight_prefix_monotone(w, j + 1, w.len() as int);
                }
                return j;
            }
            roll = roll - weights[j];
            j = j + 1;
        }
        weights.len() - 1
    }
}

/// Appending a weight adds it to the total.
proof fn lemma_weight_prefix_push(w: Seq<u32>, x: u32)
    ensures
        weight_prefix(w.push(x), w.len() + 1int) == weight_prefix(w, w.len() as int) + x,
{
    lemma_weight_prefix_prefix(w.push(x), w, w.len() as int);
}

/// The total of the first `n` weights depends only on those weights.
proof fn lemma_weight_prefix_prefix(a: Seq<u32>, b: Seq<u32>, n: int)
    requires
        0 <= n <= a.len(),
        n <= b.len(),
        forall|k: int| 0 <= k < n ==> a[k] == b[k],
    ensures
        weight_prefix(a, n) == weight_prefix(b, n),
    decreases n,
{
    if n > 0 {
        lemma_weight_prefix_prefix(a, b, n - 1);
    }
}

/// The running totals never shrink.
proof fn lemma_weight_prefix_monotone(w: Seq<u32>, a: int, b: int)
    requires
        0 <= a <= b <= w.len(),
    ensures
        weight_prefix(w, a) <= weight_prefix(w, b),
    decreases b - a,
{
    if a < b {
        lemma_weight_prefix_monotone(w, a, b - 1);
    }
}

/// Everything a call is generated from: the chord sounding in each of its
/// two bars, the jam's scale, the harp's whole blow/draw vocabulary, the
/// backing's feel, the density the player asked for, and the seed.
pub struct CallContext<'a> {
    pub playable: &'a [PlayableNote],
    pub opening_chord: &'a PitchClassSet,
    pub ending_chord: &'a PitchClassSet,
    pub scale: &'a PitchClassSet,
    pub swung: bool,
    pub density: CallDensity,
    pub seed: u64,
}

/// Whether `p` sounds a tone of `chord`.
pub open spec fn is_chord_tone(chord: Set<int>, p: PlayableNote) -> bool {
    chord.contains((p.midi as int) % 12)
}

/// Whether a chord tone of `chord` lies one playable move away from
/// `from` — what makes a non-chord note usable: it has somewhere to resolve.
pub open spec fn spec_can_resolve(playable: Seq<PlayableNote>, chord: Set<int>, from: PlayableNote) -> bool {
    exists|i: int|
        0 <= i < playable.len() && is_chord_tone(chord, #[trigger] playable[i]) && spec_transition_ok(
            from,
            playable[i],
        )
}

/// Whether `p` may be sung over `chord` at all: a chord tone always,
/// anything else only if a chord tone is within reach to resolve to.
pub open spec fn spec_usable(playable: Seq<PlayableNote>, chord: Set<int>, p: PlayableNote) -> bool {
    is_chord_tone(chord, p) || spec_can_resolve(playable, chord, p)
}

/// Whether a chord tone of `chord` lies one playable move from `from`.
pub fn can_resolve(ctx: &CallContext, chord_tones: &PitchClassSet, from: PlayableNote) -> (r: bool)
    ensures
        r == spec_can_resolve(ctx.playable@, chord_tones@, from),
{
    let mut i: usize = 0;
    while i < ctx.playable.len()
        invariant
            i <= ctx.playable@.len(),
            forall|j: int|
                0 <= j < i ==> !(is_chord_tone(chord_tones@, #[trigger] ctx.playable@[j])
                    && spec_transition_ok(from, ctx.playable@[j])),
        decreases ctx.playable@.len() - i,
    {
        let q = ctx.playable[i];
        if fit(q.midi, chord_tones, ctx.scale) == NoteFit::ChordTone && transition_ok(from, q) {
            return true;
        }
        i = i + 1;
    }
    false
}

/// Whether `p` may be sung over `chord_tones` at all.
pub fn usable(ctx: &CallContext, chord_tones: &PitchClassSet, p: PlayableNote) -> (r: bool)
    ensures
        r == spec_usable(ctx.playable@, chord_tones@, p),
{
    fit(p.midi, chord_tones, ctx.scale) == NoteFit::ChordTone || can_resolve(ctx, chord_tones, p)
}

/// A pitch `snap` may return: at least `min_fit` consonant, usable over
/// the chord, and reachable from `prev` when there is one.
pub open spec fn snap_candidate(
    ctx: &CallContext,
    chord: Set<int>,
    prev: Option<PlayableNote>,
    min_fit: NoteFit,
    p: PlayableNote,
) -> bool {
    &&& spec_fit(p.midi as int, chord, ctx.scale@).spec_rank() >= min_fit.spec_rank()
    &&& spec_usable(ctx.playable@, chord, p)
    &&& (prev matches Some(q) ==> spec_transition_ok(q, p))
}

/// How `snap` ranks a candidate, smallest first: distance from the target,
/// then the more consonant, then the one keeping the breath direction,
/// then the one nearest the previous hole, then the lower.
pub open spec fn snap_key(
    ctx: &CallContext,
    chord: Set<int>,
    target: int,
    prev: Option<PlayableNote>,
    p: PlayableNote,
) -> (int, int, int, int, int) {
    let dist = if p.midi as int >= target { p.midi as int - target } else { target - p.midi as int };
    let consonance = 2 - spec_fit(p.midi as int, chord, ctx.scale@).spec_rank();
    let (turns, reach) = match prev {
        Some(q) => (
            if q.blow != p.blow { 1int } else { 0int },
            if q.hole >= p.hole { q.hole - p.hole } else { p.hole - q.hole },
        ),
        None => (0int, 0int),
    };
    (dist, consonance, turns, reach, p.midi as int)
}

/// Lexicographic order on ranking keys.
pub open spec fn key_less(a: (int, int, int, int, int), b: (int, int, int, int, int)) -> bool {
    a.0 < b.0 || (a.0 == b.0 && (a.1 < b.1 || (a.1 == b.1 && (a.2 < b.2 || (a.2 == b.2 && (a.3 < b.3
        || (a.3 == b.3 && a.4 < b.4)))))))
}

/// What `snap` finds: `None` when no pitch qualifies, else the first
/// qualifying pitch of the vocabulary with the smallest ranking key.
pub open spec fn snap_result(
    ctx: &CallContext,
    chord: Set<int>,
    target: int,
    prev: Option<PlayableNote>,
    min_fit: NoteFit,
    r: Option<PlayableNote>,
) -> bool {
    let pl = ctx.playable@;
    match r {
        None => forall|j: int| 0 <= j < pl.len() ==> !snap_candidate(ctx, chord, prev, min_fit, #[trigger] pl[j]),
        Some(p) => exists|i: int|
            0 <= i < pl.len() && pl[i] == p && snap_candidate(ctx, chord, prev, min_fit, p) && (forall|j: int|
                0 <= j < pl.len() && snap_candidate(ctx, chord, prev, min_fit, #[trigger] pl[j]) ==> !key_less(
                    snap_key(ctx, chord, target, prev, pl[j]),
                    snap_key(ctx, chord, target, prev, p),
                )) && (forall|j: int|
                0 <= j < i && snap_candidate(ctx, chord, prev, min_fit, #[trigger] pl[j]) ==> key_less(
                    snap_key(ctx, chord, target, prev, p),
                    snap_key(ctx, chord, target, prev, pl[j]),
                )),
    }
}

/// The entry of `pl` that `snap` settles on scanning it in order: the
/// first qualifying pitch, replaced only by a later one with a strictly
/// smaller ranking key.
pub open spec fn snap_pick(
    ctx: &CallContext,
    chord: Set<int>,
    target: int,
    prev: Option<PlayableNote>,
    min_fit: NoteFit,
    pl: Seq<PlayableNote>,
) -> Option<PlayableNote>
    decreases pl.len(),
{
    if pl.len() == 0 {
        None
    } else {
        let best = snap_pick(ctx, chord, target, prev, min_fit, pl.drop_last());
        let p = pl.last();
        if !snap_candidate(ctx, chord, prev, min_fit, p) {
            best
        } else {
            match best {
                None => Some(p),
                Some(b) => if key_less(snap_key(ctx, chord, target, prev, p), snap_key(ctx, chord, target, prev, b)) {
                    Some(p)
                } else {
                    best
                },
            }
        }
    }
}

/// What `snap` returns for these arguments.
pub open spec fn spec_snap(
    ctx: &CallContext,
    chord: Set<int>,
    target: int,
    prev: Option<PlayableNote>,
    min_fit: NoteFit,
) -> Option<PlayableNote> {
    snap_pick(ctx, chord, target, prev, min_fit, ctx.playable@)
}

/// How many semitones apart two pitches are.
pub open spec fn semitones_apart(a: int, b: int) -> int {
    if a >= b {
        a - b
    } else {
        b - a
    }
}

/// What the scan settles on is a qualifying entry of the list that no
/// qualifying entry ranks strictly ahead of; nothing only when no entry
/// qualifies.
proof fn lemma_snap_pick_is_least(
    ctx: &CallContext,
    chord: Set<int>,
    target: int,
    prev: Option<PlayableNote>,
    min_fit: NoteFit,
    pl: Seq<PlayableNote>,
)
    ensures
        snap_pick(ctx, chord, target, prev, min_fit, pl) matches Some(p) ==> {
            &&& pl.contains(p)
            &&& snap_candidate(ctx, chord, prev, min_fit, p)
            &&& forall|j: int|
                0 <= j < pl.len() && snap_candidate(ctx, chord, prev, min_fit, #[trigger] pl[j]) ==> !key_less(
                    snap_key(ctx, chord, target, prev, pl[j]),
                    snap_key(ctx, chord, target, prev, p),
                )
        },
        snap_pick(ctx, chord, target, prev, min_fit, pl) is None ==> forall|j: int|
            0 <= j < pl.len() ==> !snap_candidate(ctx, chord, prev, min_fit, #[trigger] pl[j]),
    decreases pl.len(),
{
    if pl.len() > 0 {
        let rest = pl.drop_last();
        lemma_snap_pick_is_least(ctx, chord, target, prev, min_fit, rest);
        let n = pl.len() - 1;
        assert forall|j: int| 0 <= j < n implies #[trigger] pl[j] == rest[j] by {}
        match snap_pick(ctx, chord, target, prev, min_fit, rest) {
            Some(b) => {
                let i = choose|i: int| 0 <= i < rest.len() && rest[i] == b;
                assert(pl[i] == b);
            },
            None => {},
        }
        assert(pl[n] == pl.last());
    }
}

/// `snap` finds a pitch whenever one qualifies, and the one it finds is
/// the nearest to the target; among qualifying pitches equally near, it
/// is at least as consonant with the chord as any other — a chord tone
/// wins over a scale tone, a scale tone over an outside note.
pub proof fn law_snap_is_nearest_then_most_consonant(
    ctx: &CallContext,
    chord: Set<int>,
    target: int,
    prev: Option<PlayableNote>,
    min_fit: NoteFit,
    q: PlayableNote,
)
    requires
        ctx.playable@.contains(q),
        snap_candidate(ctx, chord, prev, min_fit, q),
    ensures
        spec_snap(ctx, chord, target, prev, min_fit) is Some,
        spec_snap(ctx, chord, target, prev, min_fit) matches Some(p) ==> {
            &&& semitones_apart(p.midi as int, target) <= semitones_apart(q.midi as int, target)
            &&& semitones_apart(p.midi as int, target) == semitones_apart(q.midi as int, target) ==> spec_fit(
                p.midi as int,
                chord,
                ctx.scale@,
            ).spec_rank() >= spec_fit(q.midi as int, chord, ctx.scale@).spec_rank()
        },
{
    let pl = ctx.playable@;
    lemma_snap_pick_is_least(ctx, chord, target, prev, min_fit, pl);
    let j = choose|j: int| 0 <= j < pl.len() && pl[j] == q;
    assert(snap_candidate(ctx, chord, prev, min_fit, pl[j]));
}

/// The ranking key of `p` for `snap`.
fn key_of(
    ctx: &CallContext,
    chord_tones: &PitchClassSet,
    target: i32,
    prev: Option<PlayableNote>,
    p: PlayableNote,
) -> (k: (i64, u8, u8, u8, u8))
    ensures
        (k.0 as int, k.1 as int, k.2 as int, k.3 as int, k.4 as int) == snap_key(
            ctx,
            chord_tones@,
            target as int,
            prev,
            p,
        ),
{
    let m: i64 = p.midi as i64;
    let t: i64 = target as i64;
    let dist: i64 = if m >= t { m - t } else { t - m };
    let consonance: u8 = 2 - fit(p.midi, chord_tones, ctx.scale).rank();
    let (turns, reach): (u8, u8) = match prev {
        Some(q) => (
            if q.blow != p.blow { 1 } else { 0 },
            if q.hole >= p.hole { q.hole - p.hole } else { p.hole - q.hole },
        ),
        None => (0, 0),
    };
    (dist, consonance, turns, reach, p.midi)
}

/// Lexicographic `<` on concrete ranking keys.
fn key_lt(a: (i64, u8, u8, u8, u8), b: (i64, u8, u8, u8, u8)) -> (r: bool)
    ensures
        r == key_less(
            (a.0 as int, a.1 as int, a.2 as int, a.3 as int, a.4 as int),
            (b.0 as int, b.1 as int, b.2 as int, b.3 as int, b.4 as int),
        ),
{
    a.0 < b.0 || (a.0 == b.0 && (a.1 < b.1 || (a.1 == b.1 && (a.2 < b.2 || (a.2 == b.2 && (a.3 < b.3
        || (a.3 == b.3 && a.4 < b.4)))))))
}

/// The pitch nearest `target` that the harp can play, at least `min_fit`
/// consonant with `chord_tones`, able to resolve, and — when there is a
/// previous note — reachable from it. Ties break toward the more consonant
/// note, then the one that keeps the breath direction and stays closest to
/// the previous hole, then the lower.
pub fn snap(
    ctx: &CallContext,
    chord_tones: &PitchClassSet,
    target: i32,
    prev: Option<PlayableNote>,
    min_fit: NoteFit,
) -> (r: Option<PlayableNote>)
    ensures
        snap_result(ctx, chord_tones@, target as int, prev, min_fit, r),
        r == spec_snap(ctx, chord_tones@, target as int, prev, min_fit),
{
    let ghost pl = ctx.playable@;
    let ghost chord = chord_tones@;
    let mut best: Option<PlayableNote> = None;
    let mut best_key: (i64, u8, u8, u8, u8) = (0, 0, 0, 0, 0);
    let ghost mut best_index: int = 0;
    let mut i: usize = 0;
    while i < ctx.playable.len()
        invariant
            pl == ctx.playable@,
            chord == chord_tones@,
            i <= pl.len(),
            best is None ==> forall|j: int|
                0 <= j < i ==> !snap_candidate(ctx, chord, prev, min_fit, #[trigger] pl[j]),
            best matches Some(b) ==> {
                &&& 0 <= best_index < i
                &&& pl[best_index] == b
                &&& snap_candidate(ctx, chord, prev, min_fit, b)
                &&& (best_key.0 as int, best_key.1 as int, best_key.2 as int, best_key.3 as int, best_key.4 as int)
                    == snap_key(ctx, chord, target as int, prev, b)
                &&& forall|j: int|
                    0 <= j < i && snap_candidate(ctx, chord, prev, min_fit, #[trigger] pl[j]) ==> !key_less(
                        snap_key(ctx, chord, target as int, prev, pl[j]),
                        snap_key(ctx, chord, target as int, prev, b),
                    )
                &&& forall|j: int|
                    0 <= j < best_index && snap_candidate(ctx, chord, prev, min_fit, #[trigger] pl[j]) ==> key_less(
                        snap_key(ctx, chord, target as int, prev, b),
                        snap_key(ctx, chord, target as int, prev, pl[j]),
                    )
            },
            best == snap_pick(ctx, chord, target as int, prev, min_fit, pl.subrange(0, i as int)),
        decreases pl.len() - i,
    {
        let p = ctx.playable[i];
        proof {
            assert(pl.subrange(0, i + 1).drop_last() =~= pl.subrange(0, i as int));
            assert(pl.subrange(0, i + 1).last() == p);
        }
        let fits = fit(p.midi, chord_tones, ctx.scale).rank() >= min_fit.rank();
        let reachable = match prev {
            Some(q) => transition_ok(q, p),
            None => true,
        };
        if fits && reachable && usable(ctx, chord_tones, p) {
            let k = key_of(ctx, chord_tones, target, prev, p);
            let better = match best {
                None => true,
                Some(_) => key_lt(k, best_key),
            };
            if better {
                best = Some(p);
                best_key = k;
                proof {
                    best_index = i as int;
                }
            }
        }
        i = i + 1;
    }
    proof {
        assert(pl.subrange(0, pl.len() as int) =~= pl);
    }
    best
}

/// Notes sung over one bar the way a call sings them: all from the harp's
/// vocabulary, all usable over the bar's chord, each a playable move from
/// the one before, and a note outside the chord always followed by a
/// chord tone.
pub open spec fn bar_line_ok(playable: Seq<PlayableNote>, chord: Set<int>, notes: Seq<PlayableNote>) -> bool {
    &&& forall|k: int| 0 <= k < notes.len() ==> playable.contains(#[trigger] notes[k])
    &&& forall|k: int| 0 <= k < notes.len() ==> spec_usable(playable, chord, #[trigger] notes[k])
    &&& forall|k: int| 0 <= k < notes.len() - 1 ==> #[trigger] moves_ok(notes, k)
    &&& forall|k: int| 0 <= k < notes.len() - 1 ==> #[trigger] resolves_next(chord, notes, k)
}

/// Note `k + 1` is one playable move from note `k`.
pub open spec fn moves_ok(notes: Seq<PlayableNote>, k: int) -> bool {
    spec_transition_ok(notes[k], notes[k + 1])
}

/// If note `k` is outside `chord`, note `k + 1` is a chord tone.
pub open spec fn resolves_next(chord: Set<int>, notes: Seq<PlayableNote>, k: int) -> bool {
    !is_chord_tone(chord, notes[k]) ==> is_chord_tone(chord, notes[k + 1])
}

/// Whether the harp sounds any tone of `chord` at all.
pub open spec fn has_chord_tone(playable: Seq<PlayableNote>, chord: Set<int>) -> bool {
    exists|i: int| 0 <= i < playable.len() && is_chord_tone(chord, #[trigger] playable[i])
}

/// The highest hole the harp's vocabulary uses (0 for none).
pub open spec fn spec_max_hole(playable: Seq<PlayableNote>) -> int
    decreases playable.len(),
{
    if playable.len() == 0 {
        0
    } else {
        let rest = spec_max_hole(playable.drop_last());
        if playable.last().hole as int > rest {
            playable.last().hole as int
        } else {
            rest
        }
    }
}

/// The middle holes of the harp, where most of the melody holes are.
pub open spec fn in_middle(playable: Seq<PlayableNote>, p: PlayableNote) -> bool {
    let m = spec_max_hole(playable);
    m / 4 <= p.hole <= m - m / 4
}

/// The chord tones among `pl`, in order.
pub open spec fn chord_tones_in(pl: Seq<PlayableNote>, chord: Set<int>) -> Seq<PlayableNote>
    decreases pl.len(),
{
    if pl.len() == 0 {
        Seq::empty()
    } else {
        let rest = chord_tones_in(pl.drop_last(), chord);
        if is_chord_tone(chord, pl.last()) {
            rest.push(pl.last())
        } else {
            rest
        }
    }
}

/// The chord tones among `pl` that lie on the middle holes of the harp
/// `whole`, in order.
pub open spec fn middle_chord_tones_in(pl: Seq<PlayableNote>, whole: Seq<PlayableNote>, chord: Set<int>) -> Seq<
    PlayableNote,
>
    decreases pl.len(),
{
    if pl.len() == 0 {
        Seq::empty()
    } else {
        let rest = middle_chord_tones_in(pl.drop_last(), whole, chord);
        if is_chord_tone(chord, pl.last()) && in_middle(whole, pl.last()) {
            rest.push(pl.last())
        } else {
            rest
        }
    }
}

/// Where the call's first note is drawn from: the chord tones on the
/// harp's middle holes, or every chord tone when none is there.
pub open spec fn anchor_pool(pl: Seq<PlayableNote>, chord: Set<int>) -> Seq<PlayableNote> {
    if middle_chord_tones_in(pl, pl, chord).len() > 0 {
        middle_chord_tones_in(pl, pl, chord)
    } else {
        chord_tones_in(pl, chord)
    }
}

/// Whether a vocabulary entry sounds a chord tone, by its fit.
proof fn lemma_chord_fit(p: PlayableNote, chord: Set<int>, scale: Set<int>)
    ensures
        (spec_fit(p.midi as int, chord, scale) == NoteFit::ChordTone) == is_chord_tone(chord, p),
        (spec_fit(p.midi as int, chord, scale).spec_rank() >= NoteFit::ChordTone.spec_rank()) == is_chord_tone(
            chord,
            p,
        ),
{
}

/// What `anchor` returns from rng state `state`, and the state it leaves.
pub open spec fn spec_anchor(ctx: &CallContext, chord: Set<int>, state: u64) -> (Option<PlayableNote>, u64) {
    let pool = anchor_pool(ctx.playable@, chord);
    if pool.len() == 0 {
        (None, state)
    } else {
        let s = Rng::stepped(state);
        (Some(pool[splitmix_output(s) as int % pool.len() as int]), s)
    }
}

/// The call's first note: a chord tone from the middle of the harp, where
/// most of the melody holes are. Falls back to any chord tone at all, and
/// to `None` when the chord has no tone on this harp.
pub fn anchor(ctx: &CallContext, chord_tones: &PitchClassSet, rng: &mut Rng) -> (r: Option<PlayableNote>)
    ensures
        r is None <==> !has_chord_tone(ctx.playable@, chord_tones@),
        r is None ==> final(rng).0 == old(rng).0,
        r matches Some(p) ==> {
            &&& ctx.playable@.contains(p)
            &&& is_chord_tone(chord_tones@, p)
            &&& final(rng).0 == Rng::stepped(old(rng).0)
            &&& (exists|i: int|
                0 <= i < ctx.playable@.len() && is_chord_tone(chord_tones@, #[trigger] ctx.playable@[i])
                    && in_middle(ctx.playable@, ctx.playable@[i])) ==> in_middle(ctx.playable@, p)
        },
        (r, final(rng).0) == spec_anchor(ctx, chord_tones@, old(rng).0),
        r == if anchor_pool(ctx.playable@, chord_tones@).len() == 0 {
            None
        } else {
            Some(
                anchor_pool(ctx.playable@, chord_tones@)[splitmix_output(final(rng).0) as int % anchor_pool(
                    ctx.playable@,
                    chord_tones@,
                ).len() as int],
            )
        },
{
    let ghost pl = ctx.playable@;
    let mut max_hole: u8 = 0;
    let mut i: usize = 0;
    while i < ctx.playable.len()
        invariant
            pl == ctx.playable@,
            i <= pl.len(),
            max_hole as int == spec_max_hole(pl.subrange(0, i as int)),
        decreases pl.len() - i,
    {
        proof {
            assert(pl.subrange(0, i + 1).drop_last() =~= pl.subrange(0, i as int));
        }
        if ctx.playable[i].hole > max_hole {
            max_hole = ctx.playable[i].hole;
        }
        i = i + 1;
    }
    proof {
        assert(pl.subrange(0, pl.len() as int) =~= pl);
    }
    let lo: u8 = max_hole / 4;
    let hi: u8 = max_hole - max_hole / 4;
    let mut chord: Vec<PlayableNote> = Vec::new();
    let mut middle: Vec<PlayableNote> = Vec::new();
    let mut j: usize = 0;
    while j < ctx.playable.len()
        invariant
            pl == ctx.playable@,
            j <= pl.len(),
            max_hole as int == spec_max_hole(pl),
            lo as int == spec_max_hole(pl) / 4,
            hi as int == spec_max_hole(pl) - spec_max_hole(pl) / 4,
            forall|k: int| 0 <= k < chord@.len() ==> pl.contains(#[trigger] chord@[k]) && is_chord_tone(chord_tones@, chord@[k]),
            forall|k: int|
                0 <= k < middle@.len() ==> pl.contains(#[trigger] middle@[k]) && is_chord_tone(chord_tones@, middle@[k])
                    && in_middle(pl, middle@[k]),
            forall|k: int| 0 <= k < j && is_chord_tone(chord_tones@, #[trigger] pl[k]) ==> chord@.len() > 0,
            forall|k: int|
                0 <= k < j && is_chord_tone(chord_tones@, #[trigger] pl[k]) && in_middle(pl, pl[k]) ==> middle@.len()
                    > 0,
            chord@ == chord_tones_in(pl.subrange(0, j as int), chord_tones@),
            middle@ == middle_chord_tones_in(pl.subrange(0, j as int), pl, chord_tones@),
        decreases pl.len() - j,
    {
        let p = ctx.playable[j];
        proof {
            assert(pl.subrange(0, j + 1).drop_last() =~= pl.subrange(0, j as int));
            assert(pl.subrange(0, j + 1).last() == p);
        }
        proof {
            lemma_chord_fit(p, chord_tones@, ctx.scale@);
        }
        if fit(p.midi, chord_tones, ctx.scale) == NoteFit::ChordTone {
            proof {
                assert(pl.contains(p)) by {
                    assert(pl[j as int] == p);
                }
            }
            chord.push(p);
            if lo <= p.hole && p.hole <= hi {
                middle.push(p);
            }
        }
        j = j + 1;
    }
    proof {
        assert(pl.subrange(0, pl.len() as int) =~= pl);
    }
    let use_middle = middle.len() > 0;
    let pool: &Vec<PlayableNote> = if use_middle { &middle } else { &chord };
    assert(pool@ == anchor_pool(pl, chord_tones@));
    if pool.len() == 0 {
        proof {
            assert forall|k: int| 0 <= k < pl.len() implies !is_chord_tone(chord_tones@, #[trigger] pl[k]) by {}
        }
        return None;
    }
    let p = *rng.pick(pool.as_slice());
    proof {
        let k = choose|k: int| 0 <= k < pl.len() && pl[k] == p;
        assert(is_chord_tone(chord_tones@, pl[k]));
    }
    Some(p)
}

/// The weight `step` gives a candidate next note: 4 for a chord tone, 2
/// for a scale note after a chord tone, 1 for an out-of-scale "blue" note
/// after a chord tone when the phrase was dealt one, 0 (excluded) for
/// anything else, a repeat of `prev`, an unreachable move, a note more than
/// [`MOTIF_RANGE`] from the anchor, or one with nowhere to resolve.
pub open spec fn step_weight(
    ctx: &CallContext,
    chord: Set<int>,
    anchor_midi: int,
    prev: PlayableNote,
    allow_blue: bool,
    p: PlayableNote,
) -> int {
    let prev_chord = is_chord_tone(chord, prev);
    let dist = if p.midi as int >= anchor_midi { p.midi as int - anchor_midi } else { anchor_midi - p.midi as int };
    if p.midi == prev.midi || !spec_transition_ok(prev, p) || dist > MOTIF_RANGE || !spec_usable(
        ctx.playable@,
        chord,
        p,
    ) {
        0
    } else {
        match spec_fit(p.midi as int, chord, ctx.scale@) {
            NoteFit::ChordTone => 4,
            NoteFit::InScale => if prev_chord { 2 } else { 0 },
            NoteFit::OutOfScale => if prev_chord && allow_blue { 1 } else { 0 },
        }
    }
}

/// The vocabulary entries of `pl` that `step` may choose, in order.
pub open spec fn step_candidates(
    ctx: &CallContext,
    chord: Set<int>,
    anchor_midi: int,
    prev: PlayableNote,
    allow_blue: bool,
    pl: Seq<PlayableNote>,
) -> Seq<PlayableNote>
    decreases pl.len(),
{
    if pl.len() == 0 {
        Seq::empty()
    } else {
        let rest = step_candidates(ctx, chord, anchor_midi, prev, allow_blue, pl.drop_last());
        if step_weight(ctx, chord, anchor_midi, prev, allow_blue, pl.last()) > 0 {
            rest.push(pl.last())
        } else {
            rest
        }
    }
}

/// The weights of [`step_candidates`], in the same order.
pub open spec fn step_weights(
    ctx: &CallContext,
    chord: Set<int>,
    anchor_midi: int,
    prev: PlayableNote,
    allow_blue: bool,
    pl: Seq<PlayableNote>,
) -> Seq<u32>
    decreases pl.len(),
{
    if pl.len() == 0 {
        Seq::empty()
    } else {
        let rest = step_weights(ctx, chord, anchor_midi, prev, allow_blue, pl.drop_last());
        let w = step_weight(ctx, chord, anchor_midi, prev, allow_blue, pl.last());
        if w > 0 {
            rest.push(w as u32)
        } else {
            rest
        }
    }
}

/// What `step` returns from rng state `state`, and the state it leaves.
pub open spec fn spec_step(
    ctx: &CallContext,
    chord: Set<int>,
    anchor_midi: int,
    prev: PlayableNote,
    allow_blue: bool,
    state: u64,
) -> (Option<PlayableNote>, u64) {
    let cands = step_candidates(ctx, chord, anchor_midi, prev, allow_blue, ctx.playable@);
    let ws = step_weights(ctx, chord, anchor_midi, prev, allow_blue, ctx.playable@);
    let total = weight_prefix(ws, ws.len() as int);
    if cands.len() == 0 {
        (None, state)
    } else {
        let s = Rng::stepped(state);
        (Some(cands[pick_by_weight(ws, splitmix_output(s) as int % (if total >= 1 { total } else { 1int }), 0)]), s)
    }
}

/// One step of the motif walk from `prev`: a different pitch within
/// [`MOTIF_RANGE`] of the anchor, reachable in one move, weighted toward
/// chord tones. A note outside the chord may only follow a chord tone (so
/// it resolves at once). `None` when nothing qualifies.
pub fn step(
    ctx: &CallContext,
    chord_tones: &PitchClassSet,
    anchor_midi: i32,
    prev: PlayableNote,
    allow_blue: bool,
    rng: &mut Rng,
) -> (r: Option<PlayableNote>)
    requires
        ctx.playable@.len() <= u32::MAX / 4,
    ensures
        r is None <==> forall|i: int|
            0 <= i < ctx.playable@.len() ==> step_weight(
                ctx,
                chord_tones@,
                anchor_midi as int,
                prev,
                allow_blue,
                #[trigger] ctx.playable@[i],
            ) == 0,
        r is None ==> final(rng).0 == old(rng).0,
        r matches Some(p) ==> {
            &&& ctx.playable@.contains(p)
            &&& step_weight(ctx, chord_tones@, anchor_midi as int, prev, allow_blue, p) > 0
            &&& final(rng).0 == Rng::stepped(old(rng).0)
        },
        (r, final(rng).0) == spec_step(ctx, chord_tones@, anchor_midi as int, prev, allow_blue, old(rng).0),
        r matches Some(p) ==> ({
            let cands = step_candidates(ctx, chord_tones@, anchor_midi as int, prev, allow_blue, ctx.playable@);
            let ws = step_weights(ctx, chord_tones@, anchor_midi as int, prev, allow_blue, ctx.playable@);
            let roll = splitmix_output(final(rng).0) as int % weight_prefix(ws, ws.len() as int);
            exists|i: int|
                0 <= i < cands.len() && cands[i] == p && weight_prefix(ws, i) <= roll < weight_prefix(ws, i + 1)
        }),
{
    let ghost pl = ctx.playable@;
    let ghost chord = chord_tones@;
    let prev_fit = fit(prev.midi, chord_tones, ctx.scale);
    let mut candidates: Vec<PlayableNote> = Vec::new();
    let mut weights: Vec<u32> = Vec::new();
    let mut i: usize = 0;
    while i < ctx.playable.len()
        invariant
            pl == ctx.playable@,
            chord == chord_tones@,
            pl.len() <= u32::MAX / 4,
            i <= pl.len(),
            prev_fit == spec_fit(prev.midi as int, chord, ctx.scale@),
            candidates@.len() == weights@.len(),
            candidates@.len() <= i,
            weight_prefix(weights@, weights@.len() as int) <= 4 * candidates@.len(),
            forall|k: int|
                0 <= k < candidates@.len() ==> pl.contains(#[trigger] candidates@[k]) && weights@[k] as int
                    == step_weight(ctx, chord, anchor_midi as int, prev, allow_blue, candidates@[k]) && weights@[k] > 0,
            candidates@.len() == 0 <==> forall|k: int|
                0 <= k < i ==> step_weight(ctx, chord, anchor_midi as int, prev, allow_blue, #[trigger] pl[k])
                    == 0,
            candidates@ == step_candidates(ctx, chord, anchor_midi as int, prev, allow_blue, pl.subrange(0, i as int)),
            weights@ == step_weights(ctx, chord, anchor_midi as int, prev, allow_blue, pl.subrange(0, i as int)),
        decreases pl.len() - i,
    {
        let p = ctx.playable[i];
        proof {
            assert(pl.subrange(0, i + 1).drop_last() =~= pl.subrange(0, i as int));
            assert(pl.subrange(0, i + 1).last() == p);
        }
        let m: i64 = p.midi as i64;
        let a: i64 = anchor_midi as i64;
        let dist: i64 = if m >= a { m - a } else { a - m };
        proof {
            lemma_chord_fit(prev, chord, ctx.scale@);
        }
        if p.midi != prev.midi && transition_ok(prev, p) && dist <= MOTIF_RANGE as i64 && usable(ctx, chord_tones, p) {
            let prev_is_chord = prev_fit == NoteFit::ChordTone;
            let weight: u32 = match fit(p.midi, chord_tones, ctx.scale) {
                NoteFit::ChordTone => 4,
                NoteFit::InScale => if prev_is_chord { 2 } else { 0 },
                NoteFit::OutOfScale => if prev_is_chord && allow_blue { 1 } else { 0 },
            };
            if weight > 0 {
                let ghost old_w = weights@;
                let ghost old_c = candidates@;
                candidates.push(p);
                weights.push(weight);
                proof {
                    assert forall|k: int| 0 <= k < candidates@.len() - 1 implies candidates@[k] == old_c[k]
                        && weights@[k] == old_w[k] by {}
                    assert(weights@ =~= old_w.push(weight));
                    lemma_weight_prefix_push(old_w, weight);
                    assert(pl.contains(p)) by {
                        assert(pl[i as int] == p);
                    }
                    assert(step_weight(ctx, chord, anchor_midi as int, prev, allow_blue, pl[i as int]) > 0);
                }
            }
        }
        i = i + 1;
    }
    proof {
        assert(pl.subrange(0, pl.len() as int) =~= pl);
    }
    if candidates.len() == 0 {
        return None;
    }
    proof {
        assert(pl.contains(candidates@[0]));
        assert(weights@[0] > 0);
        lemma_weight_prefix_monotone(weights@, 1, weights@.len() as int);
        assert(weight_prefix(weights@, 1) == weight_prefix(weights@, 0) + weights@[0]);
    }
    let idx = rng.weighted(&weights);
    Some(candidates[idx])
}

/// What `resolve_from` returns.
pub open spec fn spec_resolve_from(ctx: &CallContext, chord: Set<int>, prev: PlayableNote) -> Option<PlayableNote> {
    if is_chord_tone(chord, prev) {
        Some(prev)
    } else {
        spec_snap(ctx, chord, prev.midi as int, Some(prev), NoteFit::ChordTone)
    }
}

/// Where `prev` goes when the walk has nowhere else to step: itself if it
/// is a chord tone, else the nearest chord tone within reach.
pub fn resolve_from(ctx: &CallContext, chord_tones: &PitchClassSet, prev: PlayableNote) -> (r: Option<PlayableNote>)
    requires
        ctx.playable@.contains(prev),
    ensures
        r matches Some(p) ==> ctx.playable@.contains(p) && is_chord_tone(chord_tones@, p) && spec_transition_ok(
            prev,
            p,
        ),
        r == spec_resolve_from(ctx, chord_tones@, prev),
        is_chord_tone(chord_tones@, prev) ==> r == Some(prev),
        !is_chord_tone(chord_tones@, prev) ==> snap_result(
            ctx,
            chord_tones@,
            prev.midi as int,
            Some(prev),
            NoteFit::ChordTone,
            r,
        ),
        spec_usable(ctx.playable@, chord_tones@, prev) ==> r is Some,
{
    proof {
        lemma_chord_fit(prev, chord_tones@, ctx.scale@);
    }
    if fit(prev.midi, chord_tones, ctx.scale) == NoteFit::ChordTone {
        return Some(prev);
    }
    let r = snap(ctx, chord_tones, prev.midi as i32, Some(prev), NoteFit::ChordTone);
    proof {
        lemma_snap_chord(ctx, chord_tones@, prev.midi as int, Some(prev), r);
        if spec_usable(ctx.playable@, chord_tones@, prev) {
            let i = choose|i: int|
                0 <= i < ctx.playable@.len() && is_chord_tone(chord_tones@, #[trigger] ctx.playable@[i])
                    && spec_transition_ok(prev, ctx.playable@[i]);
            lemma_chord_fit(ctx.playable@[i], chord_tones@, ctx.scale@);
            assert(snap_candidate(ctx, chord_tones@, Some(prev), NoteFit::ChordTone, ctx.playable@[i]));
        }
    }
    r
}

/// What a chord-tone `snap` gives: a reachable chord tone of the
/// vocabulary, and one whenever any chord tone is a candidate.
proof fn lemma_snap_chord(
    ctx: &CallContext,
    chord: Set<int>,
    target: int,
    prev: Option<PlayableNote>,
    r: Option<PlayableNote>,
)
    requires
        snap_result(ctx, chord, target, prev, NoteFit::ChordTone, r),
    ensures
        r matches Some(p) ==> ctx.playable@.contains(p) && is_chord_tone(chord, p) && (prev matches Some(q)
            ==> spec_transition_ok(q, p)),
        r is None ==> forall|j: int|
            0 <= j < ctx.playable@.len() ==> !snap_candidate(ctx, chord, prev, NoteFit::ChordTone, #[trigger] ctx.playable@[j]),
{
    if let Some(p) = r {
        let i = choose|i: int|
            0 <= i < ctx.playable@.len() && ctx.playable@[i] == p && snap_candidate(ctx, chord, prev, NoteFit::ChordTone, p)
                && (forall|j: int|
                0 <= j < ctx.playable@.len() && snap_candidate(ctx, chord, prev, NoteFit::ChordTone, #[trigger] ctx.playable@[j])
                    ==> !key_less(snap_key(ctx, chord, target, prev, ctx.playable@[j]), snap_key(ctx, chord, target, prev, p)))
                && (forall|j: int|
                0 <= j < i && snap_candidate(ctx, chord, prev, NoteFit::ChordTone, #[trigger] ctx.playable@[j]) ==> key_less(
                    snap_key(ctx, chord, target, prev, p),
                    snap_key(ctx, chord, target, prev, ctx.playable@[j]),
                ));
        lemma_chord_fit(p, chord, ctx.scale@);
    }
}

/// What any `snap` gives: a qualifying pitch of the vocabulary.
proof fn lemma_snap_some(
    ctx: &CallContext,
    chord: Set<int>,
    target: int,
    prev: Option<PlayableNote>,
    min_fit: NoteFit,
    r: Option<PlayableNote>,
)
    requires
        snap_result(ctx, chord, target, prev, min_fit, r),
    ensures
        r matches Some(p) ==> ctx.playable@.contains(p) && snap_candidate(ctx, chord, prev, min_fit, p),
{
    if let Some(p) = r {
        let i = choose|i: int|
            0 <= i < ctx.playable@.len() && ctx.playable@[i] == p && snap_candidate(ctx, chord, prev, min_fit, p)
                && (forall|j: int|
                0 <= j < ctx.playable@.len() && snap_candidate(ctx, chord, prev, min_fit, #[trigger] ctx.playable@[j])
                    ==> !key_less(snap_key(ctx, chord, target, prev, ctx.playable@[j]), snap_key(ctx, chord, target, prev, p)))
                && (forall|j: int|
                0 <= j < i && snap_candidate(ctx, chord, prev, min_fit, #[trigger] ctx.playable@[j]) ==> key_less(
                    snap_key(ctx, chord, target, prev, p),
                    snap_key(ctx, chord, target, prev, ctx.playable@[j]),
                ));
    }
}

/// Appending a note that follows the rules keeps a bar's line valid.
proof fn lemma_bar_line_push(
    playable: Seq<PlayableNote>,
    chord: Set<int>,
    notes: Seq<PlayableNote>,
    next: PlayableNote,
)
    requires
        bar_line_ok(playable, chord, notes),
        notes.len() > 0,
        playable.contains(next),
        spec_usable(playable, chord, next),
        spec_transition_ok(notes.last(), next),
        !is_chord_tone(chord, notes.last()) ==> is_chord_tone(chord, next),
    ensures
        bar_line_ok(playable, chord, notes.push(next)),
{
    let m = notes.push(next);
    assert forall|k: int| 0 <= k < m.len() - 1 implies #[trigger] moves_ok(m, k) && resolves_next(chord, m, k) by {
        if k < notes.len() - 1 {
            assert(m[k] == notes[k] && m[k + 1] == notes[k + 1]);
            assert(moves_ok(notes, k) && resolves_next(chord, notes, k));
        }
    }
    assert forall|k: int| 0 <= k < m.len() - 1 implies #[trigger] resolves_next(chord, m, k) by {
        assert(moves_ok(m, k));
    }
    assert forall|k: int| 0 <= k < m.len() implies playable.contains(#[trigger] m[k]) && spec_usable(
        playable,
        chord,
        m[k],
    ) by {
        if k < notes.len() {
            assert(m[k] == notes[k]);
        }
    }
}

/// Replacing a line's last note by a usable chord tone reachable from the
/// note before it keeps the line valid.
proof fn lemma_bar_line_replace_last(
    playable: Seq<PlayableNote>,
    chord: Set<int>,
    notes: Seq<PlayableNote>,
    p: PlayableNote,
)
    requires
        bar_line_ok(playable, chord, notes),
        notes.len() > 0,
        playable.contains(p),
        is_chord_tone(chord, p),
        notes.len() >= 2 ==> spec_transition_ok(notes[notes.len() - 2], p),
    ensures
        bar_line_ok(playable, chord, notes.update(notes.len() - 1, p)),
{
    let n = notes.len();
    let m = notes.update(n - 1, p);
    assert forall|k: int| 0 <= k < m.len() - 1 implies #[trigger] moves_ok(m, k) && resolves_next(chord, m, k) by {
        if k < n - 2 {
            assert(m[k] == notes[k] && m[k + 1] == notes[k + 1]);
            assert(moves_ok(notes, k) && resolves_next(chord, notes, k));
        }
    }
    assert forall|k: int| 0 <= k < m.len() - 1 implies #[trigger] resolves_next(chord, m, k) by {
        assert(moves_ok(m, k));
    }
    assert forall|k: int| 0 <= k < m.len() implies playable.contains(#[trigger] m[k]) && spec_usable(
        playable,
        chord,
        m[k],
    ) by {
        if k < n - 1 {
            assert(m[k] == notes[k]);
        }
    }
}

/// The rest of the opening bar's walk from `notes` (the anchor and what
/// followed it) at rng state `state`, up to `count` notes: in the motif
/// each note steps on; after it, a chord tone may be repeated on a coin
/// toss; a walk with nowhere to step resolves, or stays put.
pub open spec fn opening_walk(
    ctx: &CallContext,
    chord: Set<int>,
    anchor_midi: int,
    allow_blue: bool,
    motif_len: int,
    count: int,
    notes: Seq<PlayableNote>,
    state: u64,
) -> (Seq<PlayableNote>, u64)
    decreases count - notes.len(),
{
    if notes.len() >= count || notes.len() == 0 {
        (notes, state)
    } else {
        let prev = notes.last();
        let tossed = notes.len() >= motif_len && is_chord_tone(chord, prev);
        let s1 = if tossed {
            Rng::stepped(state)
        } else {
            state
        };
        let repeat = tossed && splitmix_output(s1) % 2 == 0;
        let (next, s2) = if repeat {
            (prev, s1)
        } else {
            let (stepped, s) = spec_step(ctx, chord, anchor_midi, prev, allow_blue, s1);
            match stepped {
                Some(p) => (p, s),
                None => (
                    match spec_resolve_from(ctx, chord, prev) {
                        Some(p) => p,
                        None => prev,
                    },
                    s,
                ),
            }
        };
        opening_walk(ctx, chord, anchor_midi, allow_blue, motif_len, count, notes.push(next), s2)
    }
}

/// What `opening_pitches` returns from rng state `state`, and the state it
/// leaves: the anchor, a one-in-four chance of allowing a blue note, a
/// motif length of two to four notes (no more than the cell holds), then
/// the walk.
pub open spec fn spec_opening_pitches(ctx: &CallContext, chord: Set<int>, count: int, state: u64) -> (
    Seq<PlayableNote>,
    u64,
) {
    let (first, s1) = spec_anchor(ctx, chord, state);
    match first {
        None => (Seq::empty(), s1),
        Some(a) => {
            let s2 = Rng::stepped(s1);
            let allow_blue = splitmix_output(s2) % 4 == 0;
            let s3 = Rng::stepped(s2);
            let wanted = if count >= 1 {
                count
            } else {
                1
            };
            let reach = 2 + splitmix_output(s3) % 3;
            let motif_len = if reach <= wanted {
                reach
            } else {
                wanted
            };
            opening_walk(ctx, chord, a.midi as int, allow_blue, motif_len, count, seq![a], s3)
        },
    }
}

/// The opening bar's pitches: a motif of two to four notes walked out from
/// the anchor, then — if the cell has more notes — repeats and further steps
/// mixed by the seed, so a longer cell reads as "motif, said again". Empty
/// when the harp sounds no tone of the chord.
pub fn opening_pitches(
    ctx: &CallContext,
    chord_tones: &PitchClassSet,
    count: usize,
    rng: &mut Rng,
) -> (notes: Vec<PlayableNote>)
    requires
        ctx.playable@.len() <= u32::MAX / 4,
    ensures
        notes@.len() == 0 <==> !has_chord_tone(ctx.playable@, chord_tones@),
        notes@.len() > 0 ==> {
            &&& notes@.len() == if count >= 1 { count as int } else { 1int }
            &&& is_chord_tone(chord_tones@, notes@[0])
            &&& bar_line_ok(ctx.playable@, chord_tones@, notes@)
            &&& forall|k: int| 0 <= k < notes@.len() ==> #[trigger] within_motif(notes@[0], notes@[k])
        },
        (notes@, final(rng).0) == spec_opening_pitches(ctx, chord_tones@, count as int, old(rng).0),
{
    let ghost s0 = rng.0;
    let first = match anchor(ctx, chord_tones, rng) {
        Some(p) => p,
        None => {
            return Vec::new();
        },
    };
    let anchor_midi: i32 = first.midi as i32;
    let allow_blue = rng.below(4) == 0;
    let wanted: usize = if count >= 1 { count } else { 1 };
    let reach: usize = 2 + rng.below(3);
    let motif_len: usize = if reach <= wanted { reach } else { wanted };
    let mut notes: Vec<PlayableNote> = Vec::new();
    notes.push(first);
    proof {
        assert(spec_usable(ctx.playable@, chord_tones@, first));
        assert(notes@ =~= seq![first]);
    }
    let ghost target = spec_opening_pitches(ctx, chord_tones@, count as int, s0);
    assert(target == opening_walk(
        ctx,
        chord_tones@,
        anchor_midi as int,
        allow_blue,
        motif_len as int,
        count as int,
        notes@,
        rng.0,
    ));
    while notes.len() < count
        invariant
            ctx.playable@.len() <= u32::MAX / 4,
            notes@.len() >= 1,
            notes@.len() <= wanted,
            wanted == if count >= 1 { count as int } else { 1int },
            notes@[0] == first,
            is_chord_tone(chord_tones@, first),
            bar_line_ok(ctx.playable@, chord_tones@, notes@),
            anchor_midi == first.midi as i32,
            forall|k: int| 0 <= k < notes@.len() ==> #[trigger] within_motif(first, notes@[k]),
            forall|k: int| 1 <= k < notes@.len() ==> #[trigger] preceded_by_chord(chord_tones@, notes@, k),
            target == opening_walk(
                ctx,
                chord_tones@,
                anchor_midi as int,
                allow_blue,
                motif_len as int,
                count as int,
                notes@,
                rng.0,
            ),
        decreases count - notes@.len(),
    {
        let prev = notes[notes.len() - 1];
        let in_motif = notes.len() < motif_len;
        proof {
            lemma_chord_fit(prev, chord_tones@, ctx.scale@);
            assert(ctx.playable@.contains(prev) && spec_usable(ctx.playable@, chord_tones@, prev)) by {
                assert(prev == notes@[notes@.len() - 1]);
            }
        }
        // Only a chord tone may be repeated — a note that still has to
        // resolve does so next, rather than being said twice.
        let prev_is_chord = fit(prev.midi, chord_tones, ctx.scale) == NoteFit::ChordTone;
        let repeat = if !in_motif && prev_is_chord { rng.below(2) == 0 } else { false };
        let next = if repeat {
            prev
        } else {
            match step(ctx, chord_tones, anchor_midi, prev, allow_blue, rng) {
                Some(p) => {
                    proof {
                        lemma_chord_fit(p, chord_tones@, ctx.scale@);
                    }
                    p
                },
                None => {
                    proof {
                        if !is_chord_tone(chord_tones@, prev) {
                            let n = notes@.len();
                            assert(preceded_by_chord(chord_tones@, notes@, n - 1));
                            let q = notes@[n - 2];
                            assert(moves_ok(notes@, n - 2));
                            assert(within_motif(first, q));
                            lemma_chord_fit(q, chord_tones@, ctx.scale@);
                            let i = choose|i: int| 0 <= i < ctx.playable@.len() && ctx.playable@[i] == q;
                            assert(step_weight(ctx, chord_tones@, anchor_midi as int, prev, allow_blue, ctx.playable@[i]) > 0);
                        }
                    }
                    match resolve_from(ctx, chord_tones, prev) {
                        Some(p) => p,
                        None => prev,
                    }
                },
            }
        };
        proof {
            lemma_chord_fit(next, chord_tones@, ctx.scale@);
            lemma_bar_line_push(ctx.playable@, chord_tones@, notes@, next);
        }
        let ghost before = notes@;
        notes.push(next);
        proof {
            assert(notes@[0] == first);
            assert forall|k: int| 0 <= k < notes@.len() implies #[trigger] within_motif(first, notes@[k]) by {
                if k < before.len() {
                    assert(notes@[k] == before[k]);
                }
            }
            assert forall|k: int| 1 <= k < notes@.len() implies #[trigger] preceded_by_chord(chord_tones@, notes@, k) by {
                if k < before.len() {
                    assert(notes@[k] == before[k] && notes@[k - 1] == before[k - 1]);
                    assert(preceded_by_chord(chord_tones@, before, k));
                }
            }
        }
    }
    notes
}

/// Note `p` lies within [`MOTIF_RANGE`] semitones of `anchor`.
pub open spec fn within_motif(anchor: PlayableNote, p: PlayableNote) -> bool {
    -MOTIF_RANGE <= p.midi as int - anchor.midi as int <= MOTIF_RANGE
}

/// Note `k` is a chord tone, or follows a chord tone of another pitch.
pub open spec fn preceded_by_chord(chord: Set<int>, notes: Seq<PlayableNote>, k: int) -> bool {
    !is_chord_tone(chord, notes[k]) ==> is_chord_tone(chord, notes[k - 1]) && notes[k - 1].midi != notes[k].midi
}

/// How the answering bar relates to the opening one.
#[derive(Clone, Copy, PartialEq, Eq, Structural, Debug)]
pub enum Contour {
    Repeat,
    Up,
    Down,
}

/// The answering bar's walk from `notes` (its first `notes.len()` notes)
/// up to `count` notes: note `i` aims at opening note `i` (or the
/// opening's last) moved by `shift`, snapped to a reachable pitch — a chord
/// tone for the cell's last note and after a non-chord note, else at least
/// in the scale — resolving, or staying put, when nothing qualifies.
pub open spec fn answer_walk(
    ctx: &CallContext,
    chord: Set<int>,
    opening: Seq<PlayableNote>,
    shift: int,
    count: int,
    notes: Seq<PlayableNote>,
) -> Seq<PlayableNote>
    decreases count - notes.len(),
{
    if notes.len() >= count || notes.len() == 0 || opening.len() == 0 {
        notes
    } else {
        let i = notes.len() as int;
        let source = if i < opening.len() {
            opening[i]
        } else {
            opening.last()
        };
        let target = source.midi as int + shift;
        let prev = notes.last();
        let min_fit = if i + 1 == count || !is_chord_tone(chord, prev) {
            NoteFit::ChordTone
        } else {
            NoteFit::InScale
        };
        let next = match spec_snap(ctx, chord, target, Some(prev), min_fit) {
            Some(p) => p,
            None => match spec_resolve_from(ctx, chord, prev) {
                Some(p) => p,
                None => prev,
            },
        };
        answer_walk(ctx, chord, opening, shift, count, notes.push(next))
    }
}

/// Where the answering bar's contour is re-sung from: the nearest chord
/// tone to the opening's first note (moved per `contour`) that the
/// opening's last note can reach, else the nearest at all.
pub open spec fn answer_anchor(
    ctx: &CallContext,
    chord: Set<int>,
    opening: Seq<PlayableNote>,
    contour: Contour,
) -> Option<PlayableNote> {
    let base = opening[0].midi as int;
    let aim = match contour {
        Contour::Repeat => base,
        Contour::Up => base + ANSWER_SHIFT,
        Contour::Down => base - ANSWER_SHIFT,
    };
    match spec_snap(ctx, chord, aim, Some(opening.last()), NoteFit::ChordTone) {
        Some(p) => Some(p),
        None => spec_snap(ctx, chord, aim, None, NoteFit::ChordTone),
    }
}

/// What `answer_pitches` returns from rng state `state`, and the state it
/// leaves (only an answer with no opening to follow draws on it).
pub open spec fn spec_answer_pitches(
    ctx: &CallContext,
    chord: Set<int>,
    opening: Seq<PlayableNote>,
    count: int,
    contour: Contour,
    state: u64,
) -> (Seq<PlayableNote>, u64) {
    if count == 0 {
        (Seq::empty(), state)
    } else if opening.len() == 0 {
        spec_opening_pitches(ctx, chord, count, state)
    } else {
        match answer_anchor(ctx, chord, opening, contour) {
            None => (Seq::empty(), state),
            Some(a) => (answer_walk(ctx, chord, opening, a.midi as int - opening[0].midi as int, count, seq![a]), state),
        }
    }
}

/// The answering bar: the opening's contour (its intervals from its first
/// note) re-sung from a new anchor — the same one, or the nearest chord
/// tone of this bar a step up or down — each note snapped to what the harp
/// can play and reach. A non-chord note is only ever followed by a chord
/// tone, and the cell's last note must be one.
pub fn answer_pitches(
    ctx: &CallContext,
    chord_tones: &PitchClassSet,
    opening: &[PlayableNote],
    count: usize,
    contour: Contour,
    rng: &mut Rng,
) -> (notes: Vec<PlayableNote>)
    requires
        ctx.playable@.len() <= u32::MAX / 4,
    ensures
        notes@.len() == 0 <==> (count == 0 || !has_chord_tone(ctx.playable@, chord_tones@)),
        notes@.len() > 0 ==> {
            &&& notes@.len() == count
            &&& is_chord_tone(chord_tones@, notes@[0])
            &&& bar_line_ok(ctx.playable@, chord_tones@, notes@)
        },
        opening@.len() > 0 && notes@.len() > 0 && spec_can_resolve(ctx.playable@, chord_tones@, opening@.last())
            ==> spec_transition_ok(opening@.last(), notes@[0]),
        (notes@, final(rng).0) == spec_answer_pitches(ctx, chord_tones@, opening@, count as int, contour, old(rng).0),
{
    if count == 0 {
        return Vec::new();
    }
    if opening.len() == 0 {
        return opening_pitches(ctx, chord_tones, count, rng);
    }
    let first = opening[0];
    let base: i32 = first.midi as i32;
    let anchor_target: i32 = match contour {
        Contour::Repeat => base,
        Contour::Up => base + ANSWER_SHIFT,
        Contour::Down => base - ANSWER_SHIFT,
    };
    let last_of_opening = opening[opening.len() - 1];
    let reached = snap(ctx, chord_tones, anchor_target, Some(last_of_opening), NoteFit::ChordTone);
    proof {
        lemma_snap_chord(ctx, chord_tones@, anchor_target as int, Some(last_of_opening), reached);
        if spec_can_resolve(ctx.playable@, chord_tones@, last_of_opening) {
            let i = choose|i: int|
                0 <= i < ctx.playable@.len() && is_chord_tone(chord_tones@, #[trigger] ctx.playable@[i])
                    && spec_transition_ok(last_of_opening, ctx.playable@[i]);
            lemma_chord_fit(ctx.playable@[i], chord_tones@, ctx.scale@);
            assert(snap_candidate(ctx, chord_tones@, Some(last_of_opening), NoteFit::ChordTone, ctx.playable@[i]));
        }
    }
    let new_anchor = match reached {
        Some(p) => p,
        None => {
            let anywhere = snap(ctx, chord_tones, anchor_target, None, NoteFit::ChordTone);
            proof {
                lemma_snap_chord(ctx, chord_tones@, anchor_target as int, None, anywhere);
                if has_chord_tone(ctx.playable@, chord_tones@) {
                    let i = choose|i: int| 0 <= i < ctx.playable@.len() && is_chord_tone(chord_tones@, #[trigger] ctx.playable@[i]);
                    lemma_chord_fit(ctx.playable@[i], chord_tones@, ctx.scale@);
                    assert(snap_candidate(ctx, chord_tones@, None, NoteFit::ChordTone, ctx.playable@[i]));
                }
            }
            match anywhere {
                Some(p) => p,
                None => {
                    return Vec::new();
                },
            }
        },
    };
    proof {
        assert(has_chord_tone(ctx.playable@, chord_tones@)) by {
            let i = choose|i: int| 0 <= i < ctx.playable@.len() && ctx.playable@[i] == new_anchor;
        }
    }
    let shift: i32 = new_anchor.midi as i32 - base;
    let mut notes: Vec<PlayableNote> = Vec::new();
    notes.push(new_anchor);
    assert(notes@ =~= seq![new_anchor]);
    let ghost target = answer_walk(ctx, chord_tones@, opening@, shift as int, count as int, notes@);
    let mut i: usize = 1;
    while i < count
        invariant
            1 <= i <= count,
            notes@.len() == i,
            opening@.len() > 0,
            -255 <= shift <= 255,
            notes@[0] == new_anchor,
            is_chord_tone(chord_tones@, new_anchor),
            bar_line_ok(ctx.playable@, chord_tones@, notes@),
            target == answer_walk(ctx, chord_tones@, opening@, shift as int, count as int, notes@),
        decreases count - i,
    {
        let source = if i < opening.len() { opening[i] } else { opening[opening.len() - 1] };
        let target: i32 = source.midi as i32 + shift;
        let prev = notes[notes.len() - 1];
        let last = i + 1 == count;
        proof {
            lemma_chord_fit(prev, chord_tones@, ctx.scale@);
            assert(ctx.playable@.contains(prev) && spec_usable(ctx.playable@, chord_tones@, prev)) by {
                assert(prev == notes@[notes@.len() - 1]);
            }
        }
        let min_fit = if last || fit(prev.midi, chord_tones, ctx.scale) != NoteFit::ChordTone {
            NoteFit::ChordTone
        } else {
            NoteFit::InScale
        };
        let found = snap(ctx, chord_tones, target, Some(prev), min_fit);
        proof {
            lemma_snap_some(ctx, chord_tones@, target as int, Some(prev), min_fit, found);
        }
        let next = match found {
            Some(p) => {
                proof {
                    lemma_chord_fit(p, chord_tones@, ctx.scale@);
                }
                p
            },
            None => match resolve_from(ctx, chord_tones, prev) {
                Some(p) => p,
                None => prev,
            },
        };
        proof {
            lemma_bar_line_push(ctx.playable@, chord_tones@, notes@, next);
        }
        notes.push(next);
        i = i + 1;
    }
    notes
}

/// What `resolve_last` leaves of `notes`: the last note, when it is not a
/// chord tone, replaced by the nearest chord tone reachable from the note
/// before it, else the nearest at all; unchanged when there is none.
pub open spec fn spec_resolve_last(ctx: &CallContext, chord: Set<int>, notes: Seq<PlayableNote>) -> Seq<PlayableNote> {
    let n = notes.len();
    if n == 0 || is_chord_tone(chord, notes.last()) {
        notes
    } else {
        let prev = if n >= 2 {
            Some(notes[n - 2])
        } else {
            None
        };
        let target = notes.last().midi as int;
        match spec_snap(ctx, chord, target, prev, NoteFit::ChordTone) {
            Some(p) => notes.update(n - 1, p),
            None => match spec_snap(ctx, chord, target, None, NoteFit::ChordTone) {
                Some(p) => notes.update(n - 1, p),
                None => notes,
            },
        }
    }
}

/// Forces a bar's final note onto a chord tone of its own bar, the
/// nearest one the harp can reach from the note before it; the other notes
/// stay as they are.
pub fn resolve_last(ctx: &CallContext, chord_tones: &PitchClassSet, notes: &mut Vec<PlayableNote>)
    requires
        bar_line_ok(ctx.playable@, chord_tones@, old(notes)@),
    ensures
        final(notes)@.len() == old(notes)@.len(),
        forall|k: int| 0 <= k < old(notes)@.len() - 1 ==> #[trigger] final(notes)@[k] == old(notes)@[k],
        bar_line_ok(ctx.playable@, chord_tones@, final(notes)@),
        final(notes)@.len() > 0 && has_chord_tone(ctx.playable@, chord_tones@) ==> is_chord_tone(
            chord_tones@,
            final(notes)@.last(),
        ),
        final(notes)@.len() > 0 && is_chord_tone(chord_tones@, old(notes)@[0]) ==> is_chord_tone(
            chord_tones@,
            final(notes)@[0],
        ),
        final(notes)@ == spec_resolve_last(ctx, chord_tones@, old(notes)@),
        old(notes)@.len() > 0 && is_chord_tone(chord_tones@, old(notes)@.last()) ==> final(notes)@ == old(notes)@,
        old(notes)@.len() > 0 && !is_chord_tone(chord_tones@, old(notes)@.last()) ==> ({
            let n = old(notes)@.len();
            let prev = if n >= 2 {
                Some(old(notes)@[n - 2])
            } else {
                None
            };
            let target = old(notes)@.last().midi as int;
            ||| snap_result(ctx, chord_tones@, target, prev, NoteFit::ChordTone, Some(final(notes)@.last()))
            ||| snap_result(ctx, chord_tones@, target, prev, NoteFit::ChordTone, None) && snap_result(
                ctx,
                chord_tones@,
                target,
                None,
                NoteFit::ChordTone,
                Some(final(notes)@.last()),
            )
            ||| snap_result(ctx, chord_tones@, target, prev, NoteFit::ChordTone, None) && snap_result(
                ctx,
                chord_tones@,
                target,
                None,
                NoteFit::ChordTone,
                None,
            ) && final(notes)@ == old(notes)@
        }),
{
    let n = notes.len();
    if n == 0 {
        return;
    }
    let last_note = notes[n - 1];
    proof {
        lemma_chord_fit(last_note, chord_tones@, ctx.scale@);
    }
    if fit(last_note.midi, chord_tones, ctx.scale) == NoteFit::ChordTone {
        return;
    }
    let prev: Option<PlayableNote> = if n >= 2 { Some(notes[n - 2]) } else { None };
    let target: i32 = last_note.midi as i32;
    let reached = snap(ctx, chord_tones, target, prev, NoteFit::ChordTone);
    proof {
        lemma_snap_chord(ctx, chord_tones@, target as int, prev, reached);
        if n >= 2 {
            let q = notes@[n - 2];
            assert(ctx.playable@.contains(q) && spec_usable(ctx.playable@, chord_tones@, q));
            lemma_chord_fit(q, chord_tones@, ctx.scale@);
            if is_chord_tone(chord_tones@, q) {
                let j = choose|j: int| 0 <= j < ctx.playable@.len() && ctx.playable@[j] == q;
                assert(snap_candidate(ctx, chord_tones@, prev, NoteFit::ChordTone, ctx.playable@[j]));
            } else {
                let j = choose|j: int|
                    0 <= j < ctx.playable@.len() && is_chord_tone(chord_tones@, #[trigger] ctx.playable@[j])
                        && spec_transition_ok(q, ctx.playable@[j]);
                lemma_chord_fit(ctx.playable@[j], chord_tones@, ctx.scale@);
                assert(snap_candidate(ctx, chord_tones@, prev, NoteFit::ChordTone, ctx.playable@[j]));
            }
        } else if has_chord_tone(ctx.playable@, chord_tones@) {
            let j = choose|j: int| 0 <= j < ctx.playable@.len() && is_chord_tone(chord_tones@, #[trigger] ctx.playable@[j]);
            lemma_chord_fit(ctx.playable@[j], chord_tones@, ctx.scale@);
            assert(snap_candidate(ctx, chord_tones@, prev, NoteFit::ChordTone, ctx.playable@[j]));
        }
    }
    let fixed = match reached {
        Some(p) => Some(p),
        None => {
            let anywhere = snap(ctx, chord_tones, target, None, NoteFit::ChordTone);
            proof {
                lemma_snap_chord(ctx, chord_tones@, target as int, None, anywhere);
            }
            anywhere
        },
    };
    if let Some(p) = fixed {
        let ghost before = notes@;
        proof {
            assert(spec_usable(ctx.playable@, chord_tones@, p));
            lemma_bar_line_replace_last(ctx.playable@, chord_tones@, before, p);
        }
        notes.set(n - 1, p);
        proof {
            assert(notes@ =~= before.update(n - 1, p));
        }
    }
}

/// The latest tick a call may still be sounding: two beats before the
/// player's turn.
pub open spec fn spec_call_space_tick() -> int {
    (CALL_BARS - 1) * TICKS_PER_BAR + spec_slot_tick(ENDING_LAST_SLOT as int, false)
}

/// The latest tick a call may still be sounding — two beats before the
/// player's turn (see [`ENDING_LAST_SLOT`]).
pub fn call_space_tick() -> (t: usize)
    ensures
        t == spec_call_space_tick(),
{
    (CALL_BARS - 1) * TICKS_PER_BAR + slot_tick(ENDING_LAST_SLOT, false)
}

/// The tick at which the last of `notes` ends (0 for none).
pub open spec fn spec_call_end_tick(notes: Seq<CallNote>) -> int
    decreases notes.len(),
{
    if notes.len() == 0 {
        0
    } else {
        let rest = spec_call_end_tick(notes.drop_last());
        let end = notes.last().tick + notes.last().len;
        if end > rest {
            end
        } else {
            rest
        }
    }
}

/// The tick at which the last note of `notes` ends (0 for an empty call).
pub fn call_end_tick(notes: &[CallNote]) -> (t: usize)
    requires
        forall|k: int| 0 <= k < notes@.len() ==> #[trigger] notes@[k].tick + notes@[k].len <= usize::MAX,
    ensures
        t == spec_call_end_tick(notes@),
{
    let mut end: usize = 0;
    let mut i: usize = 0;
    while i < notes.len()
        invariant
            i <= notes@.len(),
            forall|k: int| 0 <= k < notes@.len() ==> #[trigger] notes@[k].tick + notes@[k].len <= usize::MAX,
            end == spec_call_end_tick(notes@.subrange(0, i as int)),
        decreases notes@.len() - i,
    {
        proof {
            assert(notes@.subrange(0, i + 1).drop_last() =~= notes@.subrange(0, i as int));
        }
        let e = notes[i].tick + notes[i].len;
        if e > end {
            end = e;
        }
        i = i + 1;
    }
    proof {
        assert(notes@.subrange(0, notes@.len() as int) =~= notes@);
    }
    end
}

/// The chord of the bar note `n` sounds in.
pub open spec fn bar_chord(ctx: &CallContext, n: CallNote) -> Set<int> {
    if n.tick < TICKS_PER_BAR {
        ctx.opening_chord@
    } else {
        ctx.ending_chord@
    }
}

/// What every call is: notes from the harp's plain blow/draw vocabulary,
/// in order and never overlapping, all over by [`call_space_tick`]; a note
/// outside its bar's chord always followed by a chord tone; the last note
/// a chord tone of its bar; and consecutive notes of one bar a single
/// playable move apart.
pub open spec fn call_well_formed(ctx: &CallContext, call: Seq<CallNote>) -> bool {
    &&& forall|k: int| 0 <= k < call.len() ==> ctx.playable@.contains(#[trigger] call[k].note)
    &&& forall|k: int| 0 <= k < call.len() - 1 ==> #[trigger] note_ends_before_next(call, k)
    &&& forall|k: int| 0 <= k < call.len() ==> #[trigger] call[k].tick + call[k].len <= spec_call_space_tick()
    &&& forall|k: int| 0 <= k < call.len() - 1 ==> #[trigger] call_resolves_next(ctx, call, k)
    &&& call.len() > 0 ==> is_chord_tone(bar_chord(ctx, call.last()), call.last().note)
    &&& forall|k: int| 0 <= k < call.len() - 1 ==> #[trigger] call_moves_ok(call, k)
}

/// Call note `k` ends by the time note `k + 1` starts.
pub open spec fn note_ends_before_next(call: Seq<CallNote>, k: int) -> bool {
    call[k].tick + call[k].len <= call[k + 1].tick
}

/// A call note outside its bar's chord is followed by a chord tone of the
/// next note's bar.
pub open spec fn call_resolves_next(ctx: &CallContext, call: Seq<CallNote>, k: int) -> bool {
    !is_chord_tone(bar_chord(ctx, call[k]), call[k].note) ==> is_chord_tone(bar_chord(ctx, call[k + 1]), call[k + 1].note)
}

/// Two consecutive call notes of the same bar are one playable move apart.
pub open spec fn call_moves_ok(call: Seq<CallNote>, k: int) -> bool {
    (call[k].tick < TICKS_PER_BAR) == (call[k + 1].tick < TICKS_PER_BAR) ==> spec_transition_ok(
        call[k].note,
        call[k + 1].note,
    )
}

/// Where the call crosses into its answering bar, the move is playable
/// whenever the opening's last note could reach a chord tone of the
/// answering bar at all.
pub open spec fn bar_line_move_ok(ctx: &CallContext, call: Seq<CallNote>, k: int) -> bool {
    call[k].tick < TICKS_PER_BAR && call[k + 1].tick >= TICKS_PER_BAR && spec_can_resolve(
        ctx.playable@,
        ctx.ending_chord@,
        call[k].note,
    ) ==> spec_transition_ok(call[k].note, call[k + 1].note)
}

/// The call's rhythm is one of its density's opening cells, followed by
/// one of its ending cells (or nothing, when the answer had no chord tone
/// to sing).
pub open spec fn call_rhythm_from_cells(ctx: &CallContext, call: Seq<CallNote>) -> bool {
    exists|oi: int, ei: int, op: Seq<PlayableNote>, ap: Seq<PlayableNote>|
        #![trigger spec_laid_out(spec_openings(ctx.density)[oi], op, 0, ctx.swung), spec_laid_out(spec_endings(ctx.density)[ei], ap, 1, ctx.swung)]
        0 <= oi < spec_openings(ctx.density).len() && 0 <= ei < spec_endings(ctx.density).len() && op.len()
            == spec_openings(ctx.density)[oi].len() && (ap.len() == 0 || ap.len() == spec_endings(
            ctx.density,
        )[ei].len()) && call == spec_laid_out(spec_openings(ctx.density)[oi], op, 0, ctx.swung)
            + spec_laid_out(spec_endings(ctx.density)[ei], ap, 1, ctx.swung)
}

/// A cell entry lasts from its slot to its end slot, less the gap.
proof fn lemma_slot_span_end(slot: int, len: int, swung: bool)
    requires
        0 <= slot,
        len >= 1,
        slot + len <= SLOTS_PER_BAR,
    ensures
        spec_slot_span(slot, len, swung).0 == spec_slot_tick(slot, swung),
        spec_slot_span(slot, len, swung).0 + spec_slot_span(slot, len, swung).1 == spec_slot_tick(slot + len, swung) - 1,
        spec_slot_span(slot, len, swung).0 < TICKS_PER_BAR,
{
    lemma_slot_tick_increases(slot, slot + len, swung);
}

/// One laid-out note stays inside its bar and ends by the cell's last
/// slot.
proof fn lemma_laid_out_entry(
    cell: Seq<(u8, u8)>,
    pitches: Seq<PlayableNote>,
    bar: int,
    swung: bool,
    last_slot: int,
    k: int,
)
    requires
        cell_fits(cell, last_slot),
        last_slot <= SLOTS_PER_BAR,
        bar == 0 || bar == 1,
        cell.len() <= pitches.len(),
        0 <= k < cell.len(),
    ensures
        ({
            let n = spec_laid_out(cell, pitches, bar, swung)[k];
            &&& n.note == pitches[k]
            &&& bar * TICKS_PER_BAR <= n.tick < bar * TICKS_PER_BAR + TICKS_PER_BAR
            &&& n.tick + n.len <= bar * TICKS_PER_BAR + spec_slot_tick(last_slot, swung) - 1
            &&& n.tick + n.len == bar * TICKS_PER_BAR + spec_slot_tick(cell[k].0 + cell[k].1, swung) - 1
            &&& n.tick == bar * TICKS_PER_BAR + spec_slot_tick(cell[k].0 as int, swung)
        }),
{
    lemma_cell_ends_by(cell, last_slot, k);
    assert(cell[k].1 >= 1);
    lemma_slot_span_end(cell[k].0 as int, cell[k].1 as int, swung);
    if cell[k].0 + cell[k].1 < last_slot {
        lemma_slot_tick_increases(cell[k].0 + cell[k].1, last_slot, swung);
    }
}

/// Notes laid onto a fitting cell stay inside their bar, in order, never
/// overlapping, and end by the cell's last slot.
proof fn lemma_laid_out_bar(cell: Seq<(u8, u8)>, pitches: Seq<PlayableNote>, bar: int, swung: bool, last_slot: int)
    requires
        cell_fits(cell, last_slot),
        last_slot <= SLOTS_PER_BAR,
        bar == 0 || bar == 1,
        cell.len() <= pitches.len(),
    ensures
        ({
            let l = spec_laid_out(cell, pitches, bar, swung);
            &&& l.len() == cell.len()
            &&& forall|k: int| 0 <= k < l.len() ==> #[trigger] l[k].note == pitches[k]
            &&& forall|k: int|
                0 <= k < l.len() ==> bar * TICKS_PER_BAR <= #[trigger] l[k].tick < bar * TICKS_PER_BAR + TICKS_PER_BAR
            &&& forall|k: int|
                0 <= k < l.len() ==> #[trigger] l[k].tick + l[k].len <= bar * TICKS_PER_BAR + spec_slot_tick(
                    last_slot,
                    swung,
                ) - 1
            &&& forall|k: int| 0 <= k < l.len() - 1 ==> #[trigger] note_ends_before_next(l, k)
        }),
{
    let l = spec_laid_out(cell, pitches, bar, swung);
    assert forall|k: int| 0 <= k < l.len() implies #[trigger] l[k].note == pitches[k] by {
        lemma_laid_out_entry(cell, pitches, bar, swung, last_slot, k);
    }
    assert forall|k: int| 0 <= k < l.len() implies bar * TICKS_PER_BAR <= #[trigger] l[k].tick < bar
        * TICKS_PER_BAR + TICKS_PER_BAR by {
        lemma_laid_out_entry(cell, pitches, bar, swung, last_slot, k);
    }
    assert forall|k: int| 0 <= k < l.len() implies #[trigger] l[k].tick + l[k].len <= bar * TICKS_PER_BAR
        + spec_slot_tick(last_slot, swung) - 1 by {
        lemma_laid_out_entry(cell, pitches, bar, swung, last_slot, k);
    }
    assert forall|k: int| 0 <= k < l.len() - 1 implies #[trigger] note_ends_before_next(l, k) by {
        lemma_laid_out_entry(cell, pitches, bar, swung, last_slot, k);
        lemma_laid_out_entry(cell, pitches, bar, swung, last_slot, k + 1);
        assert(ends_before_next_entry(cell, k));
        if cell[k].0 + cell[k].1 < cell[k + 1].0 {
            lemma_slot_tick_increases(cell[k].0 + cell[k].1, cell[k + 1].0 as int, swung);
        }
    }
}

/// Every entry of a fitting cell ends by its last slot.
proof fn lemma_cell_ends_by(cell: Seq<(u8, u8)>, last_slot: int, k: int)
    requires
        cell_fits(cell, last_slot),
        0 <= k < cell.len(),
    ensures
        cell[k].0 + cell[k].1 <= last_slot,
    decreases cell.len() - k,
{
    if k < cell.len() - 1 {
        lemma_cell_ends_by(cell, last_slot, k + 1);
        assert(ends_before_next_entry(cell, k));
        assert(cell[k + 1].1 >= 1);
    }
}

/// The opening bar laid out over its chord, and the answering bar over its
/// own, make a well-formed call.
proof fn lemma_call_well_formed(
    ctx: &CallContext,
    oc: Seq<(u8, u8)>,
    ec: Seq<(u8, u8)>,
    o: Seq<PlayableNote>,
    a: Seq<PlayableNote>,
)
    requires
        cell_fits(oc, SLOTS_PER_BAR as int),
        oc.len() >= 1,
        cell_fits(ec, ENDING_LAST_SLOT as int),
        o.len() == oc.len(),
        bar_line_ok(ctx.playable@, ctx.opening_chord@, o),
        a.len() == 0 || a.len() == ec.len(),
        a.len() > 0 ==> bar_line_ok(ctx.playable@, ctx.ending_chord@, a),
        a.len() > 0 ==> is_chord_tone(ctx.ending_chord@, a[0]),
        a.len() > 0 ==> is_chord_tone(ctx.ending_chord@, a.last()),
        a.len() == 0 ==> is_chord_tone(ctx.opening_chord@, o.last()),
    ensures
        call_well_formed(
            ctx,
            spec_laid_out(oc, o, 0, ctx.swung) + spec_laid_out(ec, a, 1, ctx.swung),
        ),
        (spec_laid_out(oc, o, 0, ctx.swung) + spec_laid_out(ec, a, 1, ctx.swung)).len() == o.len() + a.len(),
        (spec_laid_out(oc, o, 0, ctx.swung) + spec_laid_out(ec, a, 1, ctx.swung))[0].note == o[0],
{
    let swung = ctx.swung;
    let l1 = spec_laid_out(oc, o, 0, swung);
    let l2 = spec_laid_out(ec, a, 1, swung);
    let call = l1 + l2;
    lemma_laid_out_bar(oc, o, 0, swung, SLOTS_PER_BAR as int);
    lemma_slot_tick_increases(ENDING_LAST_SLOT as int, SLOTS_PER_BAR as int, swung);
    if a.len() > 0 {
        lemma_laid_out_bar(ec, a, 1, swung, ENDING_LAST_SLOT as int);
    } else {
        assert(l2.len() == 0);
    }
    assert(l2.len() == a.len());
    let n1 = l1.len();
    assert(l1[0].note == o[0]);
    assert(call[0] == l1[0]);
    assert forall|k: int| 0 <= k < call.len() implies #[trigger] call[k].tick < TICKS_PER_BAR <==> k < n1 by {
        if k < n1 {
            assert(call[k] == l1[k]);
        } else {
            assert(call[k] == l2[k - n1]);
        }
    }
    assert forall|k: int| 0 <= k < call.len() implies ctx.playable@.contains(#[trigger] call[k].note) by {
        if k < n1 {
            assert(call[k] == l1[k]);
            assert(l1[k].note == o[k]);
        } else {
            assert(call[k] == l2[k - n1]);
            assert(l2[k - n1].note == a[k - n1]);
        }
    }
    assert forall|k: int| 0 <= k < call.len() implies #[trigger] call[k].tick + call[k].len <= spec_call_space_tick() by {
        if k < n1 {
            assert(call[k] == l1[k]);
        } else {
            assert(call[k] == l2[k - n1]);
        }
    }
    assert forall|k: int| 0 <= k < call.len() - 1 implies #[trigger] note_ends_before_next(call, k) by {
        if k < n1 - 1 {
            assert(call[k] == l1[k] && call[k + 1] == l1[k + 1]);
            assert(note_ends_before_next(l1, k));
        } else if k == n1 - 1 {
            assert(call[k] == l1[k] && call[k + 1] == l2[0]);
        } else {
            assert(call[k] == l2[k - n1] && call[k + 1] == l2[k - n1 + 1]);
            assert(note_ends_before_next(l2, k - n1));
        }
    }
    assert forall|k: int| 0 <= k < call.len() - 1 implies #[trigger] call_resolves_next(ctx, call, k) && call_moves_ok(call, k) by {
        assert(call[k].tick < TICKS_PER_BAR <==> k < n1);
        assert(call[k + 1].tick < TICKS_PER_BAR <==> k + 1 < n1);
        if k < n1 - 1 {
            assert(call[k] == l1[k] && call[k + 1] == l1[k + 1]);
            assert(l1[k].note == o[k] && l1[k + 1].note == o[k + 1]);
            assert(moves_ok(o, k) && resolves_next(ctx.opening_chord@, o, k));
        } else if k == n1 - 1 {
            assert(call[k] == l1[k] && call[k + 1] == l2[0]);
            assert(l1[k].note == o[k] && l2[0].note == a[0]);
        } else {
            let j = k - n1;
            assert(call[k] == l2[j] && call[k + 1] == l2[j + 1]);
            assert(l2[j].note == a[j] && l2[j + 1].note == a[j + 1]);
            assert(moves_ok(a, j) && resolves_next(ctx.ending_chord@, a, j));
        }
    }
    assert forall|k: int| 0 <= k < call.len() - 1 implies #[trigger] call_moves_ok(call, k) by {
        assert(call_resolves_next(ctx, call, k));
    }
    if a.len() > 0 {
        assert(call.last() == l2[l2.len() - 1]);
        assert(l2[l2.len() - 1].note == a[a.len() - 1]);
        assert(call.last().tick >= TICKS_PER_BAR);
    } else {
        assert(call =~= l1);
        assert(call.last() == l1[n1 - 1]);
        assert(l1[n1 - 1].note == o[n1 - 1]);
    }
}

/// The answering contours a call picks from, in order.
pub open spec fn spec_call_contours() -> Seq<Contour> {
    seq![Contour::Repeat, Contour::Up, Contour::Down]
}

/// The call `generate_call` makes of `ctx`, drawn from the seed in order:
/// the opening cell, the ending cell, the contour, the opening bar's
/// pitches, then the answer; the last bar with notes resolved onto its
/// chord; both bars laid out onto their cells. Empty when the opening
/// chord has no playable tone.
pub open spec fn spec_generate_call(ctx: &CallContext) -> Seq<CallNote> {
    let s1 = Rng::stepped(ctx.seed);
    let oc = spec_openings(ctx.density)[splitmix_output(s1) as int % spec_openings(ctx.density).len() as int];
    let s2 = Rng::stepped(s1);
    let ec = spec_endings(ctx.density)[splitmix_output(s2) as int % spec_endings(ctx.density).len() as int];
    let s3 = Rng::stepped(s2);
    let contour = spec_call_contours()[splitmix_output(s3) as int % 3];
    let (opening, s4) = spec_opening_pitches(ctx, ctx.opening_chord@, oc.len() as int, s3);
    if opening.len() == 0 {
        Seq::empty()
    } else {
        let answer = spec_answer_pitches(ctx, ctx.ending_chord@, opening, ec.len() as int, contour, s4).0;
        if answer.len() == 0 {
            spec_laid_out(oc, spec_resolve_last(ctx, ctx.opening_chord@, opening), 0, ctx.swung)
                + spec_laid_out(ec, answer, 1, ctx.swung)
        } else {
            spec_laid_out(oc, opening, 0, ctx.swung) + spec_laid_out(
                ec,
                spec_resolve_last(ctx, ctx.ending_chord@, answer),
                1,
                ctx.swung,
            )
        }
    }
}

/// The same bars, harp, scale, feel, density and seed give the same call,
/// note for note: a call depends on nothing but its context.
pub proof fn law_the_same_seed_gives_the_same_call(a: &CallContext, b: &CallContext)
    requires
        a.playable@ == b.playable@,
        a.opening_chord@ == b.opening_chord@,
        a.ending_chord@ == b.ending_chord@,
        a.scale@ == b.scale@,
        a.swung == b.swung,
        a.density == b.density,
        a.seed == b.seed,
    ensures
        spec_generate_call(a) == spec_generate_call(b),
{
    broadcast use vstd::slice::group_slice_axioms;

    assert(a.playable =~= b.playable);
    PitchClassSet::lemma_view_determines(*a.opening_chord, *b.opening_chord);
    PitchClassSet::lemma_view_determines(*a.ending_chord, *b.ending_chord);
    PitchClassSet::lemma_view_determines(*a.scale, *b.scale);
    assert(*a == *b);
}

/// Generates one call: the opening bar's cell and motif, then the ending
/// bar's cell answered by contour, the whole thing resolved onto a chord
/// tone. Empty when the harp can't sound a single tone of the opening
/// chord.
pub fn generate_call(ctx: &CallContext) -> (call: Vec<CallNote>)
    requires
        ctx.playable@.len() <= u32::MAX / 4,
    ensures
        call@.len() == 0 <==> !has_chord_tone(ctx.playable@, ctx.opening_chord@),
        call_well_formed(ctx, call@),
        call@.len() > 0 ==> call_rhythm_from_cells(ctx, call@),
        call@.len() > 0 ==> is_chord_tone(ctx.opening_chord@, call@[0].note),
        forall|k: int|
            0 <= k < call@.len() - 1 && call@[k].tick < TICKS_PER_BAR ==> #[trigger] within_motif(
                call@[0].note,
                call@[k].note,
            ),
        forall|k: int| 0 <= k < call@.len() - 1 ==> #[trigger] bar_line_move_ok(ctx, call@, k),
        call@ == spec_generate_call(ctx),
{
    let mut rng = Rng(ctx.seed);
    let opening_cells = openings(ctx.density);
    let ending_cells = endings(ctx.density);
    proof {
        lemma_cells_fit(ctx.density);
    }
    let opening_cell: &Vec<(u8, u8)> = rng.pick(opening_cells.as_slice());
    let ghost oi = splitmix_output(rng.0) as int % opening_cells@.len() as int;
    let ending_cell: &Vec<(u8, u8)> = rng.pick(ending_cells.as_slice());
    let ghost ei = splitmix_output(rng.0) as int % ending_cells@.len() as int;
    let contours = vec![Contour::Repeat, Contour::Up, Contour::Down];
    assert(contours@ == spec_call_contours());
    let contour = *rng.pick(contours.as_slice());
    let ghost s3 = rng.0;
    let ghost oc = spec_openings(ctx.density)[oi];
    let ghost ec = spec_endings(ctx.density)[ei];
    assert(opening_cell@ == oc);
    assert(ending_cell@ == ec);
    let opening_cell = opening_cell.as_slice();
    let ending_cell = ending_cell.as_slice();
    let mut opening = opening_pitches(ctx, ctx.opening_chord, opening_cell.len(), &mut rng);
    if opening.len() == 0 {
        return Vec::new();
    }
    let ghost s4 = rng.0;
    let mut answer = answer_pitches(ctx, ctx.ending_chord, opening.as_slice(), ending_cell.len(), contour, &mut rng);
    let ghost opening0 = opening@;
    let ghost answer0 = answer@;
    if answer.len() == 0 {
        // The whole phrase is the opening bar; it still has to land.
        resolve_last(ctx, ctx.opening_chord, &mut opening);
    } else {
        resolve_last(ctx, ctx.ending_chord, &mut answer);
    }
    proof {
        assert forall|k: int| 0 <= k < oc.len() implies #[trigger] oc[k].0 + oc[k].1 <= SLOTS_PER_BAR by {
            lemma_cell_ends_by(oc, SLOTS_PER_BAR as int, k);
        }
        assert forall|k: int| 0 <= k < ec.len() implies #[trigger] ec[k].0 + ec[k].1 <= SLOTS_PER_BAR by {
            lemma_cell_ends_by(ec, ENDING_LAST_SLOT as int, k);
        }
    }
    let mut out = lay_out(opening_cell, opening.as_slice(), 0, ctx.swung);
    let mut tail = lay_out(ending_cell, answer.as_slice(), 1, ctx.swung);
    proof {
        lemma_call_well_formed(ctx, oc, ec, opening@, answer@);
        assert(opening_cell@ == oc);
    }
    let ghost l1 = out@;
    let ghost l2 = tail@;
    out.append(&mut tail);
    proof {
        lemma_laid_out_bar(oc, opening@, 0, ctx.swung, SLOTS_PER_BAR as int);
        if answer@.len() > 0 {
            lemma_laid_out_bar(ec, answer@, 1, ctx.swung, ENDING_LAST_SLOT as int);
        } else {
            assert(l2.len() == 0);
        }
        assert forall|k: int| 0 <= k < out@.len() - 1 && out@[k].tick < TICKS_PER_BAR implies #[trigger] within_motif(
            out@[0].note,
            out@[k].note,
        ) by {
            if k >= l1.len() {
                assert(out@[k] == l2[k - l1.len()]);
            }
            assert(out@[k] == l1[k]);
            assert(out@[0] == l1[0]);
            assert(within_motif(opening0[0], opening0[k]));
        }
        assert forall|k: int| 0 <= k < out@.len() - 1 implies #[trigger] bar_line_move_ok(ctx, out@, k) by {
            if out@[k].tick < TICKS_PER_BAR && out@[k + 1].tick >= TICKS_PER_BAR {
                if k + 1 < l1.len() {
                    assert(out@[k + 1] == l1[k + 1]);
                }
                if k >= l1.len() {
                    assert(out@[k] == l2[k - l1.len()]);
                }
                assert(k == l1.len() - 1);
                assert(answer@.len() > 0);
                assert(out@[k] == l1[k]);
                assert(out@[k + 1] == l2[0]);
                assert(answer@[0] == answer0[0]);
                assert(opening@ == opening0);
            }
        }
    }
    proof {
        assert(call_rhythm_from_cells(ctx, out@)) by {
            assert(out@ == spec_laid_out(spec_openings(ctx.density)[oi], opening@, 0, ctx.swung) + spec_laid_out(
                spec_endings(ctx.density)[ei],
                answer@,
                1,
                ctx.swung,
            ));
        }
    }
    out
}

} // verus!
