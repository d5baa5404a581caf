//! The generated band listening to the player without grading them.
//!
//! [`BandListener`] keeps a short rolling log of coarse activity — how many
//! fresh attacks landed in each beat and whether anything was sounding —
//! and makes two kinds of restrained decision from it, always at musical
//! boundaries and never about pitch: at the top of each four-bar phrase,
//! whether the comping should thin out for the coming phrase (it does after
//! a dense one, and stays put after silence), and at beat 3 of a phrase's
//! last bar, whether to answer a phrase the player has just finished with a
//! two-beat drum fill or chord push. Both are functions of the beat log
//! alone, so a recorded activity stream replays the same reactions, and
//! answers are rate-capped so microphone noise cannot make the arrangement
//! twitch.
use vstd::prelude::*;

verus! {

/// Generated jams are always 4/4 over a four-bar phrase structure.
pub const BEATS_PER_BAR: usize = 4;
pub const BARS_PER_PHRASE: usize = 4;
pub const BEATS_PER_PHRASE: usize = 16;
/// Beats the log remembers — two phrases, enough to tell a long silence
/// from a breath.
pub const LOG_BEATS: usize = 32;
/// Attacks per bar at which a phrase counts as dense — roughly steady
/// eighths and up.
pub const DENSE_ATTACKS_PER_BAR: u32 = 6;
/// Fewest attacks in a phrase for the band to treat it as a phrase worth
/// answering rather than a stray note or mic noise.
pub const MIN_PHRASE_ATTACKS: u32 = 4;
/// Beats of quiet before beat 3 of the last bar that read as "the phrase
/// has ended" — beats 1 and 2 of that bar.
pub const RELEASE_BEATS: usize = 2;
/// Fewest bars between two answers, so the band replies now and then, not
/// at every phrase end.
pub const ANSWER_MIN_GAP_BARS: usize = 8;

/// What the player did during one beat — counts and presence only, never
/// which notes.
#[derive(Clone, Copy, PartialEq, Eq, Structural, Debug)]
pub struct BeatActivity {
    pub attacks: u32,
    pub sounding: bool,
}

impl Default for BeatActivity {
    /// A beat in which nothing happened.
    fn default() -> (b: BeatActivity)
        ensures
            b == quiet_beat(),
    {
        BeatActivity { attacks: 0, sounding: false }
    }
}

/// A beat with no attack and nothing sounding.
pub open spec fn quiet_beat() -> BeatActivity {
    BeatActivity { attacks: 0, sounding: false }
}

/// How busy a phrase was. Descriptive: none of these is better than another.
#[derive(Clone, Copy, PartialEq, Eq, Structural, Debug)]
pub enum PhraseDensity {
    Silent,
    Sparse,
    Dense,
}

/// The comping level the band wants: as rendered, or thinned for the
/// phrase after a dense one.
#[derive(Clone, Copy, PartialEq, Eq, Structural, Debug)]
pub enum CompingTarget {
    Full,
    Thinned,
}

/// A short reply the band may play in a phrase-end window when the player
/// has just finished a phrase: a drum fill or a chord push.
#[derive(Clone, Copy, PartialEq, Eq, Structural, Debug)]
pub enum BandAnswer {
    Drums,
    Chord,
}

/// Attacks summed over `beats`.
pub open spec fn attack_total(beats: Seq<BeatActivity>) -> int
    decreases beats.len(),
{
    if beats.len() == 0 {
        0
    } else {
        attack_total(beats.drop_last()) + beats.last().attacks
    }
}

/// A phrase's density by attacks per bar: silent without any attack,
/// dense at [`DENSE_ATTACKS_PER_BAR`] or more per bar of four beats.
pub open spec fn spec_phrase_density(beats: Seq<BeatActivity>) -> PhraseDensity {
    let total = attack_total(beats);
    if total == 0 {
        PhraseDensity::Silent
    } else if total * BEATS_PER_BAR >= DENSE_ATTACKS_PER_BAR * beats.len() {
        PhraseDensity::Dense
    } else {
        PhraseDensity::Sparse
    }
}

/// Thinned after a dense phrase, otherwise full — silence included.
pub open spec fn spec_comping_target_after(previous: PhraseDensity) -> CompingTarget {
    match previous {
        PhraseDensity::Dense => CompingTarget::Thinned,
        _ => CompingTarget::Full,
    }
}

/// Nothing attacked and nothing sounding.
pub open spec fn is_quiet(b: BeatActivity) -> bool {
    b.attacks == 0 && !b.sounding
}

/// The log after `a` is recorded: the oldest beat drops out once the log
/// holds [`LOG_BEATS`].
pub open spec fn logged(log: Seq<BeatActivity>, a: BeatActivity) -> Seq<BeatActivity> {
    if log.len() >= LOG_BEATS {
        log.drop_first().push(a)
    } else {
        log.push(a)
    }
}

/// The last phrase's worth of the log (all of it when shorter).
pub open spec fn phrase_window(log: Seq<BeatActivity>) -> Seq<BeatActivity> {
    log.subrange(if log.len() >= BEATS_PER_PHRASE { log.len() - BEATS_PER_PHRASE } else { 0 }, log.len() as int)
}

/// The log's tail up to beat 3 of the last bar, without its last
/// [`RELEASE_BEATS`]: the phrase's body.
pub open spec fn phrase_body(log: Seq<BeatActivity>) -> Seq<BeatActivity> {
    let n = log.len() as int;
    let reach = BEATS_PER_PHRASE - RELEASE_BEATS;
    log.subrange(if n >= reach { n - reach } else { 0 }, n - RELEASE_BEATS)
}

/// The phrase so far had at least [`MIN_PHRASE_ATTACKS`] attacks, and the
/// last [`RELEASE_BEATS`] were quiet — the player has stopped, not merely
/// paused between notes.
pub open spec fn spec_phrase_just_ended(log: Seq<BeatActivity>) -> bool {
    &&& log.len() >= RELEASE_BEATS
    &&& attack_total(phrase_body(log)) >= MIN_PHRASE_ATTACKS
    &&& forall|k: int| log.len() - RELEASE_BEATS <= k < log.len() ==> #[trigger] is_quiet(log[k])
}

/// `beat` (counted from the start of the jam) is beat 3 of a phrase's
/// last bar.
pub open spec fn is_answer_beat(beat: int) -> bool {
    (beat / BEATS_PER_BAR as int) % BARS_PER_PHRASE as int == BARS_PER_PHRASE - 1 && beat % BEATS_PER_BAR as int
        == RELEASE_BEATS
}

/// No answer yet, or the last one at least [`ANSWER_MIN_GAP_BARS`] bars
/// before `beat`.
pub open spec fn spec_answer_allowed(last: Option<usize>, beat: int) -> bool {
    match last {
        None => true,
        Some(l) => beat - l >= ANSWER_MIN_GAP_BARS * BEATS_PER_BAR,
    }
}

/// The `count`-th answer (counting from 1): drums, chord, drums, ...
pub open spec fn answer_kind(count: int) -> BandAnswer {
    if count % 2 == 1 {
        BandAnswer::Drums
    } else {
        BandAnswer::Chord
    }
}

/// What a [`BandListener`] holds: its beat log, the comping it wants, the
/// beat of its latest answer and how many answers it has given.
pub struct ListenerState {
    pub log: Seq<BeatActivity>,
    pub comping: CompingTarget,
    pub last_answer: Option<usize>,
    pub answers: nat,
}

impl ListenerState {
    /// The state of a fresh listener.
    pub open spec fn initial() -> ListenerState {
        ListenerState { log: Seq::empty(), comping: CompingTarget::Full, last_answer: None, answers: 0 }
    }

    /// The log is bounded, its attacks fit a `u32`, and the answer count
    /// is bounded by the beat of the latest answer.
    pub open spec fn wf(self) -> bool {
        &&& self.log.len() <= LOG_BEATS
        &&& attack_total(self.log) <= u32::MAX
        &&& match self.last_answer {
            None => self.answers == 0,
            Some(l) => self.answers * 32 <= l + 18,
        }
    }

    /// `beat` may be fed with `a`: beats come in order (none before the
    /// latest answer), `beat + 1` is a `usize`, and the log's attacks with
    /// `a`'s still fit a `u32`.
    pub open spec fn accepts(self, beat: int, a: BeatActivity) -> bool {
        &&& beat < usize::MAX
        &&& attack_total(self.log) + a.attacks <= u32::MAX
        &&& match self.last_answer {
            None => true,
            Some(l) => l <= beat + 1,
        }
    }

    /// The state after beat `beat` completes with `a`, and the answer due
    /// as the next beat begins: the comping is re-decided at the top of
    /// each phrase from the phrase just heard; an answer comes on beat 3 of
    /// a phrase's last bar when the phrase has just ended and the last
    /// answer is far enough back.
    pub open spec fn observed(self, beat: int, a: BeatActivity) -> (ListenerState, Option<BandAnswer>) {
        let log = logged(self.log, a);
        let next = beat + 1;
        let comping = if next % BEATS_PER_PHRASE as int == 0 {
            spec_comping_target_after(spec_phrase_density(phrase_window(log)))
        } else {
            self.comping
        };
        if is_answer_beat(next) && spec_phrase_just_ended(log) && spec_answer_allowed(self.last_answer, next) {
            (
                ListenerState { log, comping, last_answer: Some(next as usize), answers: self.answers + 1 },
                Some(answer_kind(self.answers + 1int)),
            )
        } else {
            (ListenerState { log, comping, last_answer: self.last_answer, answers: self.answers }, None)
        }
    }

    /// Quiet beats `from..to` fed after `answer` was due: the state after
    /// them and the latest answer due.
    pub open spec fn replay_quiet(self, from: int, to: int, answer: Option<BandAnswer>) -> (
        ListenerState,
        Option<BandAnswer>,
    )
        decreases to - from,
    {
        if from >= to {
            (self, answer)
        } else {
            let (s, r) = self.observed(from, quiet_beat());
            s.replay_quiet(from + 1, to, if r is Some { r } else { answer })
        }
    }

    /// Beat `beat` fed with `a`, then every beat before `current` as quiet
    /// — but no more of them than the log can hold.
    pub open spec fn observed_until(self, beat: int, a: BeatActivity, current: int) -> (
        ListenerState,
        Option<BandAnswer>,
    ) {
        let (s, r) = self.observed(beat, a);
        let skip_from = if current - LOG_BEATS > beat + 1 { current - LOG_BEATS } else { beat + 1 };
        s.replay_quiet(skip_from, current, r)
    }
}

/// An answer only ever comes as beat 3 of a phrase's last bar begins.
pub proof fn law_answers_fall_on_beat_three_of_a_last_bar(s: ListenerState, beat: int, a: BeatActivity)
    requires
        beat >= 0,
    ensures
        s.observed(beat, a).1 is Some ==> (beat + 1) % (BEATS_PER_PHRASE as int) == (BARS_PER_PHRASE - 1)
            * BEATS_PER_BAR + RELEASE_BEATS,
{
    let next = beat + 1;
    if s.observed(beat, a).1 is Some {
        assert(is_answer_beat(next));
        let q = next / 4;
        assert(next == 4 * q + 2);
        assert(q % 4 == 3);
        assert(next % 16 == 14) by (nonlinear_arith)
            requires
                next == 4 * q + 2,
                q % 4 == 3,
                q >= 0,
        ;
    }
}

/// Two answers are always at least [`ANSWER_MIN_GAP_BARS`] bars apart.
pub proof fn law_answers_keep_their_distance(s: ListenerState, beat: int, a: BeatActivity)
    ensures
        s.observed(beat, a).1 is Some && s.last_answer is Some ==> beat + 1 - s.last_answer.unwrap()
            >= ANSWER_MIN_GAP_BARS * BEATS_PER_BAR,
        s.observed(beat, a).1 is Some ==> s.observed(beat, a).0.last_answer == Some((beat + 1) as usize),
{
}

/// The band's first answer is a drum fill, and each answer after it is
/// the other kind from the one before.
pub proof fn law_answers_alternate(
    s: ListenerState,
    first_beat: int,
    first: BeatActivity,
    t: ListenerState,
    second_beat: int,
    second: BeatActivity,
)
    requires
        s.observed(first_beat, first).1 is Some,
        t.answers == s.observed(first_beat, first).0.answers,
        t.observed(second_beat, second).1 is Some,
    ensures
        s.answers == 0 ==> s.observed(first_beat, first).1 == Some(BandAnswer::Drums),
        s.observed(first_beat, first).1 != t.observed(second_beat, second).1,
{
}

/// The comping only ever changes as a new phrase begins.
pub proof fn law_comping_changes_only_at_phrase_boundaries(s: ListenerState, beat: int, a: BeatActivity)
    ensures
        (beat + 1) % (BEATS_PER_PHRASE as int) != 0 ==> s.observed(beat, a).0.comping == s.comping,
{
}

/// No attack heard means no attacks counted.
proof fn lemma_attack_total_silent(log: Seq<BeatActivity>)
    requires
        forall|k: int| 0 <= k < log.len() ==> #[trigger] log[k].attacks == 0,
    ensures
        attack_total(log) == 0,
    decreases log.len(),
{
    if log.len() > 0 {
        lemma_attack_total_silent(log.drop_last());
    }
}

/// Silence is left alone, not filled: after nothing but quiet beats the
/// band never answers, and a phrase boundary brings the comping back to
/// full.
pub proof fn law_silence_is_left_alone(s: ListenerState, beat: int)
    requires
        forall|k: int| 0 <= k < s.log.len() ==> #[trigger] s.log[k].attacks == 0,
    ensures
        s.observed(beat, quiet_beat()).1 is None,
        (beat + 1) % (BEATS_PER_PHRASE as int) == 0 ==> s.observed(beat, quiet_beat()).0.comping
            == CompingTarget::Full,
{
    let log = logged(s.log, quiet_beat());
    assert forall|k: int| 0 <= k < log.len() implies #[trigger] log[k].attacks == 0 by {
        if s.log.len() >= LOG_BEATS {
            if k < log.len() - 1 {
                assert(log[k] == s.log[k + 1]);
            }
        } else {
            if k < log.len() - 1 {
                assert(log[k] == s.log[k]);
            }
        }
    }
    let window = phrase_window(log);
    assert forall|k: int| 0 <= k < window.len() implies #[trigger] window[k].attacks == 0 by {
        assert(window[k] == log[k + (log.len() - window.len())]);
    }
    lemma_attack_total_silent(window);
    let body = phrase_body(log);
    if log.len() >= RELEASE_BEATS {
        assert forall|k: int| 0 <= k < body.len() implies #[trigger] body[k].attacks == 0 by {
            assert(body[k] == log[k + (log.len() - RELEASE_BEATS - body.len())]);
        }
        lemma_attack_total_silent(body);
    }
}

/// Observing an accepted beat keeps the listener's state well formed.
pub proof fn law_observing_keeps_the_state_well_formed(s: ListenerState, beat: int, a: BeatActivity)
    requires
        s.wf(),
        s.accepts(beat, a),
        beat >= 0,
    ensures
        s.observed(beat, a).0.wf(),
{
    lemma_attack_total_logged(s.log, a);
    let next = beat + 1;
    if s.observed(beat, a).1 is Some {
        assert(next >= 14) by (nonlinear_arith)
            requires
                (next / 4) % 4 == 3,
                next % 4 == 2,
                next >= 0,
        {
            let q = next / 4;
            assert(next == 4 * q + next % 4);
        }
    }
}

/// A fresh listener fed beats `0..n` of `acts` in order, each once: the
/// state it is left in.
pub open spec fn run_state(acts: Seq<BeatActivity>, n: int) -> ListenerState
    decreases n,
{
    if n <= 0 {
        ListenerState::initial()
    } else {
        run_state(acts, n - 1).observed(n - 1, acts[n - 1]).0
    }
}

/// What the listener of that run returns when beat `b` is fed.
pub open spec fn run_answer(acts: Seq<BeatActivity>, b: int) -> Option<BandAnswer> {
    run_state(acts, b).observed(b, acts[b]).1
}

/// How many answers the run gave while beats `0..n` were fed.
pub open spec fn answers_given(acts: Seq<BeatActivity>, n: int) -> int
    decreases n,
{
    if n <= 0 {
        0
    } else {
        answers_given(acts, n - 1) + if run_answer(acts, n - 1) is Some {
            1int
        } else {
            0int
        }
    }
}

/// What a run's state holds after `n` beats: the log is the last (up
/// to [`LOG_BEATS`]) beats fed, the answer count is the answers given, and
/// the latest answer, if any, began after one of those beats and no later
/// than beat `n`, and after every beat that was answered.
proof fn lemma_run_state(acts: Seq<BeatActivity>, n: int)
    requires
        0 <= n <= acts.len(),
        acts.len() < usize::MAX,
    ensures
        run_state(acts, n).log == acts.subrange(if n >= LOG_BEATS { n - LOG_BEATS } else { 0 }, n),
        run_state(acts, n).answers == answers_given(acts, n),
        run_state(acts, n).last_answer matches Some(l) ==> 1 <= l <= n,
        forall|b: int|
            0 <= b < n && #[trigger] run_answer(acts, b) is Some ==> (run_state(acts, n).last_answer matches Some(
                l,
            ) && b + 1 <= l),
    decreases n,
{
    if n > 0 {
        lemma_run_state(acts, n - 1);
        let s = run_state(acts, n - 1);
        let lo2 = if n >= LOG_BEATS { n - LOG_BEATS } else { 0 };
        assert(logged(s.log, acts[n - 1]) =~= acts.subrange(lo2, n));
        assert forall|b: int| 0 <= b < n && #[trigger] run_answer(acts, b) is Some implies (run_state(
            acts,
            n,
        ).last_answer matches Some(l) && b + 1 <= l) by {
            if b < n - 1 {
                assert(s.last_answer matches Some(l) && b + 1 <= l);
            }
        }
    }
}

/// Over a whole run from a fresh listener, fed beats 0, 1, 2, ... each
/// once: an answer comes only as beat 3 of a phrase's last bar begins,
/// after two quiet beats; the answers go drums, chord, drums, ... (the
/// `k`-th is `answer_kind(k)`); any two are at least
/// [`ANSWER_MIN_GAP_BARS`] bars apart; and the comping only changes as a
/// phrase begins.
pub proof fn law_a_run_answers_in_turn(acts: Seq<BeatActivity>, b: int, c: int)
    requires
        0 <= b < acts.len(),
        acts.len() < usize::MAX,
    ensures
        run_answer(acts, b) is Some ==> {
            &&& (b + 1) % (BEATS_PER_PHRASE as int) == (BARS_PER_PHRASE - 1) * BEATS_PER_BAR + RELEASE_BEATS
            &&& b >= 1 && is_quiet(acts[b]) && is_quiet(acts[b - 1])
            &&& run_answer(acts, b) == Some(answer_kind(answers_given(acts, b + 1)))
            &&& answers_given(acts, b + 1) == answers_given(acts, b) + 1
        },
        b < c < acts.len() && run_answer(acts, b) is Some && run_answer(acts, c) is Some ==> c - b
            >= ANSWER_MIN_GAP_BARS * BEATS_PER_BAR,
        (b + 1) % (BEATS_PER_PHRASE as int) != 0 ==> run_state(acts, b + 1).comping == run_state(acts, b).comping,
{
    lemma_run_state(acts, b);
    lemma_run_state(acts, b + 1);
    let s = run_state(acts, b);
    law_answers_fall_on_beat_three_of_a_last_bar(s, b, acts[b]);
    if run_answer(acts, b) is Some {
        let log = logged(s.log, acts[b]);
        let n = b + 1;
        assert(run_state(acts, n).log == log);
        assert(spec_phrase_just_ended(log));
        assert(n >= 14);
        assert(is_quiet(log[log.len() - 1]));
        assert(is_quiet(log[log.len() - 2]));
        assert(log[log.len() - 1] == acts[b]);
        assert(log[log.len() - 2] == acts[b - 1]);
    }
    if b < c < acts.len() && run_answer(acts, b) is Some && run_answer(acts, c) is Some {
        lemma_run_state(acts, c);
        assert(run_state(acts, c).last_answer matches Some(l) && b + 1 <= l);
    }
}

/// At every phrase boundary the comping is decided on the whole phrase
/// just heard — the last [`BEATS_PER_PHRASE`] beats of the log, or all of
/// it while it is shorter — and on nothing earlier: it thins exactly when
/// that phrase held at least [`DENSE_ATTACKS_PER_BAR`] attacks per bar of
/// [`BEATS_PER_BAR`] beats.
pub proof fn law_comping_judges_the_whole_last_phrase(s: ListenerState, beat: int, a: BeatActivity)
    requires
        (beat + 1) % (BEATS_PER_PHRASE as int) == 0,
    ensures
        ({
            let log = logged(s.log, a);
            let n = log.len() as int;
            let w = if n >= BEATS_PER_PHRASE { BEATS_PER_PHRASE as int } else { n };
            let total = attack_total(log.subrange(n - w, n));
            &&& (s.observed(beat, a).0.comping == CompingTarget::Thinned) <==> (total > 0 && total
                * BEATS_PER_BAR >= DENSE_ATTACKS_PER_BAR * w)
            &&& (s.observed(beat, a).0.comping == CompingTarget::Full) <==> !(total > 0 && total
                * BEATS_PER_BAR >= DENSE_ATTACKS_PER_BAR * w)
        }),
{
}

/// Over a run from a fresh listener, the comping at the end of each
/// whole phrase is decided by exactly that phrase's
/// [`BEATS_PER_PHRASE`] beats: thinned when they held at least
/// [`DENSE_ATTACKS_PER_BAR`] attacks per bar, full otherwise.
pub proof fn law_a_run_thins_after_a_dense_phrase(acts: Seq<BeatActivity>, n: int)
    requires
        BEATS_PER_PHRASE <= n <= acts.len(),
        n % (BEATS_PER_PHRASE as int) == 0,
        acts.len() < usize::MAX,
    ensures
        ({
            let total = attack_total(acts.subrange(n - BEATS_PER_PHRASE, n));
            (run_state(acts, n).comping == CompingTarget::Thinned) <==> (total > 0 && total * BEATS_PER_BAR
                >= DENSE_ATTACKS_PER_BAR * BEATS_PER_PHRASE)
        }),
{
    lemma_run_state(acts, n - 1);
    lemma_run_state(acts, n);
    let s = run_state(acts, n - 1);
    law_comping_judges_the_whole_last_phrase(s, n - 1, acts[n - 1]);
    let log = logged(s.log, acts[n - 1]);
    assert(log == run_state(acts, n).log);
    let lo = if n >= LOG_BEATS { n - LOG_BEATS } else { 0 };
    assert(log.len() == n - lo);
    assert(log.subrange(log.len() - BEATS_PER_PHRASE, log.len() as int) =~= acts.subrange(
        n - BEATS_PER_PHRASE,
        n,
    ));
}

/// Summing a concatenation sums its parts.
proof fn lemma_attack_total_concat(a: Seq<BeatActivity>, b: Seq<BeatActivity>)
    ensures
        attack_total(a + b) == attack_total(a) + attack_total(b),
    decreases b.len(),
{
    if b.len() > 0 {
        lemma_attack_total_concat(a, b.drop_last());
        assert((a + b).drop_last() =~= a + b.drop_last());
    } else {
        assert(a + b =~= a);
    }
}

/// Attacks are never negative.
proof fn lemma_attack_total_nonneg(s: Seq<BeatActivity>)
    ensures
        attack_total(s) >= 0,
    decreases s.len(),
{
    if s.len() > 0 {
        lemma_attack_total_nonneg(s.drop_last());
    }
}

/// A stretch of the log holds no more attacks than the whole log.
proof fn lemma_attack_total_subrange(s: Seq<BeatActivity>, i: int, j: int)
    requires
        0 <= i <= j <= s.len(),
    ensures
        attack_total(s.subrange(i, j)) <= attack_total(s),
{
    let a = s.subrange(0, i);
    let b = s.subrange(i, j);
    let c = s.subrange(j, s.len() as int);
    assert(s =~= a + b + c);
    lemma_attack_total_concat(a + b, c);
    lemma_attack_total_concat(a, b);
    lemma_attack_total_nonneg(a);
    lemma_attack_total_nonneg(c);
}

/// Recording a beat adds its attacks, less those of a beat that drops out.
proof fn lemma_attack_total_logged(log: Seq<BeatActivity>, a: BeatActivity)
    requires
        log.len() <= LOG_BEATS,
    ensures
        attack_total(logged(log, a)) <= attack_total(log) + a.attacks,
        logged(log, a).len() <= LOG_BEATS,
{
    if log.len() >= LOG_BEATS {
        let first = seq![log[0]];
        assert(log =~= first + log.drop_first());
        lemma_attack_total_concat(first, log.drop_first());
        assert(first.drop_last() =~= Seq::<BeatActivity>::empty());
        assert(attack_total(first.drop_last()) == 0);
        assert(first.last() == log[0]);
        assert(attack_total(first) == log[0].attacks);
        assert(logged(log, a).drop_last() =~= log.drop_first());
        lemma_attack_total_nonneg(log.drop_first());
    } else {
        assert(logged(log, a).drop_last() =~= log);
    }
}

/// Attacks summed over `beats[from..to]`.
fn total_attacks(beats: &[BeatActivity], from: usize, to: usize) -> (t: u32)
    requires
        from <= to <= beats@.len(),
        attack_total(beats@.subrange(from as int, to as int)) <= u32::MAX,
    ensures
        t == attack_total(beats@.subrange(from as int, to as int)),
{
    let mut t: u32 = 0;
    let mut i: usize = from;
    while i < to
        invariant
            from <= i <= to <= beats@.len(),
            attack_total(beats@.subrange(from as int, to as int)) <= u32::MAX,
            t == attack_total(beats@.subrange(from as int, i as int)),
        decreases to - i,
    {
        proof {
            assert(beats@.subrange(from as int, i + 1).drop_last() =~= beats@.subrange(from as int, i as int));
            let whole = beats@.subrange(from as int, to as int);
            assert(beats@.subrange(from as int, i + 1) =~= whole.subrange(0, i + 1 - from));
            lemma_attack_total_subrange(whole, 0, i + 1 - from);
        }
        t = t + beats[i].attacks;
        i = i + 1;
    }
    t
}

/// A phrase of `len` beats with `total` attacks, classified.
fn classify(total: u32, len: usize) -> (d: PhraseDensity)
    ensures
        d == (if total == 0 {
            PhraseDensity::Silent
        } else if total * BEATS_PER_BAR >= DENSE_ATTACKS_PER_BAR * len {
            PhraseDensity::Dense
        } else {
            PhraseDensity::Sparse
        }),
{
    if total == 0 {
        PhraseDensity::Silent
    } else if (total as u128) * (BEATS_PER_BAR as u128) >= (DENSE_ATTACKS_PER_BAR as u128) * (len as u128) {
        PhraseDensity::Dense
    } else {
        PhraseDensity::Sparse
    }
}

/// Classifies `beats` (a whole phrase, or whatever part of one has passed)
/// by attacks per bar.
pub fn phrase_density(beats: &[BeatActivity]) -> (d: PhraseDensity)
    requires
        attack_total(beats@) <= u32::MAX,
    ensures
        d == spec_phrase_density(beats@),
{
    proof {
        assert(beats@.subrange(0, beats@.len() as int) =~= beats@);
    }
    let total = total_attacks(beats, 0, beats.len());
    classify(total, beats.len())
}

/// The comping for the phrase following one of `previous` density:
/// thinned after a dense phrase, otherwise full — silence included, so a
/// player who stops for a while hears the pocket held, not filled.
pub fn comping_target_after(previous: PhraseDensity) -> (c: CompingTarget)
    ensures
        c == spec_comping_target_after(previous),
{
    match previous {
        PhraseDensity::Dense => CompingTarget::Thinned,
        PhraseDensity::Sparse | PhraseDensity::Silent => CompingTarget::Full,
    }
}

/// The listener: fed one completed beat at a time, in order.
#[derive(Debug)]
pub struct BandListener {
    beats: Vec<BeatActivity>,
    comping_target: CompingTarget,
    last_answer_beat: Option<usize>,
    answers: usize,
}

impl View for BandListener {
    type V = ListenerState;

    closed spec fn view(&self) -> ListenerState {
        ListenerState {
            log: self.beats@,
            comping: self.comping_target,
            last_answer: self.last_answer_beat,
            answers: self.answers as nat,
        }
    }
}

impl Default for BandListener {
    /// A listener that has heard nothing yet, comping at full.
    fn default() -> (l: BandListener)
        ensures
            l@ == ListenerState::initial(),
    {
        BandListener { beats: Vec::new(), comping_target: CompingTarget::Full, last_answer_beat: None, answers: 0 }
    }
}

/// Whether the band reacts at all. On by default; off makes the generated
/// backing play exactly as rendered.
pub struct AdaptiveBand(pub bool);

impl Default for AdaptiveBand {
    fn default() -> (a: AdaptiveBand)
        ensures
            a.0,
    {
        AdaptiveBand(true)
    }
}

impl BandListener {
    #[verifier::type_invariant]
    closed spec fn inv(self) -> bool {
        self@.wf()
    }

    /// The comping the band currently wants.
    pub fn comping_target(&self) -> (c: CompingTarget)
        ensures
            c == self@.comping,
    {
        self.comping_target
    }

    /// The beat the latest answer began on, if any.
    pub fn last_answer_beat(&self) -> (b: Option<usize>)
        ensures
            b == self@.last_answer,
    {
        self.last_answer_beat
    }

    /// Attacks in the beat log.
    pub fn heard_attacks(&self) -> (t: u32)
        ensures
            t == attack_total(self@.log),
    {
        proof {
            use_type_invariant(self);
            assert(self.beats@.subrange(0, self.beats@.len() as int) =~= self.beats@);
        }
        total_attacks(self.beats.as_slice(), 0, self.beats.len())
    }

    /// Whether the phrase so far had enough in it to be a phrase, and the
    /// last [`RELEASE_BEATS`] were quiet.
    fn phrase_just_ended(&self) -> (r: bool)
        ensures
            r == spec_phrase_just_ended(self@.log),
    {
        proof {
            use_type_invariant(self);
        }
        let n = self.beats.len();
        if n < RELEASE_BEATS {
            return false;
        }
        let reach = BEATS_PER_PHRASE - RELEASE_BEATS;
        let start: usize = if n >= reach { n - reach } else { 0 };
        let split = n - RELEASE_BEATS;
        proof {
            lemma_attack_total_subrange(self.beats@, start as int, split as int);
        }
        let body_attacks = total_attacks(self.beats.as_slice(), start, split);
        let mut released = true;
        let mut k: usize = split;
        while k < n
            invariant
                split <= k <= n,
                n == self.beats@.len(),
                released <==> forall|j: int| split <= j < k ==> #[trigger] is_quiet(self.beats@[j]),
            decreases n - k,
        {
            let b = self.beats[k];
            assert(is_quiet(self.beats@[k as int]) == (b.attacks == 0 && !b.sounding));
            if b.attacks != 0 || b.sounding {
                released = false;
            }
            k = k + 1;
        }
        body_attacks >= MIN_PHRASE_ATTACKS && released
    }

    /// Whether an answer at `beat` keeps the gap to the last one.
    fn answer_allowed(&self, beat: usize) -> (r: bool)
        requires
            self@.last_answer matches Some(l) ==> l <= beat,
        ensures
            r == spec_answer_allowed(self@.last_answer, beat as int),
    {
        match self.last_answer_beat {
            None => true,
            Some(last) => beat - last >= ANSWER_MIN_GAP_BARS * BEATS_PER_BAR,
        }
    }

    /// Records the beat with index `beat` as complete and returns any
    /// answer due as the next beat begins. `beat` counts from the start of
    /// the jam; every beat is fed exactly once, in order.
    pub fn observe(&mut self, beat: usize, activity: BeatActivity) -> (r: Option<BandAnswer>)
        requires
            old(self)@.accepts(beat as int, activity),
        ensures
            (final(self)@, r) == old(self)@.observed(beat as int, activity),
    {
        proof {
            use_type_invariant(&*self);
            lemma_attack_total_logged(self.beats@, activity);
        }
        let mut log: Vec<BeatActivity> = Vec::new();
        std::mem::swap(&mut log, &mut self.beats);
        if log.len() == LOG_BEATS {
            log.remove(0);
        }
        log.push(activity);
        self.beats = log;
        proof {
            assert(self.beats@ =~= logged(old(self)@.log, activity));
        }
        let next = beat + 1;
        if next % BEATS_PER_PHRASE == 0 {
            let n = self.beats.len();
            let start: usize = if n >= BEATS_PER_PHRASE { n - BEATS_PER_PHRASE } else { 0 };
            proof {
                lemma_attack_total_subrange(self.beats@, start as int, n as int);
            }
            let total = total_attacks(self.beats.as_slice(), start, n);
            self.comping_target = comping_target_after(classify(total, n - start));
        }
        let bar_in_phrase = (next / BEATS_PER_BAR) % BARS_PER_PHRASE;
        let beat_in_bar = next % BEATS_PER_BAR;
        if bar_in_phrase == BARS_PER_PHRASE - 1 && beat_in_bar == RELEASE_BEATS && self.phrase_just_ended()
            && self.answer_allowed(next) {
            proof {
                assert((next / 4) % 4 == 3 && next % 4 == 2);
                assert(next >= 14) by (bit_vector)
                    requires
                        (next / 4) % 4 == 3,
                        next % 4 == 2,
                ;
            }
            self.last_answer_beat = Some(next);
            self.answers = self.answers + 1;
            return Some(if self.answers % 2 == 1 { BandAnswer::Drums } else { BandAnswer::Chord });
        }
        None
    }

    /// Records `beat` as complete with `activity`, then every beat before
    /// `current` as quiet — a frame long enough to skip a beat still feeds
    /// each one, so no phrase boundary is missed. A stall longer than the
    /// log replays only the beats the log can hold. Returns the latest
    /// answer due.
    pub fn observe_until(&mut self, beat: usize, activity: BeatActivity, current: usize) -> (r: Option<
        BandAnswer,
    >)
        requires
            old(self)@.accepts(beat as int, activity),
        ensures
            (final(self)@, r) == old(self)@.observed_until(beat as int, activity, current as int),
    {
        let ghost s0 = self@;
        let mut answer = self.observe(beat, activity);
        let ghost s1 = self@;
        let floor: usize = if current >= LOG_BEATS { current - LOG_BEATS } else { 0 };
        let from: usize = if beat + 1 >= floor { beat + 1 } else { floor };
        let ghost target = s1.replay_quiet(from as int, current as int, answer);
        assert(target == s0.observed_until(beat as int, activity, current as int));
        let mut k: usize = from;
        while k < current
            invariant
                from <= k || from >= current,
                self@.replay_quiet(k as int, current as int, answer) == target,
                self@.last_answer matches Some(l) ==> l <= k,
                k >= from,
            decreases current - k,
        {
            proof {
                use_type_invariant(&*self);
                lemma_attack_total_nonneg(self@.log);
            }
            let quiet = BeatActivity { attacks: 0, sounding: false };
            let r = self.observe(k, quiet);
            if r.is_some() {
                answer = r;
            }
            k = k + 1;
        }
        answer
    }
}

/// Beat-by-beat accumulation of what the player does between frames.
#[derive(Debug)]
pub struct BandTracker {
    pub beat_index: Option<usize>,
    pub current: BeatActivity,
    pub last_attack_total: u32,
}

/// What the band does as the clock moves on: the comping it wants now,
/// and any answer to play.
#[derive(Clone, Copy, PartialEq, Eq, Structural, Debug)]
pub struct BandReaction {
    pub comping: CompingTarget,
    pub answer: Option<BandAnswer>,
}

/// Fresh attacks counted since `last`, given a running total `total`.
pub open spec fn fresh_attacks(total: u32, last: u32) -> int {
    if total >= last {
        total - last
    } else {
        0
    }
}

impl BandTracker {
    /// A tracker for a new jam: no beat yet, nothing heard.
    pub fn fresh() -> (t: BandTracker)
        ensures
            t.beat_index is None,
            t.current == quiet_beat(),
            t.last_attack_total == 0,
    {
        BandTracker { beat_index: None, current: BeatActivity { attacks: 0, sounding: false }, last_attack_total: 0 }
    }

    /// Folds one frame into the current beat: the attacks the running
    /// total `attack_total` gained since the last frame, and whether
    /// anything is sounding now.
    pub fn hear(&mut self, attack_total: u32, sounding: bool)
        requires
            old(self).current.attacks + fresh_attacks(attack_total, old(self).last_attack_total) <= u32::MAX,
        ensures
            final(self).current.attacks == old(self).current.attacks + fresh_attacks(
                attack_total,
                old(self).last_attack_total,
            ),
            final(self).current.sounding == (old(self).current.sounding || sounding),
            final(self).last_attack_total == attack_total,
            final(self).beat_index == old(self).beat_index,
    {
        let gained: u32 = if attack_total >= self.last_attack_total { attack_total - self.last_attack_total } else { 0 };
        self.current.attacks = self.current.attacks + gained;
        self.last_attack_total = attack_total;
        self.current.sounding = self.current.sounding || sounding;
    }

    /// Moves the tracker to the clock's beat `beat` (`None` during the
    /// count-in). When a later beat has begun, the beat just completed and
    /// every one skipped are fed to `listener`. With the band switched off
    /// (`adaptive` false) the log still runs, but the comping stays full
    /// and nothing answers.
    pub fn advance(&mut self, beat: Option<usize>, adaptive: bool, listener: &mut BandListener) -> (r: BandReaction)
        requires
            beat is Some && old(self).beat_index is Some && beat.unwrap() > old(self).beat_index.unwrap()
                ==> old(listener)@.accepts(old(self).beat_index.unwrap() as int, old(self).current),
        ensures
            final(self).last_attack_total == old(self).last_attack_total,
            ({
                let fed = beat is Some && old(self).beat_index is Some && beat.unwrap()
                    > old(self).beat_index.unwrap();
                &&& fed ==> {
                    let (s, a) = old(listener)@.observed_until(
                        old(self).beat_index.unwrap() as int,
                        old(self).current,
                        beat.unwrap() as int,
                    );
                    &&& final(listener)@ == s
                    &&& final(self).current == quiet_beat()
                    &&& r.answer == if adaptive { a } else { None }
                }
                &&& !fed ==> {
                    &&& final(listener)@ == old(listener)@
                    &&& final(self).current == old(self).current
                    &&& r.answer is None
                }
            }),
            final(self).beat_index == if beat is Some { beat } else { old(self).beat_index },
            r.comping == if adaptive { final(listener)@.comping } else { CompingTarget::Full },
    {
        let mut answer: Option<BandAnswer> = None;
        if let Some(b) = beat {
            if let Some(prev) = self.beat_index {
                if b > prev {
                    let completed = self.current;
                    self.current = BeatActivity { attacks: 0, sounding: false };
                    answer = listener.observe_until(prev, completed, b);
                }
            }
            self.beat_index = Some(b);
        }
        let comping = if adaptive { listener.comping_target() } else { CompingTarget::Full };
        BandReaction { comping, answer: if adaptive { answer } else { None } }
    }
}

} // verus!
