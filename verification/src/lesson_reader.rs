//! What a lesson's page reads out of its manifest: the progression, scale
//! and positions its widgets name, and which of its five training tiers the
//! training panel opens on.
use vstd::prelude::*;

use crate::text::same_text;

verus! {

/// The chord changes of a 12-bar form.
#[derive(Clone, Copy, PartialEq, Eq, Structural, Debug)]
pub enum Progression {
    Standard,
    QuickChange,
    Minor,
    JazzBlues,
}

/// The scale a jam's notes are judged against.
#[derive(Clone, Copy, PartialEq, Eq, Structural, Debug)]
pub enum Scale {
    FirstPosition,
    SecondPosition,
    ThirdPosition,
    Major,
    MinorPentatonic,
    Country,
}

/// A harmonica position shown on the circle of fifths.
#[derive(Clone, Copy, PartialEq, Eq, Structural, Debug)]
pub enum Position {
    First,
    Second,
    Third,
    Fourth,
    Fifth,
    Twelfth,
}

/// One rung of a lesson's training ladder.
#[derive(Clone, Copy, PartialEq, Eq, Structural, Debug)]
pub enum Tier {
    Isolate,
    Consolidate,
    Vary,
    InContext,
    Interleave,
}

/// The tiers, in ladder order.
pub open spec fn spec_all_tiers() -> Seq<Tier> {
    seq![Tier::Isolate, Tier::Consolidate, Tier::Vary, Tier::InContext, Tier::Interleave]
}

/// A tier's 1-based place on the ladder.
pub open spec fn spec_tier_number(t: Tier) -> int {
    match t {
        Tier::Isolate => 1,
        Tier::Consolidate => 2,
        Tier::Vary => 3,
        Tier::InContext => 4,
        Tier::Interleave => 5,
    }
}

impl Tier {
    /// Every tier, in ladder order.
    pub fn all() -> (all: Vec<Tier>)
        ensures
            all@ == spec_all_tiers(),
    {
        vec![Tier::Isolate, Tier::Consolidate, Tier::Vary, Tier::InContext, Tier::Interleave]
    }

    /// The tier's 1-based place on the ladder.
    pub fn number(self) -> (n: u8)
        ensures
            n == spec_tier_number(self),
    {
        match self {
            Tier::Isolate => 1,
            Tier::Consolidate => 2,
            Tier::Vary => 3,
            Tier::InContext => 4,
            Tier::Interleave => 5,
        }
    }
}

/// The progression a manifest's `progression` field names.
pub open spec fn spec_parse_progression(s: Option<Seq<char>>) -> Progression {
    if s == Some("quick-change"@) {
        Progression::QuickChange
    } else if s == Some("minor"@) {
        Progression::Minor
    } else if s == Some("jazz-blues"@) {
        Progression::JazzBlues
    } else {
        Progression::Standard
    }
}

/// The text of an optional string.
pub open spec fn opt_text(s: Option<&str>) -> Option<Seq<char>> {
    match s {
        Some(t) => Some(t@),
        None => None,
    }
}

/// Parses a lesson manifest's `progression` field into the progression it
/// names. Absent or unrecognized both fall back to `Standard`.
pub fn parse_progression(s: Option<&str>) -> (p: Progression)
    ensures
        p == spec_parse_progression(opt_text(s)),
{
    match s {
        Some(t) => {
            if same_text(t, "quick-change") {
                Progression::QuickChange
            } else if same_text(t, "minor") {
                Progression::Minor
            } else if same_text(t, "jazz-blues") {
                Progression::JazzBlues
            } else {
                Progression::Standard
            }
        },
        None => Progression::Standard,
    }
}

/// The scale a manifest's `scale` field names.
pub open spec fn spec_parse_scale(s: Option<Seq<char>>) -> Scale {
    if s == Some("second-position"@) {
        Scale::SecondPosition
    } else if s == Some("third-position"@) {
        Scale::ThirdPosition
    } else if s == Some("major"@) {
        Scale::Major
    } else if s == Some("minor-pentatonic"@) {
        Scale::MinorPentatonic
    } else if s == Some("country"@) {
        Scale::Country
    } else {
        Scale::FirstPosition
    }
}

/// Parses a lesson manifest's `scale` field into the scale it names.
/// Absent or unrecognized both fall back to `FirstPosition` (the blues
/// hexatonic).
pub fn parse_scale(s: Option<&str>) -> (sc: Scale)
    ensures
        sc == spec_parse_scale(opt_text(s)),
{
    match s {
        Some(t) => {
            if same_text(t, "second-position") {
                Scale::SecondPosition
            } else if same_text(t, "third-position") {
                Scale::ThirdPosition
            } else if same_text(t, "major") {
                Scale::Major
            } else if same_text(t, "minor-pentatonic") {
                Scale::MinorPentatonic
            } else if same_text(t, "country") {
                Scale::Country
            } else {
                Scale::FirstPosition
            }
        },
        None => Scale::FirstPosition,
    }
}

/// The position a circle-of-fifths widget's position name stands for.
pub open spec fn spec_position_named(name: Seq<char>) -> Option<Position> {
    if name == "first"@ {
        Some(Position::First)
    } else if name == "second"@ {
        Some(Position::Second)
    } else if name == "third"@ {
        Some(Position::Third)
    } else if name == "fourth"@ {
        Some(Position::Fourth)
    } else if name == "fifth"@ {
        Some(Position::Fifth)
    } else if name == "twelfth"@ {
        Some(Position::Twelfth)
    } else {
        None
    }
}

/// Every position, in circle order.
pub open spec fn spec_all_positions() -> Seq<Position> {
    seq![Position::First, Position::Second, Position::Third, Position::Fourth, Position::Fifth, Position::Twelfth]
}

/// The positions a circle-of-fifths widget shows: the named ones (in the
/// order given, unknown names skipped), or every position when it names
/// none.
pub open spec fn spec_widget_positions(names: Seq<Seq<char>>) -> Seq<Position> {
    if names.len() == 0 {
        spec_all_positions()
    } else {
        named_positions(names)
    }
}

/// The positions `names` name, in order, unknown names skipped.
pub open spec fn named_positions(names: Seq<Seq<char>>) -> Seq<Position>
    decreases names.len(),
{
    if names.len() == 0 {
        Seq::empty()
    } else {
        let rest = named_positions(names.drop_last());
        match spec_position_named(names.last()) {
            Some(p) => rest.push(p),
            None => rest,
        }
    }
}

/// The position `name` stands for, if any.
fn position_named(name: &str) -> (p: Option<Position>)
    ensures
        p == spec_position_named(name@),
{
    if same_text(name, "first") {
        Some(Position::First)
    } else if same_text(name, "second") {
        Some(Position::Second)
    } else if same_text(name, "third") {
        Some(Position::Third)
    } else if same_text(name, "fourth") {
        Some(Position::Fourth)
    } else if same_text(name, "fifth") {
        Some(Position::Fifth)
    } else if same_text(name, "twelfth") {
        Some(Position::Twelfth)
    } else {
        None
    }
}

/// The texts of `names`.
pub open spec fn texts(names: Seq<String>) -> Seq<Seq<char>> {
    Seq::new(names.len(), |i: int| names[i]@)
}

/// The positions a circle-of-fifths widget shows for its `positions`
/// field: an empty list means every position, which keeps the diagram's
/// useful overview without verbose manifest data.
pub fn widget_positions(names: &[String]) -> (ps: Vec<Position>)
    ensures
        ps@ == spec_widget_positions(texts(names@)),
{
    if names.len() == 0 {
        return vec![
            Position::First,
            Position::Second,
            Position::Third,
            Position::Fourth,
            Position::Fifth,
            Position::Twelfth,
        ];
    }
    let mut out: Vec<Position> = Vec::new();
    let mut k: usize = 0;
    while k < names.len()
        invariant
            k <= names@.len(),
            names@.len() > 0,
            out@ == named_positions(texts(names@).subrange(0, k as int)),
        decreases names@.len() - k,
    {
        let ghost before = texts(names@).subrange(0, k as int);
        assert(texts(names@).subrange(0, k + 1).drop_last() =~= before);
        assert(texts(names@).subrange(0, k + 1).last() == names@[k as int]@);
        match position_named(names[k].as_str()) {
            Some(p) => out.push(p),
            None => {},
        }
        k = k + 1;
    }
    assert(texts(names@).subrange(0, names@.len() as int) =~= texts(names@));
    out
}

/// The locale key of a tier's name.
pub open spec fn spec_tier_name_key(tier: Tier) -> Seq<char> {
    match tier {
        Tier::Isolate => "lesson-training-tier-isolate"@,
        Tier::Consolidate => "lesson-training-tier-consolidate"@,
        Tier::Vary => "lesson-training-tier-vary"@,
        Tier::InContext => "lesson-training-tier-in-context"@,
        Tier::Interleave => "lesson-training-tier-interleave"@,
    }
}

/// The locale key of what a tier asks of the player.
pub open spec fn spec_tier_about_key(tier: Tier) -> Seq<char> {
    match tier {
        Tier::Isolate => "lesson-training-tier-isolate-about"@,
        Tier::Consolidate => "lesson-training-tier-consolidate-about"@,
        Tier::Vary => "lesson-training-tier-vary-about"@,
        Tier::InContext => "lesson-training-tier-in-context-about"@,
        Tier::Interleave => "lesson-training-tier-interleave-about"@,
    }
}

/// The locale key of a tier's name.
pub fn tier_name_key(tier: Tier) -> (key: &'static str)
    ensures
        key@ == spec_tier_name_key(tier),
{
    match tier {
        Tier::Isolate => "lesson-training-tier-isolate",
        Tier::Consolidate => "lesson-training-tier-consolidate",
        Tier::Vary => "lesson-training-tier-vary",
        Tier::InContext => "lesson-training-tier-in-context",
        Tier::Interleave => "lesson-training-tier-interleave",
    }
}

/// The locale key of what a tier asks of the player.
pub fn tier_about_key(tier: Tier) -> (key: &'static str)
    ensures
        key@ == spec_tier_about_key(tier),
{
    match tier {
        Tier::Isolate => "lesson-training-tier-isolate-about",
        Tier::Consolidate => "lesson-training-tier-consolidate-about",
        Tier::Vary => "lesson-training-tier-vary-about",
        Tier::InContext => "lesson-training-tier-in-context-about",
        Tier::Interleave => "lesson-training-tier-interleave-about",
    }
}

/// The tier the training panel opens on: the first one, in ladder order,
/// that `passed` says is not yet passed — or the top tier once every one
/// is. Tiers are not gated, so a gap below a passed tier is found first.
pub fn first_open_tier<F: Fn(Tier) -> bool>(passed: F) -> (t: Tier)
    requires
        forall|tier: Tier| passed.requires((tier,)),
    ensures
        forall|k: int| 0 <= k < spec_tier_number(t) - 1 ==> passed.ensures((#[trigger] spec_all_tiers()[k],), true),
        t != Tier::Interleave ==> passed.ensures((t,), false),
{
    let all = Tier::all();
    let mut k: usize = 0;
    while k < all.len()
        invariant
            all@ == spec_all_tiers(),
            k <= 5,
            forall|tier: Tier| passed.requires((tier,)),
            forall|j: int| 0 <= j < k ==> passed.ensures((#[trigger] spec_all_tiers()[j],), true),
        decreases 5 - k,
    {
        let tier = all[k];
        let done = passed(tier);
        if !done {
            assert(spec_tier_number(tier) - 1 == k);
            return tier;
        }
        k = k + 1;
    }
    assert(forall|j: int| 0 <= j < 4 ==> passed.ensures((#[trigger] spec_all_tiers()[j],), true));
    Tier::Interleave
}

} // verus!
