//! What the generated backing band plays, bar by bar: the genre's bass
//! shape, drum pattern and comping hits, shaped by a four-chorus arc, the
//! band's energy and the phrase fills and turnaround of the 12-bar form.
//! Audio renderers and the live pulse guide consume the same arrangement,
//! so genre feel cannot diverge between stems or between sound and screen.
//!
//! Accents are held in millionths of full scale, so the arc's and the
//! energy's scalings (each a whole number of hundredths) are exact.
use vstd::prelude::*;

use crate::text::same_text;

verus! {

broadcast use vstd::array::group_array_axioms;

/// Choruses rendered into one generated backing buffer — the length of
/// the musical arc.
pub const CHORUSES: u32 = 4;
/// Eighth-note slots in one bar.
pub const SLOTS: usize = 8;
/// Bars in one chorus of the form.
pub const FORM_BARS: usize = 12;
/// A full-scale accent, in millionths.
pub const FULL_ACCENT: u32 = 1_000_000;

/// Which rhythmic character a generated jam's band uses. Its own axis,
/// independent of the chord progression: what makes a genre sound like
/// itself is almost entirely rhythm and groove.
#[derive(Clone, Copy, PartialEq, Eq, Structural, Debug)]
pub enum Genre {
    Blues,
    Jazz,
    Rock,
    Reggae,
    Country,
}

/// How busy the band plays.
#[derive(Clone, Copy, PartialEq, Eq, Structural, Debug)]
pub enum BandEnergy {
    Low,
    Medium,
    High,
}

/// A chart's metronome feel.
#[derive(Clone, Copy, PartialEq, Eq, Structural, Debug)]
pub enum Feel {
    Straight,
    Shuffle,
}

impl Default for Genre {
    fn default() -> (g: Genre)
        ensures
            g == Genre::Blues,
    {
        Genre::Blues
    }
}

impl Default for BandEnergy {
    fn default() -> (e: BandEnergy)
        ensures
            e == BandEnergy::Medium,
    {
        BandEnergy::Medium
    }
}

/// Every genre, in picker order.
pub open spec fn spec_all_genres() -> Seq<Genre> {
    seq![Genre::Blues, Genre::Jazz, Genre::Rock, Genre::Reggae, Genre::Country]
}

/// A genre's display label.
pub open spec fn spec_genre_label(g: Genre) -> Seq<char> {
    match g {
        Genre::Blues => "Blues"@,
        Genre::Jazz => "Jazz"@,
        Genre::Rock => "Rock"@,
        Genre::Reggae => "Reggae"@,
        Genre::Country => "Country"@,
    }
}

/// An energy's display label.
pub open spec fn spec_energy_label(e: BandEnergy) -> Seq<char> {
    match e {
        BandEnergy::Low => "Low"@,
        BandEnergy::Medium => "Medium"@,
        BandEnergy::High => "High"@,
    }
}

impl BandEnergy {
    /// Every energy, lowest first.
    pub fn all() -> (all: Vec<BandEnergy>)
        ensures
            all@ == seq![BandEnergy::Low, BandEnergy::Medium, BandEnergy::High],
    {
        vec![BandEnergy::Low, BandEnergy::Medium, BandEnergy::High]
    }

    /// Display label for the picker.
    pub fn label(self) -> (l: &'static str)
        ensures
            l@ == spec_energy_label(self),
    {
        match self {
            BandEnergy::Low => "Low",
            BandEnergy::Medium => "Medium",
            BandEnergy::High => "High",
        }
    }
}

impl Genre {
    /// Every selectable genre, in the order the picker offers them.
    pub fn all() -> (all: Vec<Genre>)
        ensures
            all@ == spec_all_genres(),
    {
        vec![Genre::Blues, Genre::Jazz, Genre::Rock, Genre::Reggae, Genre::Country]
    }

    /// Display label for the picker.
    pub fn label(self) -> (l: &'static str)
        ensures
            l@ == spec_genre_label(self),
    {
        match self {
            Genre::Blues => "Blues",
            Genre::Jazz => "Jazz",
            Genre::Rock => "Rock",
            Genre::Reggae => "Reggae",
            Genre::Country => "Country",
        }
    }

    /// Inverse of [`label`](Self::label): the first genre, in picker
    /// order, labelled `label`.
    pub fn from_label(label: &str) -> (g: Option<Genre>)
        ensures
            g matches Some(found) ==> spec_genre_label(found) == label@,
            g is None <==> forall|k: int| 0 <= k < 5 ==> #[trigger] spec_genre_label(spec_all_genres()[k]) != label@,
    {
        let all = Genre::all();
        let mut k: usize = 0;
        while k < all.len()
            invariant
                all@ == spec_all_genres(),
                k <= 5,
                forall|j: int| 0 <= j < k ==> #[trigger] spec_genre_label(spec_all_genres()[j]) != label@,
            decreases 5 - k,
        {
            let g = all[k];
            if same_text(g.label(), label) {
                return Some(g);
            }
            k = k + 1;
        }
        None
    }

    /// The straight or shuffle metronome feel this genre implies.
    pub fn metronome_feel(self) -> (f: Feel)
        ensures
            f == (if spec_swung(self) {
                Feel::Shuffle
            } else {
                Feel::Straight
            }),
    {
        match self {
            Genre::Blues | Genre::Jazz => Feel::Shuffle,
            Genre::Rock | Genre::Reggae | Genre::Country => Feel::Straight,
        }
    }
}

/// Labels tell genres apart: every genre's label reads back as that
/// genre, and a label no genre has reads back as none.
pub proof fn law_genre_labels_round_trip(g: Genre)
    ensures
        forall|k: int| 0 <= k < 5 && #[trigger] spec_genre_label(spec_all_genres()[k]) == spec_genre_label(g)
            ==> spec_all_genres()[k] == g,
{
    reveal_strlit("Blues");
    reveal_strlit("Jazz");
    reveal_strlit("Rock");
    reveal_strlit("Reggae");
    reveal_strlit("Country");
    assert forall|k: int| 0 <= k < 5 && #[trigger] spec_genre_label(spec_all_genres()[k]) == spec_genre_label(g)
        implies spec_all_genres()[k] == g by {
        let h = spec_all_genres()[k];
        if h != g {
            assert(spec_genre_label(h).len() != spec_genre_label(g).len() || spec_genre_label(h)[0]
                != spec_genre_label(g)[0]);
        }
    }
}

/// One eighth of the drum part: which voices strike, and how hard.
#[derive(Clone, Copy, PartialEq, Eq, Structural, Debug)]
pub struct DrumEvent {
    pub kick: bool,
    pub snare: bool,
    pub hat: bool,
    /// In millionths of full scale.
    pub accent: u32,
}

/// One eighth of the comping part: whether the chord strikes, and how
/// hard.
#[derive(Clone, Copy, PartialEq, Eq, Structural, Debug)]
pub struct CompingEvent {
    pub hit: bool,
    /// In millionths of full scale.
    pub accent: u32,
}

/// One bar of shared musical intent for every backing role: the swing, the
/// bass line's semitone offsets from the chord root (`None` rests), and
/// the drum and comping events, one per eighth.
#[derive(Clone, Copy, PartialEq, Eq, Debug)]
pub struct GrooveArrangement {
    pub swung: bool,
    pub bass: [Option<i32>; 8],
    pub drums: [DrumEvent; 8],
    pub comping: [CompingEvent; 8],
}

/// An arrangement as sequences.
pub struct GrooveModel {
    pub swung: bool,
    pub bass: Seq<Option<i32>>,
    pub drums: Seq<DrumEvent>,
    pub comping: Seq<CompingEvent>,
}

impl View for GrooveArrangement {
    type V = GrooveModel;

    open spec fn view(&self) -> GrooveModel {
        GrooveModel { swung: self.swung, bass: self.bass@, drums: self.drums@, comping: self.comping@ }
    }
}

/// A drum event with an accent of `hundredths` of full scale.
pub open spec fn d(kick: bool, snare: bool, hat: bool, hundredths: int) -> DrumEvent {
    DrumEvent { kick, snare, hat, accent: (hundredths * 10_000) as u32 }
}

/// A comping event with an accent of `hundredths` of full scale.
pub open spec fn c(hit: bool, hundredths: int) -> CompingEvent {
    CompingEvent { hit, accent: (hundredths * 10_000) as u32 }
}

/// Whether the genre swings its eighths.
pub open spec fn spec_swung(genre: Genre) -> bool {
    genre == Genre::Blues || genre == Genre::Jazz
}

/// The genre's bass shape in semitones from the chord root: the blues box,
/// a walking quarter line, a driving root pulse, the off-beat skank, and
/// boom-chick.
pub open spec fn spec_bass(genre: Genre) -> Seq<Option<i32>> {
    match genre {
        Genre::Blues => seq![Some(0i32), Some(0), Some(7), Some(7), Some(10), Some(10), Some(7), Some(10)],
        Genre::Jazz => seq![Some(0i32), None, Some(7), None, Some(10), None, Some(7), None],
        Genre::Rock => seq![Some(0i32), Some(0), Some(0), Some(0), Some(7), Some(7), Some(0), Some(0)],
        Genre::Reggae => seq![None, Some(0i32), None, Some(7), None, Some(10), None, Some(7)],
        Genre::Country => seq![Some(0i32), None, Some(7), None, Some(0), None, Some(7), None],
    }
}

/// The genre's drum pattern.
pub open spec fn spec_drums(genre: Genre) -> Seq<DrumEvent> {
    match genre {
        Genre::Blues => seq![
            d(true, false, true, 100),
            d(false, false, true, 55),
            d(false, true, true, 90),
            d(false, false, true, 55),
            d(true, false, true, 85),
            d(false, false, true, 55),
            d(false, true, true, 95),
            d(false, false, true, 55),
        ],
        Genre::Jazz => seq![
            d(true, false, true, 65),
            d(false, false, true, 55),
            d(false, true, true, 45),
            d(false, false, true, 70),
            d(false, false, true, 55),
            d(true, false, true, 45),
            d(false, true, true, 50),
            d(false, false, true, 75),
        ],
        Genre::Rock => seq![
            d(true, false, true, 100),
            d(false, false, true, 60),
            d(false, true, true, 100),
            d(false, false, true, 60),
            d(true, false, true, 90),
            d(false, false, true, 60),
            d(false, true, true, 100),
            d(false, false, true, 60),
        ],
        Genre::Reggae => seq![
            d(false, false, false, 0),
            d(false, false, true, 50),
            d(false, true, false, 70),
            d(false, false, true, 50),
            d(true, false, false, 90),
            d(false, false, true, 50),
            d(false, true, false, 70),
            d(false, false, true, 50),
        ],
        Genre::Country => seq![
            d(true, false, true, 90),
            d(false, false, true, 45),
            d(false, true, true, 75),
            d(false, false, true, 45),
            d(true, false, true, 85),
            d(false, false, true, 45),
            d(false, true, true, 75),
            d(false, false, true, 45),
        ],
    }
}

/// The genre's comping pattern.
pub open spec fn spec_comping(genre: Genre) -> Seq<CompingEvent> {
    match genre {
        Genre::Blues => seq![
            c(false, 0),
            c(true, 75),
            c(false, 0),
            c(true, 65),
            c(false, 0),
            c(true, 75),
            c(false, 0),
            c(true, 65),
        ],
        Genre::Jazz => seq![
            c(false, 0),
            c(true, 55),
            c(false, 0),
            c(false, 0),
            c(false, 0),
            c(true, 50),
            c(false, 0),
            c(false, 0),
        ],
        Genre::Rock => seq![
            c(true, 90),
            c(false, 0),
            c(false, 0),
            c(false, 0),
            c(true, 80),
            c(false, 0),
            c(false, 0),
            c(false, 0),
        ],
        Genre::Reggae => seq![
            c(false, 0),
            c(true, 80),
            c(false, 0),
            c(true, 75),
            c(false, 0),
            c(true, 80),
            c(false, 0),
            c(true, 75),
        ],
        Genre::Country => seq![
            c(false, 0),
            c(false, 0),
            c(true, 70),
            c(false, 0),
            c(false, 0),
            c(false, 0),
            c(true, 65),
            c(false, 0),
        ],
    }
}

/// The genre's basic groove.
pub open spec fn spec_groove(genre: Genre) -> GrooveModel {
    GrooveModel { swung: spec_swung(genre), bass: spec_bass(genre), drums: spec_drums(genre), comping: spec_comping(genre) }
}

/// Hits among the first `i` comping events.
pub open spec fn hits_before(c: Seq<CompingEvent>, i: int) -> int
    decreases i,
{
    if i <= 0 {
        0
    } else {
        hits_before(c, i - 1) + if c[i - 1].hit {
            1int
        } else {
            0int
        }
    }
}

/// Every other hit kept, starting with the first.
pub open spec fn every_other_hit(c: Seq<CompingEvent>) -> Seq<CompingEvent> {
    Seq::new(c.len(), |i: int| CompingEvent { hit: c[i].hit && hits_before(c, i) % 2 == 0, accent: c[i].accent })
}

/// `accent` scaled to `percent` of itself.
pub open spec fn scaled(accent: u32, percent: int) -> u32 {
    (accent * percent / 100) as u32
}

/// `accent` scaled to `percent` of itself, but no louder than full scale.
pub open spec fn boosted(accent: u32, percent: int) -> u32 {
    if accent * percent / 100 < FULL_ACCENT {
        (accent * percent / 100) as u32
    } else {
        FULL_ACCENT
    }
}

/// The louder of two accents.
pub open spec fn louder(a: u32, b: u32) -> u32 {
    if a >= b {
        a
    } else {
        b
    }
}

/// Drum accents scaled to `percent`.
pub open spec fn drums_scaled(d: Seq<DrumEvent>, percent: int) -> Seq<DrumEvent> {
    Seq::new(
        d.len(),
        |i: int| DrumEvent { kick: d[i].kick, snare: d[i].snare, hat: d[i].hat, accent: scaled(d[i].accent, percent) },
    )
}

/// Drum accents boosted to `percent`, capped at full scale.
pub open spec fn drums_boosted(d: Seq<DrumEvent>, percent: int) -> Seq<DrumEvent> {
    Seq::new(
        d.len(),
        |i: int| DrumEvent { kick: d[i].kick, snare: d[i].snare, hat: d[i].hat, accent: boosted(d[i].accent, percent) },
    )
}

/// Comping accents scaled to `percent`.
pub open spec fn comping_scaled(c: Seq<CompingEvent>, percent: int) -> Seq<CompingEvent> {
    Seq::new(c.len(), |i: int| CompingEvent { hit: c[i].hit, accent: scaled(c[i].accent, percent) })
}

/// Comping accents boosted to `percent`, capped at full scale.
pub open spec fn comping_boosted(c: Seq<CompingEvent>, percent: int) -> Seq<CompingEvent> {
    Seq::new(c.len(), |i: int| CompingEvent { hit: c[i].hit, accent: boosted(c[i].accent, percent) })
}

/// The four-chorus arc: the first chorus opens sparse (every other comping
/// hit, softer drums), the second lifts the comping, the third lifts both,
/// the fourth relaxes.
pub open spec fn chorus_shaped(g: GrooveModel, chorus: int) -> GrooveModel {
    let k = chorus % CHORUSES as int;
    if k == 0 {
        GrooveModel { swung: g.swung, bass: g.bass, drums: drums_scaled(g.drums, 78), comping: every_other_hit(g.comping) }
    } else if k == 1 {
        GrooveModel { swung: g.swung, bass: g.bass, drums: g.drums, comping: comping_boosted(g.comping, 108) }
    } else if k == 2 {
        GrooveModel {
            swung: g.swung,
            bass: g.bass,
            drums: drums_boosted(g.drums, 108),
            comping: comping_boosted(g.comping, 112),
        }
    } else {
        GrooveModel { swung: g.swung, bass: g.bass, drums: drums_scaled(g.drums, 88), comping: comping_scaled(g.comping, 82) }
    }
}

/// Low energy drops every other comping hit, softens the drums and keeps
/// the hat on the beat only; high energy lifts drums and comping and adds a
/// push on the last eighth.
pub open spec fn energy_shaped(g: GrooveModel, energy: BandEnergy) -> GrooveModel {
    match energy {
        BandEnergy::Low => GrooveModel {
            swung: g.swung,
            bass: g.bass,
            drums: Seq::new(
                g.drums.len(),
                |i: int|
                    DrumEvent {
                        kick: g.drums[i].kick,
                        snare: g.drums[i].snare,
                        hat: g.drums[i].hat && i % 2 == 0,
                        accent: scaled(g.drums[i].accent, 72),
                    },
            ),
            comping: every_other_hit(g.comping),
        },
        BandEnergy::Medium => g,
        BandEnergy::High => GrooveModel {
            swung: g.swung,
            bass: g.bass,
            drums: drums_boosted(g.drums, 112),
            comping: comping_boosted(g.comping, 112).update(
                7,
                CompingEvent { hit: true, accent: louder(boosted(g.comping[7].accent, 112), 550_000) },
            ),
        },
    }
}

/// The form's fills: a snare on the last eighth of bars 4 and 8, a lead
/// into the turnaround in bar 11, and a walk up to home — 6th, flat 7th,
/// major 7th — with a rising snare and no comping in bar 12.
pub open spec fn bar_shaped(g: GrooveModel, bar: int) -> GrooveModel {
    let b = bar % FORM_BARS as int;
    if b == 3 || b == 7 {
        GrooveModel {
            swung: g.swung,
            bass: g.bass,
            drums: g.drums.update(
                7,
                DrumEvent {
                    kick: g.drums[7].kick,
                    snare: true,
                    hat: g.drums[7].hat,
                    accent: louder(g.drums[7].accent, 650_000),
                },
            ),
            comping: g.comping,
        }
    } else if b == 10 {
        GrooveModel {
            swung: g.swung,
            bass: g.bass.update(7, Some(11i32)),
            drums: g.drums.update(
                6,
                DrumEvent {
                    kick: g.drums[6].kick,
                    snare: true,
                    hat: g.drums[6].hat,
                    accent: louder(g.drums[6].accent, 700_000),
                },
            ),
            comping: g.comping,
        }
    } else if b == 11 {
        GrooveModel {
            swung: g.swung,
            bass: g.bass.update(5, Some(9i32)).update(6, Some(10i32)).update(7, Some(11i32)),
            drums: Seq::new(
                g.drums.len(),
                |i: int|
                    if i >= 5 {
                        DrumEvent {
                            kick: g.drums[i].kick,
                            snare: true,
                            hat: g.drums[i].hat,
                            accent: (550_000 + (i - 5) * 150_000) as u32,
                        }
                    } else {
                        g.drums[i]
                    },
            ),
            comping: Seq::new(
                g.comping.len(),
                |i: int|
                    if i >= 5 {
                        CompingEvent { hit: false, accent: g.comping[i].accent }
                    } else {
                        g.comping[i]
                    },
            ),
        }
    } else {
        g
    }
}

/// The groove of `genre` at `energy`, in chorus `chorus` and bar `bar` of
/// the form.
pub open spec fn spec_groove_for_energy(genre: Genre, energy: BandEnergy, chorus: int, bar: int) -> GrooveModel {
    bar_shaped(energy_shaped(chorus_shaped(spec_groove(genre), chorus), energy), bar)
}

/// Every accent is at most full scale.
pub open spec fn accents_bounded(g: GrooveModel) -> bool {
    &&& g.drums.len() == SLOTS
    &&& g.comping.len() == SLOTS
    &&& g.bass.len() == SLOTS
    &&& forall|i: int| 0 <= i < SLOTS ==> #[trigger] g.drums[i].accent <= FULL_ACCENT
    &&& forall|i: int| 0 <= i < SLOTS ==> #[trigger] g.comping[i].accent <= FULL_ACCENT
}

fn drum(kick: bool, snare: bool, hat: bool, hundredths: u32) -> (e: DrumEvent)
    requires
        hundredths <= 100,
    ensures
        e == d(kick, snare, hat, hundredths as int),
{
    DrumEvent { kick, snare, hat, accent: hundredths * 10_000 }
}

fn comp(hit: bool, hundredths: u32) -> (e: CompingEvent)
    requires
        hundredths <= 100,
    ensures
        e == c(hit, hundredths as int),
{
    CompingEvent { hit, accent: hundredths * 10_000 }
}

/// The genre's basic groove: its swing, bass shape, drum pattern and
/// comping pattern.
pub fn groove_arrangement(genre: Genre) -> (a: GrooveArrangement)
    ensures
        a@ == spec_groove(genre),
{
    let (swung, bass, drums, comping) = match genre {
        Genre::Blues => (
            true,
            [Some(0), Some(0), Some(7), Some(7), Some(10), Some(10), Some(7), Some(10)],
            [
                drum(true, false, true, 100),
                drum(false, false, true, 55),
                drum(false, true, true, 90),
                drum(false, false, true, 55),
                drum(true, false, true, 85),
                drum(false, false, true, 55),
                drum(false, true, true, 95),
                drum(false, false, true, 55),
            ],
            [
                comp(false, 0),
                comp(true, 75),
                comp(false, 0),
                comp(true, 65),
                comp(false, 0),
                comp(true, 75),
                comp(false, 0),
                comp(true, 65),
            ],
        ),
        Genre::Jazz => (
            true,
            [Some(0), None, Some(7), None, Some(10), None, Some(7), None],
            [
                drum(true, false, true, 65),
                drum(false, false, true, 55),
                drum(false, true, true, 45),
                drum(false, false, true, 70),
                drum(false, false, true, 55),
                drum(true, false, true, 45),
                drum(false, true, true, 50),
                drum(false, false, true, 75),
            ],
            [
                comp(false, 0),
                comp(true, 55),
                comp(false, 0),
                comp(false, 0),
                comp(false, 0),
                comp(true, 50),
                comp(false, 0),
                comp(false, 0),
            ],
        ),
        Genre::Rock => (
            false,
            [Some(0), Some(0), Some(0), Some(0), Some(7), Some(7), Some(0), Some(0)],
            [
                drum(true, false, true, 100),
                drum(false, false, true, 60),
                drum(false, true, true, 100),
                drum(false, false, true, 60),
                drum(true, false, true, 90),
                drum(false, false, true, 60),
                drum(false, true, true, 100),
                drum(false, false, true, 60),
            ],
            [
                comp(true, 90),
                comp(false, 0),
                comp(false, 0),
                comp(false, 0),
                comp(true, 80),
                comp(false, 0),
                comp(false, 0),
                comp(false, 0),
            ],
        ),
        Genre::Reggae => (
            false,
            [None, Some(0), None, Some(7), None, Some(10), None, Some(7)],
            [
                drum(false, false, false, 0),
                drum(false, false, true, 50),
                drum(false, true, false, 70),
                drum(false, false, true, 50),
                drum(true, false, false, 90),
                drum(false, false, true, 50),
                drum(false, true, false, 70),
                drum(false, false, true, 50),
            ],
            [
                comp(false, 0),
                comp(true, 80),
                comp(false, 0),
                comp(true, 75),
                comp(false, 0),
                comp(true, 80),
                comp(false, 0),
                comp(true, 75),
            ],
        ),
        Genre::Country => (
            false,
            [Some(0), None, Some(7), None, Some(0), None, Some(7), None],
            [
                drum(true, false, true, 90),
                drum(false, false, true, 45),
                drum(false, true, true, 75),
                drum(false, false, true, 45),
                drum(true, false, true, 85),
                drum(false, false, true, 45),
                drum(false, true, true, 75),
                drum(false, false, true, 45),
            ],
            [
                comp(false, 0),
                comp(false, 0),
                comp(true, 70),
                comp(false, 0),
                comp(false, 0),
                comp(false, 0),
                comp(true, 65),
                comp(false, 0),
            ],
        ),
    };
    let a = GrooveArrangement { swung, bass, drums, comping };
    assert(a.bass@ =~= spec_bass(genre));
    assert(a.drums@ =~= spec_drums(genre));
    assert(a.comping@ =~= spec_comping(genre));
    a
}

/// Keeps every other comping hit, starting with the first.
fn keep_every_other_hit(comping: &mut [CompingEvent; 8])
    ensures
        final(comping)@ == every_other_hit(old(comping)@),
{
    let ghost old_c = comping@;
    let mut heard: usize = 0;
    let mut i: usize = 0;
    while i < SLOTS
        invariant
            i <= SLOTS,
            heard == hits_before(old_c, i as int),
            heard <= i,
            old_c.len() == SLOTS,
            comping@.len() == SLOTS,
            forall|k: int| 0 <= k < i ==> comping@[k] == every_other_hit(old_c)[k],
            forall|k: int| i <= k < SLOTS ==> comping@[k] == old_c[k],
        decreases SLOTS - i,
    {
        let e = comping[i];
        if e.hit {
            comping[i] = CompingEvent { hit: heard % 2 == 0, accent: e.accent };
            heard = heard + 1;
        }
        i = i + 1;
    }
    assert(comping@ =~= every_other_hit(old_c));
}

/// Scales every drum accent to `percent` (softening: at most 100).
fn scale_drums(drums: &mut [DrumEvent; 8], percent: u32)
    requires
        percent <= 100,
        forall|i: int| 0 <= i < SLOTS ==> #[trigger] old(drums)@[i].accent <= FULL_ACCENT,
    ensures
        final(drums)@ == drums_scaled(old(drums)@, percent as int),
{
    let ghost old_d = drums@;
    let mut i: usize = 0;
    while i < SLOTS
        invariant
            i <= SLOTS,
            old_d.len() == SLOTS,
            drums@.len() == SLOTS,
            percent <= 100,
            forall|k: int| 0 <= k < SLOTS ==> #[trigger] old_d[k].accent <= FULL_ACCENT,
            forall|k: int| 0 <= k < i ==> drums@[k] == drums_scaled(old_d, percent as int)[k],
            forall|k: int| i <= k < SLOTS ==> drums@[k] == old_d[k],
        decreases SLOTS - i,
    {
        let e = drums[i];
        assert(e == old_d[i as int]);
        assert(old_d[i as int].accent <= FULL_ACCENT);
        assert(e.accent * percent <= 100_000_000) by (nonlinear_arith)
            requires
                e.accent <= 1_000_000,
                percent <= 100,
        ;
        drums[i] = DrumEvent { kick: e.kick, snare: e.snare, hat: e.hat, accent: e.accent * percent / 100 };
        i = i + 1;
    }
    assert(drums@ =~= drums_scaled(old_d, percent as int));
}

/// Boosts every drum accent to `percent`, capped at full scale.
fn boost_drums(drums: &mut [DrumEvent; 8], percent: u32)
    requires
        percent <= 200,
        forall|i: int| 0 <= i < SLOTS ==> #[trigger] old(drums)@[i].accent <= FULL_ACCENT,
    ensures
        final(drums)@ == drums_boosted(old(drums)@, percent as int),
{
    let ghost old_d = drums@;
    let mut i: usize = 0;
    while i < SLOTS
        invariant
            i <= SLOTS,
            old_d.len() == SLOTS,
            drums@.len() == SLOTS,
            percent <= 200,
            forall|k: int| 0 <= k < SLOTS ==> #[trigger] old_d[k].accent <= FULL_ACCENT,
            forall|k: int| 0 <= k < i ==> drums@[k] == drums_boosted(old_d, percent as int)[k],
            forall|k: int| i <= k < SLOTS ==> drums@[k] == old_d[k],
        decreases SLOTS - i,
    {
        let e = drums[i];
        assert(e == old_d[i as int]);
        assert(old_d[i as int].accent <= FULL_ACCENT);
        assert(e.accent * percent <= 200_000_000) by (nonlinear_arith)
            requires
                e.accent <= 1_000_000,
                percent <= 200,
        ;
        let lifted = e.accent * percent / 100;
        let accent = if lifted < FULL_ACCENT { lifted } else { FULL_ACCENT };
        drums[i] = DrumEvent { kick: e.kick, snare: e.snare, hat: e.hat, accent };
        i = i + 1;
    }
    assert(drums@ =~= drums_boosted(old_d, percent as int));
}

/// Scales every comping accent to `percent` (softening: at most 100).
fn scale_comping(comping: &mut [CompingEvent; 8], percent: u32)
    requires
        percent <= 100,
        forall|i: int| 0 <= i < SLOTS ==> #[trigger] old(comping)@[i].accent <= FULL_ACCENT,
    ensures
        final(comping)@ == comping_scaled(old(comping)@, percent as int),
{
    let ghost old_c = comping@;
    let mut i: usize = 0;
    while i < SLOTS
        invariant
            i <= SLOTS,
            old_c.len() == SLOTS,
            comping@.len() == SLOTS,
            percent <= 100,
            forall|k: int| 0 <= k < SLOTS ==> #[trigger] old_c[k].accent <= FULL_ACCENT,
            forall|k: int| 0 <= k < i ==> comping@[k] == comping_scaled(old_c, percent as int)[k],
            forall|k: int| i <= k < SLOTS ==> comping@[k] == old_c[k],
        decreases SLOTS - i,
    {
        let e = comping[i];
        assert(e == old_c[i as int]);
        assert(old_c[i as int].accent <= FULL_ACCENT);
        assert(e.accent * percent <= 100_000_000) by (nonlinear_arith)
            requires
                e.accent <= 1_000_000,
                percent <= 100,
        ;
        comping[i] = CompingEvent { hit: e.hit, accent: e.accent * percent / 100 };
        i = i + 1;
    }
    assert(comping@ =~= comping_scaled(old_c, percent as int));
}

/// Boosts every comping accent to `percent`, capped at full scale.
fn boost_comping(comping: &mut [CompingEvent; 8], percent: u32)
    requires
        percent <= 200,
        forall|i: int| 0 <= i < SLOTS ==> #[trigger] old(comping)@[i].accent <= FULL_ACCENT,
    ensures
        final(comping)@ == comping_boosted(old(comping)@, percent as int),
{
    let ghost old_c = comping@;
    let mut i: usize = 0;
    while i < SLOTS
        invariant
            i <= SLOTS,
            old_c.len() == SLOTS,
            comping@.len() == SLOTS,
            percent <= 200,
            forall|k: int| 0 <= k < SLOTS ==> #[trigger] old_c[k].accent <= FULL_ACCENT,
            forall|k: int| 0 <= k < i ==> comping@[k] == comping_boosted(old_c, percent as int)[k],
            forall|k: int| i <= k < SLOTS ==> comping@[k] == old_c[k],
        decreases SLOTS - i,
    {
        let e = comping[i];
        assert(e == old_c[i as int]);
        assert(old_c[i as int].accent <= FULL_ACCENT);
        assert(e.accent * percent <= 200_000_000) by (nonlinear_arith)
            requires
                e.accent <= 1_000_000,
                percent <= 200,
        ;
        let lifted = e.accent * percent / 100;
        let accent = if lifted < FULL_ACCENT { lifted } else { FULL_ACCENT };
        comping[i] = CompingEvent { hit: e.hit, accent };
        i = i + 1;
    }
    assert(comping@ =~= comping_boosted(old_c, percent as int));
}

/// The genre's basic groove has eight slots and no accent above full.
proof fn lemma_groove_bounded(genre: Genre)
    ensures
        accents_bounded(spec_groove(genre)),
{
    let g = spec_groove(genre);
    assert(g.drums.len() == SLOTS && g.comping.len() == SLOTS && g.bass.len() == SLOTS);
    assert forall|i: int| 0 <= i < SLOTS implies #[trigger] g.drums[i].accent <= FULL_ACCENT by {
        assert(0 <= i < 8);
    }
    assert forall|i: int| 0 <= i < SLOTS implies #[trigger] g.comping[i].accent <= FULL_ACCENT by {
        assert(0 <= i < 8);
    }
}

/// The chorus arc keeps every accent within full scale.
proof fn lemma_chorus_bounded(g: GrooveModel, chorus: int)
    requires
        accents_bounded(g),
    ensures
        accents_bounded(chorus_shaped(g, chorus)),
{
    let h = chorus_shaped(g, chorus);
    assert forall|i: int| 0 <= i < SLOTS implies #[trigger] h.drums[i].accent <= FULL_ACCENT by {
        assert(g.drums[i].accent <= FULL_ACCENT);
    }
    assert forall|i: int| 0 <= i < SLOTS implies #[trigger] h.comping[i].accent <= FULL_ACCENT by {
        assert(g.comping[i].accent <= FULL_ACCENT);
    }
}

/// The band's energy keeps every accent within full scale.
proof fn lemma_energy_bounded(g: GrooveModel, energy: BandEnergy)
    requires
        accents_bounded(g),
    ensures
        accents_bounded(energy_shaped(g, energy)),
{
    let h = energy_shaped(g, energy);
    assert forall|i: int| 0 <= i < SLOTS implies #[trigger] h.drums[i].accent <= FULL_ACCENT by {
        assert(g.drums[i].accent <= FULL_ACCENT);
    }
    assert forall|i: int| 0 <= i < SLOTS implies #[trigger] h.comping[i].accent <= FULL_ACCENT by {
        assert(g.comping[i].accent <= FULL_ACCENT);
    }
}

/// The form's fills keep every accent within full scale.
proof fn lemma_bar_bounded(g: GrooveModel, bar: int)
    requires
        accents_bounded(g),
    ensures
        accents_bounded(bar_shaped(g, bar)),
{
    let h = bar_shaped(g, bar);
    assert forall|i: int| 0 <= i < SLOTS implies #[trigger] h.drums[i].accent <= FULL_ACCENT by {
        assert(g.drums[i].accent <= FULL_ACCENT);
    }
    assert forall|i: int| 0 <= i < SLOTS implies #[trigger] h.comping[i].accent <= FULL_ACCENT by {
        assert(g.comping[i].accent <= FULL_ACCENT);
    }
}

/// Every accent of `a` is at most full scale.
pub open spec fn arrangement_bounded(a: GrooveArrangement) -> bool {
    &&& forall|i: int| 0 <= i < SLOTS ==> #[trigger] a.drums@[i].accent <= FULL_ACCENT
    &&& forall|i: int| 0 <= i < SLOTS ==> #[trigger] a.comping@[i].accent <= FULL_ACCENT
}

/// Shapes `a` for chorus `chorus` of the four-chorus arc.
fn shape_for_chorus(a: &mut GrooveArrangement, chorus: usize)
    requires
        accents_bounded(old(a)@),
    ensures
        final(a)@ == chorus_shaped(old(a)@, chorus as int),
        accents_bounded(final(a)@),
{
    let ghost g0 = a@;
    proof {
        lemma_chorus_bounded(g0, chorus as int);
    }
    let stage = chorus % (CHORUSES as usize);
    if stage == 0 {
        keep_every_other_hit(&mut a.comping);
        scale_drums(&mut a.drums, 78);
    } else if stage == 1 {
        boost_comping(&mut a.comping, 108);
    } else if stage == 2 {
        boost_drums(&mut a.drums, 108);
        boost_comping(&mut a.comping, 112);
    } else {
        scale_drums(&mut a.drums, 88);
        scale_comping(&mut a.comping, 82);
    }
    let ghost g1 = chorus_shaped(g0, chorus as int);
    assert(a.bass@ == g1.bass && a.drums@ == g1.drums && a.comping@ == g1.comping && a.swung == g1.swung);
}

/// Low energy's drums: softer, with the hat on the beat only.
fn soften_drums_for_low_energy(drums: &mut [DrumEvent; 8])
    requires
        forall|i: int| 0 <= i < SLOTS ==> #[trigger] old(drums)@[i].accent <= FULL_ACCENT,
    ensures
        final(drums)@ == Seq::new(
            8,
            |i: int|
                DrumEvent {
                    kick: old(drums)@[i].kick,
                    snare: old(drums)@[i].snare,
                    hat: old(drums)@[i].hat && i % 2 == 0,
                    accent: scaled(old(drums)@[i].accent, 72),
                },
        ),
{
    let ghost d1 = drums@;
    let mut i: usize = 0;
    while i < SLOTS
        invariant
            i <= SLOTS,
            d1.len() == SLOTS,
            drums@.len() == SLOTS,
            forall|k: int| 0 <= k < SLOTS ==> #[trigger] d1[k].accent <= FULL_ACCENT,
            forall|k: int|
                0 <= k < i ==> drums@[k] == (DrumEvent {
                    kick: d1[k].kick,
                    snare: d1[k].snare,
                    hat: d1[k].hat && k % 2 == 0,
                    accent: scaled(d1[k].accent, 72),
                }),
            forall|k: int| i <= k < SLOTS ==> drums@[k] == d1[k],
        decreases SLOTS - i,
    {
        let e = drums[i];
        assert(e == d1[i as int]);
        assert(d1[i as int].accent <= FULL_ACCENT);
        assert(e.accent * 72 <= 72_000_000) by (nonlinear_arith)
            requires
                e.accent <= 1_000_000,
        ;
        drums[i] = DrumEvent { kick: e.kick, snare: e.snare, hat: e.hat && i % 2 == 0, accent: e.accent * 72 / 100 };
        i = i + 1;
    }
    assert(drums@ =~= Seq::new(
        8,
        |i: int|
            DrumEvent {
                kick: d1[i].kick,
                snare: d1[i].snare,
                hat: d1[i].hat && i % 2 == 0,
                accent: scaled(d1[i].accent, 72),
            },
    ));
}

/// Shapes `a` for the band's `energy`.
fn shape_for_energy(a: &mut GrooveArrangement, energy: BandEnergy)
    requires
        accents_bounded(old(a)@),
    ensures
        final(a)@ == energy_shaped(old(a)@, energy),
        accents_bounded(final(a)@),
{
    let ghost g1 = a@;
    proof {
        lemma_energy_bounded(g1, energy);
    }
    match energy {
        BandEnergy::Low => {
            keep_every_other_hit(&mut a.comping);
            soften_drums_for_low_energy(&mut a.drums);
        },
        BandEnergy::Medium => {},
        BandEnergy::High => {
            boost_drums(&mut a.drums, 112);
            boost_comping(&mut a.comping, 112);
            let last = a.comping[7];
            let accent = if last.accent >= 550_000 { last.accent } else { 550_000 };
            a.comping[7] = CompingEvent { hit: true, accent };
        },
    }
    let ghost g2 = energy_shaped(g1, energy);
    assert(a.bass@ =~= g2.bass && a.drums@ =~= g2.drums && a.comping@ =~= g2.comping && a.swung == g2.swung);
}

/// Shapes `a` for bar `bar` of the form: the phrase fills and the
/// turnaround.
fn shape_for_bar(a: &mut GrooveArrangement, bar: usize)
    requires
        accents_bounded(old(a)@),
    ensures
        final(a)@ == bar_shaped(old(a)@, bar as int),
{
    let ghost g2 = a@;
    let position = bar % FORM_BARS;
    if position == 3 || position == 7 {
        let e = a.drums[7];
        a.drums[7] = DrumEvent { kick: e.kick, snare: true, hat: e.hat, accent: if e.accent >= 650_000 { e.accent } else { 650_000 } };
    } else if position == 10 {
        a.bass[7] = Some(11);
        let e = a.drums[6];
        a.drums[6] = DrumEvent { kick: e.kick, snare: true, hat: e.hat, accent: if e.accent >= 700_000 { e.accent } else { 700_000 } };
    } else if position == 11 {
        a.bass[5] = Some(9);
        a.bass[6] = Some(10);
        a.bass[7] = Some(11);
        assert(a.bass@ =~= bar_shaped(g2, bar as int).bass);
        let mut slot: usize = 5;
        while slot < SLOTS
            invariant
                5 <= slot <= SLOTS,
                bar as int % 12 == 11,
                g2.drums.len() == SLOTS,
                g2.comping.len() == SLOTS,
                a.bass@ == bar_shaped(g2, bar as int).bass,
                a.swung == g2.swung,
                a.drums@.len() == SLOTS,
                a.comping@.len() == SLOTS,
                forall|k: int| 0 <= k < 5 ==> a.drums@[k] == g2.drums[k] && a.comping@[k] == g2.comping[k],
                forall|k: int| slot <= k < SLOTS ==> a.drums@[k] == g2.drums[k] && a.comping@[k] == g2.comping[k],
                forall|k: int| 5 <= k < slot ==> a.drums@[k] == bar_shaped(g2, bar as int).drums[k] && a.comping@[k]
                    == bar_shaped(g2, bar as int).comping[k],
            decreases SLOTS - slot,
        {
            let e = a.drums[slot];
            a.drums[slot] = DrumEvent { kick: e.kick, snare: true, hat: e.hat, accent: 550_000 + ((slot - 5) as u32) * 150_000 };
            let ce = a.comping[slot];
            a.comping[slot] = CompingEvent { hit: false, accent: ce.accent };
            slot = slot + 1;
        }
    }
    let ghost g3 = bar_shaped(g2, bar as int);
    assert(a.bass@ =~= g3.bass);
    assert(a.drums@ =~= g3.drums);
    assert(a.comping@ =~= g3.comping);
    assert(a.swung == g3.swung);
}

/// The groove of `genre` played at `energy`, in chorus `chorus` and bar
/// `bar` (zero-based within the 12-bar form) of the jam: the four-chorus
/// arc, then the band's energy, then the phrase fills and turnaround,
/// which occupy only the tail of bars 4, 8, 11 and 12 so the next
/// downbeat stays open.
pub fn groove_arrangement_for_energy(genre: Genre, energy: BandEnergy, chorus: usize, bar: usize) -> (a:
    GrooveArrangement)
    ensures
        a@ == spec_groove_for_energy(genre, energy, chorus as int, bar as int),
{
    let mut a = groove_arrangement(genre);
    proof {
        lemma_groove_bounded(genre);
    }
    shape_for_chorus(&mut a, chorus);
    shape_for_energy(&mut a, energy);
    shape_for_bar(&mut a, bar);
    a
}

/// The groove of `genre` at its usual energy, in chorus `chorus` and bar
/// `bar` of the jam.
pub fn groove_arrangement_for_position(genre: Genre, chorus: usize, bar: usize) -> (a: GrooveArrangement)
    ensures
        a@ == spec_groove_for_energy(genre, BandEnergy::Medium, chorus as int, bar as int),
{
    groove_arrangement_for_energy(genre, BandEnergy::Medium, chorus, bar)
}

/// The drum part's total accent: how hard the drums play over the bar.
pub open spec fn drum_energy(d: Seq<DrumEvent>) -> int
    decreases d.len(),
{
    if d.len() == 0 {
        0
    } else {
        drum_energy(d.drop_last()) + d.last().accent
    }
}

/// `a`'s accents are nowhere above `b`'s.
pub open spec fn drums_no_louder(a: Seq<DrumEvent>, b: Seq<DrumEvent>) -> bool {
    &&& a.len() == b.len()
    &&& forall|i: int| 0 <= i < a.len() ==> #[trigger] a[i].accent <= b[i].accent
}

/// Every comping hit of `a` is a hit of `b`.
pub open spec fn hits_within(a: Seq<CompingEvent>, b: Seq<CompingEvent>) -> bool {
    &&& a.len() == b.len()
    &&& forall|i: int| 0 <= i < a.len() && #[trigger] a[i].hit ==> b[i].hit
}

/// Accents nowhere louder, and softer somewhere, make a softer bar.
proof fn lemma_drum_energy_less(a: Seq<DrumEvent>, b: Seq<DrumEvent>, at: int)
    requires
        drums_no_louder(a, b),
        0 <= at < a.len(),
        a[at].accent < b[at].accent,
    ensures
        drum_energy(a) < drum_energy(b),
    decreases a.len(),
{
    let n = a.len() - 1;
    if at == n {
        lemma_drum_energy_no_more(a.drop_last(), b.drop_last());
    } else {
        lemma_drum_energy_less(a.drop_last(), b.drop_last(), at);
    }
}

/// Accents nowhere louder make a bar no louder.
proof fn lemma_drum_energy_no_more(a: Seq<DrumEvent>, b: Seq<DrumEvent>)
    requires
        drums_no_louder(a, b),
    ensures
        drum_energy(a) <= drum_energy(b),
    decreases a.len(),
{
    if a.len() > 0 {
        lemma_drum_energy_no_more(a.drop_last(), b.drop_last());
    }
}

/// The fills of the form treat softer and louder drums alike: a softer
/// bar stays softer, and hits stay within hits.
proof fn lemma_bar_monotone(g: GrooveModel, h: GrooveModel, bar: int)
    requires
        accents_bounded(g),
        accents_bounded(h),
        drums_no_louder(g.drums, h.drums),
        hits_within(g.comping, h.comping),
    ensures
        drums_no_louder(bar_shaped(g, bar).drums, bar_shaped(h, bar).drums),
        hits_within(bar_shaped(g, bar).comping, bar_shaped(h, bar).comping),
        bar_shaped(g, bar).drums[1] == g.drums[1],
        bar_shaped(h, bar).drums[1] == h.drums[1],
{
    let gb = bar_shaped(g, bar).drums;
    let hb = bar_shaped(h, bar).drums;
    assert forall|i: int| 0 <= i < gb.len() implies #[trigger] gb[i].accent <= hb[i].accent by {
        assert(g.drums[i].accent <= h.drums[i].accent);
    }
    let gc = bar_shaped(g, bar).comping;
    let hc = bar_shaped(h, bar).comping;
    assert forall|i: int| 0 <= i < gc.len() && #[trigger] gc[i].hit implies hc[i].hit by {
        assert(g.comping[i].hit ==> h.comping[i].hit);
    }
}

/// Kept hits are hits.
proof fn lemma_every_other_hit_within(c: Seq<CompingEvent>)
    ensures
        hits_within(every_other_hit(c), c),
{
}

/// The second eighth of every genre's drum pattern is struck.
proof fn lemma_second_eighth_sounds(genre: Genre)
    ensures
        spec_groove(genre).drums[1].accent >= 450_000,
{
}

/// Every accent stays between silence and full scale wherever in the jam,
/// and every genre's basic groove gives each role something to play: a
/// bass note, a drum stroke and a comping hit.
pub proof fn law_every_arrangement_has_bounded_role_events(
    genre: Genre,
    energy: BandEnergy,
    chorus: int,
    bar: int,
)
    ensures
        accents_bounded(spec_groove_for_energy(genre, energy, chorus, bar)),
        exists|i: int| 0 <= i < SLOTS && #[trigger] spec_groove(genre).bass[i] is Some,
        exists|i: int|
            0 <= i < SLOTS && (#[trigger] spec_groove(genre).drums[i].kick || spec_groove(genre).drums[i].snare
                || spec_groove(genre).drums[i].hat),
        exists|i: int| 0 <= i < SLOTS && #[trigger] spec_groove(genre).comping[i].hit,
{
    lemma_groove_bounded(genre);
    let g1 = chorus_shaped(spec_groove(genre), chorus);
    lemma_chorus_bounded(spec_groove(genre), chorus);
    lemma_energy_bounded(g1, energy);
    lemma_bar_bounded(energy_shaped(g1, energy), bar);
    let g = spec_groove(genre);
    match genre {
        Genre::Reggae => {
            assert(g.bass[1] is Some);
            assert(g.drums[1].hat);
            assert(g.comping[1].hit);
        },
        Genre::Country => {
            assert(g.bass[0] is Some);
            assert(g.drums[0].kick);
            assert(g.comping[2].hit);
        },
        Genre::Rock => {
            assert(g.bass[0] is Some);
            assert(g.drums[0].kick);
            assert(g.comping[0].hit);
        },
        _ => {
            assert(g.bass[0] is Some);
            assert(g.drums[0].kick);
            assert(g.comping[1].hit);
        },
    }
}

/// Bars 4 and 8 keep their bass line and end on a snare; the last bar
/// walks the bass up to home (6th, flat 7th, major 7th) under a rising
/// snare with the comping out of the way; and the form repeats every 12
/// bars and the arc every four choruses.
pub proof fn law_phrase_fills_are_restrained_and_turnaround_approaches_home(
    genre: Genre,
    energy: BandEnergy,
    chorus: int,
    bar: int,
)
    requires
        chorus >= 0,
        bar >= 0,
    ensures
        bar % 12 == 3 || bar % 12 == 7 ==> spec_groove_for_energy(genre, energy, chorus, bar).bass == spec_bass(genre)
            && spec_groove_for_energy(genre, energy, chorus, bar).drums[7].snare,
        bar % 12 == 11 ==> spec_groove_for_energy(genre, energy, chorus, bar).bass.subrange(5, 8) == seq![
            Some(9i32),
            Some(10i32),
            Some(11i32),
        ],
        bar % 12 == 11 ==> forall|i: int|
            5 <= i < 8 ==> #[trigger] spec_groove_for_energy(genre, energy, chorus, bar).drums[i].snare
                && !spec_groove_for_energy(genre, energy, chorus, bar).comping[i].hit,
        spec_groove_for_energy(genre, energy, chorus, bar + 12) == spec_groove_for_energy(genre, energy, chorus, bar),
        spec_groove_for_energy(genre, energy, chorus + 4, bar) == spec_groove_for_energy(genre, energy, chorus, bar),
{
    assert((bar + 12) % 12 == bar % 12);
    assert((chorus + 4) % 4 == chorus % 4);
    let g = spec_groove_for_energy(genre, energy, chorus, bar);
    if bar % 12 == 11 {
        assert(g.bass.subrange(5, 8) =~= seq![Some(9i32), Some(10i32), Some(11i32)]);
    }
}

/// The band's energy changes how much it plays, never what: the bass line
/// and the swing are the same at every energy; a low-energy bar has no
/// comping hit the usual one lacks and plays its drums softer, a
/// high-energy bar keeps every usual hit and plays its drums no softer.
pub proof fn law_band_energy_changes_density_without_changing_bass_or_feel(
    genre: Genre,
    chorus: int,
    bar: int,
)
    ensures
        spec_groove_for_energy(genre, BandEnergy::Low, chorus, bar).bass == spec_groove_for_energy(
            genre,
            BandEnergy::Medium,
            chorus,
            bar,
        ).bass,
        spec_groove_for_energy(genre, BandEnergy::High, chorus, bar).bass == spec_groove_for_energy(
            genre,
            BandEnergy::Medium,
            chorus,
            bar,
        ).bass,
        spec_groove_for_energy(genre, BandEnergy::Low, chorus, bar).swung == spec_swung(genre),
        spec_groove_for_energy(genre, BandEnergy::High, chorus, bar).swung == spec_swung(genre),
        hits_within(
            spec_groove_for_energy(genre, BandEnergy::Low, chorus, bar).comping,
            spec_groove_for_energy(genre, BandEnergy::Medium, chorus, bar).comping,
        ),
        hits_within(
            spec_groove_for_energy(genre, BandEnergy::Medium, chorus, bar).comping,
            spec_groove_for_energy(genre, BandEnergy::High, chorus, bar).comping,
        ),
        drum_energy(spec_groove_for_energy(genre, BandEnergy::Low, chorus, bar).drums) < drum_energy(
            spec_groove_for_energy(genre, BandEnergy::Medium, chorus, bar).drums,
        ),
        drum_energy(spec_groove_for_energy(genre, BandEnergy::Medium, chorus, bar).drums) <= drum_energy(
            spec_groove_for_energy(genre, BandEnergy::High, chorus, bar).drums,
        ),
{
    let g0 = spec_groove(genre);
    lemma_groove_bounded(genre);
    let g1 = chorus_shaped(g0, chorus);
    lemma_chorus_bounded(g0, chorus);
    let low = energy_shaped(g1, BandEnergy::Low);
    let high = energy_shaped(g1, BandEnergy::High);
    lemma_energy_bounded(g1, BandEnergy::Low);
    lemma_energy_bounded(g1, BandEnergy::High);
    assert(drums_no_louder(low.drums, g1.drums)) by {
        assert forall|i: int| 0 <= i < SLOTS implies #[trigger] low.drums[i].accent <= g1.drums[i].accent by {
            assert(g1.drums[i].accent * 72 / 100 <= g1.drums[i].accent);
        }
    }
    assert(drums_no_louder(g1.drums, high.drums)) by {
        assert forall|i: int| 0 <= i < SLOTS implies #[trigger] g1.drums[i].accent <= high.drums[i].accent by {
            assert(g1.drums[i].accent <= FULL_ACCENT);
            assert(g1.drums[i].accent * 112 / 100 >= g1.drums[i].accent);
        }
    }
    lemma_every_other_hit_within(g1.comping);
    assert(hits_within(g1.comping, high.comping));
    lemma_bar_monotone(low, g1, bar);
    lemma_bar_monotone(g1, high, bar);
    // The second eighth is played at every stage, and low energy softens it.
    lemma_second_eighth_sounds(genre);
    assert(g1.drums[1].accent > 0) by {
        assert(g0.drums[1].accent >= 450_000);
        assert(g0.drums[1].accent * 78 / 100 > 0);
        assert(g0.drums[1].accent * 88 / 100 > 0);
    }
    assert(low.drums[1].accent < g1.drums[1].accent);
    let lb = bar_shaped(low, bar).drums;
    let mb = bar_shaped(g1, bar).drums;
    lemma_drum_energy_less(lb, mb, 1);
    lemma_drum_energy_no_more(mb, bar_shaped(high, bar).drums);
}

/// The four-chorus arc at the usual energy: the first chorus comps no more
/// than the second, the third lifts the drums above the first, and the
/// fourth relaxes them below the third.
pub proof fn law_four_chorus_arc_opens_sparse_peaks_then_relaxes(genre: Genre, bar: int)
    ensures
        hits_within(
            spec_groove_for_energy(genre, BandEnergy::Medium, 0, bar).comping,
            spec_groove_for_energy(genre, BandEnergy::Medium, 1, bar).comping,
        ),
        drum_energy(spec_groove_for_energy(genre, BandEnergy::Medium, 0, bar).drums) < drum_energy(
            spec_groove_for_energy(genre, BandEnergy::Medium, 2, bar).drums,
        ),
        drum_energy(spec_groove_for_energy(genre, BandEnergy::Medium, 3, bar).drums) < drum_energy(
            spec_groove_for_energy(genre, BandEnergy::Medium, 2, bar).drums,
        ),
{
    let g0 = spec_groove(genre);
    lemma_groove_bounded(genre);
    lemma_second_eighth_sounds(genre);
    let c0 = chorus_shaped(g0, 0);
    let c1 = chorus_shaped(g0, 1);
    let c2 = chorus_shaped(g0, 2);
    let c3 = chorus_shaped(g0, 3);
    lemma_chorus_bounded(g0, 0);
    lemma_chorus_bounded(g0, 1);
    lemma_chorus_bounded(g0, 2);
    lemma_chorus_bounded(g0, 3);
    lemma_every_other_hit_within(g0.comping);
    assert(hits_within(c0.comping, c1.comping));
    assert(drums_no_louder(c0.drums, c2.drums)) by {
        assert forall|i: int| 0 <= i < SLOTS implies #[trigger] c0.drums[i].accent <= c2.drums[i].accent by {
            assert(g0.drums[i].accent <= FULL_ACCENT);
            assert(g0.drums[i].accent * 78 / 100 <= g0.drums[i].accent);
            assert(g0.drums[i].accent * 108 / 100 >= g0.drums[i].accent);
        }
    }
    assert(drums_no_louder(c3.drums, c2.drums)) by {
        assert forall|i: int| 0 <= i < SLOTS implies #[trigger] c3.drums[i].accent <= c2.drums[i].accent by {
            assert(g0.drums[i].accent <= FULL_ACCENT);
            assert(g0.drums[i].accent * 88 / 100 <= g0.drums[i].accent);
            assert(g0.drums[i].accent * 108 / 100 >= g0.drums[i].accent);
        }
    }
    assert(c0.drums[1].accent < c2.drums[1].accent) by {
        let a = g0.drums[1].accent;
        assert(a * 78 / 100 < a);
        assert(a * 108 / 100 >= a);
    }
    assert(c3.drums[1].accent < c2.drums[1].accent) by {
        let a = g0.drums[1].accent;
        assert(a * 88 / 100 < a);
        assert(a * 108 / 100 >= a);
    }
    lemma_bar_monotone(c0, c1, bar);
    lemma_bar_monotone(c0, c2, bar);
    lemma_bar_monotone(c3, c2, bar);
    lemma_drum_energy_less(bar_shaped(c0, bar).drums, bar_shaped(c2, bar).drums, 1);
    lemma_drum_energy_less(bar_shaped(c3, bar).drums, bar_shaped(c2, bar).drums, 1);
}

/// The base groove's bass line only ever plays the root, the 5th or the
/// flat 7th — never a 3rd, which would clash with one chord quality or
/// another. Jazz walks root, 5th, flat 7th, 5th on the beats and rests on
/// the off-beats.
pub proof fn law_base_bass_plays_only_root_fifth_and_flat_seventh(genre: Genre, i: int)
    requires
        0 <= i < SLOTS,
    ensures
        spec_groove(genre).bass.len() == SLOTS,
        spec_groove(genre).bass[i] matches Some(s) ==> s == 0 || s == 7 || s == 10,
        genre == Genre::Jazz ==> {
            &&& (spec_groove(genre).bass[i] is None <==> i % 2 == 1)
            &&& spec_groove(genre).bass[0] == Some(0i32)
            &&& spec_groove(genre).bass[2] == Some(7i32)
            &&& spec_groove(genre).bass[4] == Some(10i32)
            &&& spec_groove(genre).bass[6] == Some(7i32)
        },
{
    assert(0 <= i < 8);
}

/// At low energy the drums keep the usual hat on every beat and drop it on
/// every off-beat eighth, with the same kicks and snares, wherever in the
/// jam.
pub proof fn law_low_energy_keeps_the_hat_on_the_beat_only(genre: Genre, chorus: int, bar: int, i: int)
    requires
        0 <= i < SLOTS,
    ensures
        spec_groove_for_energy(genre, BandEnergy::Low, chorus, bar).drums[i].hat == (spec_groove_for_energy(
            genre,
            BandEnergy::Medium,
            chorus,
            bar,
        ).drums[i].hat && i % 2 == 0),
        spec_groove_for_energy(genre, BandEnergy::Low, chorus, bar).drums[i].kick == spec_groove_for_energy(
            genre,
            BandEnergy::Medium,
            chorus,
            bar,
        ).drums[i].kick,
        spec_groove_for_energy(genre, BandEnergy::Low, chorus, bar).drums[i].snare == spec_groove_for_energy(
            genre,
            BandEnergy::Medium,
            chorus,
            bar,
        ).drums[i].snare,
{
    let g0 = spec_groove(genre);
    lemma_groove_bounded(genre);
    let g1 = chorus_shaped(g0, chorus);
    lemma_chorus_bounded(g0, chorus);
    let low = energy_shaped(g1, BandEnergy::Low);
    lemma_energy_bounded(g1, BandEnergy::Low);
    assert(low.drums[i].hat == (g1.drums[i].hat && i % 2 == 0));
    let lb = bar_shaped(low, bar).drums;
    let mb = bar_shaped(g1, bar).drums;
    assert(lb[i].hat == low.drums[i].hat && mb[i].hat == g1.drums[i].hat);
    assert(lb[i].kick == mb[i].kick && lb[i].snare == mb[i].snare);
}

} // verus!
