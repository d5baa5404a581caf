//! Note classes and how a pitch sits against a chord and a scale — the one
//! classification the hole map, the improv tally and the call generator
//! share, so no two of them can judge a note differently.
use vstd::prelude::*;

verus! {

/// The letter of pitch class `pc`'s sharp spelling.
pub open spec fn class_letter(pc: int) -> char {
    if pc <= 1 {
        'C'
    } else if pc <= 3 {
        'D'
    } else if pc == 4 {
        'E'
    } else if pc <= 6 {
        'F'
    } else if pc <= 8 {
        'G'
    } else if pc <= 10 {
        'A'
    } else {
        'B'
    }
}

/// Whether pitch class `pc` is spelled with a sharp.
pub open spec fn class_is_sharp(pc: int) -> bool {
    pc == 1 || pc == 3 || pc == 6 || pc == 8 || pc == 10
}

/// The sharp spelling of pitch class `pc` (0 = C … 11 = B), the way a note
/// name reads once its octave digit is dropped.
pub open spec fn class_name(pc: int) -> Seq<char> {
    if class_is_sharp(pc) {
        seq![class_letter(pc), '#']
    } else {
        seq![class_letter(pc)]
    }
}

/// The pitch class of a MIDI note number.
pub open spec fn spec_pitch_class(midi: int) -> int {
    midi % 12
}

/// The pitch class of MIDI note `midi` (0 = C … 11 = B).
pub fn pitch_class(midi: u8) -> (pc: u8)
    ensures
        pc == spec_pitch_class(midi as int),
        pc < 12,
{
    midi % 12
}

/// The pitch class a note-class name spells, `None` for a name that is
/// not one of the twelve sharp spellings.
pub fn class_of_name(name: &str) -> (r: Option<u8>)
    ensures
        r matches Some(pc) ==> pc < 12 && name@ == class_name(pc as int),
        r is None ==> forall|pc: int| 0 <= pc < 12 ==> name@ != #[trigger] class_name(pc),
{
    let len = name.unicode_len();
    if len == 0 || len > 2 {
        proof {
            assert forall|pc: int| 0 <= pc < 12 implies name@ != #[trigger] class_name(pc) by {
                assert(class_name(pc).len() == 1 || class_name(pc).len() == 2);
            }
        }
        return None;
    }
    let letter = name.get_char(0);
    let base: u8 = if letter == 'C' {
        0
    } else if letter == 'D' {
        2
    } else if letter == 'E' {
        4
    } else if letter == 'F' {
        5
    } else if letter == 'G' {
        7
    } else if letter == 'A' {
        9
    } else if letter == 'B' {
        11
    } else {
        proof {
            assert forall|pc: int| 0 <= pc < 12 implies name@ != #[trigger] class_name(pc) by {
                assert(class_name(pc)[0] != letter);
            }
        }
        return None;
    };
    if len == 1 {
        proof {
            assert(name@ =~= seq![letter]);
        }
        return Some(base);
    }
    let mark = name.get_char(1);
    if mark == '#' && base != 4 && base != 11 {
        proof {
            assert(name@ =~= seq![letter, '#']);
        }
        Some(base + 1)
    } else {
        proof {
            assert forall|pc: int| 0 <= pc < 12 implies name@ != #[trigger] class_name(pc) by {
                if class_name(pc).len() == 2 {
                    assert(class_name(pc)[1] == '#');
                    if mark == '#' {
                        assert(class_name(pc)[0] != letter);
                    }
                }
            }
        }
        None
    }
}

/// A set of pitch classes: a chord's tones or a scale's notes.
#[derive(Clone, Copy, Debug, PartialEq, Eq)]
pub struct PitchClassSet {
    members: [bool; 12],
}

impl View for PitchClassSet {
    type V = Set<int>;

    closed spec fn view(&self) -> Set<int> {
        Set::new(|pc: int| 0 <= pc < 12 && self.members@[pc])
    }
}

impl PitchClassSet {
    /// A set is nothing but its pitch classes: two with the same view are
    /// the same value.
    pub proof fn lemma_view_determines(a: PitchClassSet, b: PitchClassSet)
        requires
            a@ == b@,
        ensures
            a == b,
    {
        broadcast use vstd::array::group_array_axioms;

        assert forall|i: int| 0 <= i < 12 implies a.members[i] == b.members[i] by {
            assert(a@.contains(i) == a.members@[i]);
            assert(b@.contains(i) == b.members@[i]);
        }
        assert(a.members =~= b.members);
    }

    /// No pitch classes at all.
    pub fn empty() -> (s: PitchClassSet)
        ensures
            s@ == Set::<int>::empty(),
    {
        let s = PitchClassSet { members: [false; 12] };
        assert(s@ =~= Set::<int>::empty());
        s
    }

    /// Whether pitch class `pc` is in the set.
    pub fn contains(&self, pc: u8) -> (r: bool)
        ensures
            r == self@.contains(pc as int),
    {
        if pc < 12 {
            self.members[pc as usize]
        } else {
            false
        }
    }

    /// The set with pitch class `pc` added (anything from 12 up is
    /// ignored: it is no pitch class).
    pub fn insert(&mut self, pc: u8)
        ensures
            final(self)@ == if pc < 12 {
                old(self)@.insert(pc as int)
            } else {
                old(self)@
            },
    {
        if pc < 12 {
            self.members[pc as usize] = true;
            assert(self@ =~= old(self)@.insert(pc as int));
        }
    }

    /// The pitch classes of `classes` (entries from 12 up are ignored).
    pub fn from_classes(classes: &[u8]) -> (s: PitchClassSet)
        ensures
            forall|pc: int|
                #[trigger] s@.contains(pc) <==> 0 <= pc < 12 && exists|k: int|
                    0 <= k < classes@.len() && classes@[k] == pc,
    {
        let mut s = PitchClassSet::empty();
        let mut k: usize = 0;
        while k < classes.len()
            invariant
                k <= classes@.len(),
                forall|pc: int|
                    #[trigger] s@.contains(pc) <==> 0 <= pc < 12 && exists|j: int|
                        0 <= j < k && classes@[j] == pc,
            decreases classes@.len() - k,
        {
            s.insert(classes[k]);
            proof {
                assert forall|pc: int|
                    #[trigger] s@.contains(pc) <==> 0 <= pc < 12 && exists|j: int|
                        0 <= j < k + 1 && classes@[j] == pc by {
                    if 0 <= pc < 12 && classes@[k as int] == pc {
                        assert(exists|j: int| 0 <= j < k + 1 && classes@[j] == pc);
                    }
                    if exists|j: int| 0 <= j < k + 1 && classes@[j] == pc {
                        let j = choose|j: int| 0 <= j < k + 1 && classes@[j] == pc;
                        if j < k {
                            assert(exists|j2: int| 0 <= j2 < k && classes@[j2] == pc);
                        }
                    }
                }
            }
            k = k + 1;
        }
        s
    }

    /// The pitch classes named by `names` in note-class spelling ("C",
    /// "D#", …). A name that spells no pitch class names nothing.
    pub fn from_names(names: &[&str]) -> (s: PitchClassSet)
        ensures
            forall|pc: int|
                #[trigger] s@.contains(pc) <==> 0 <= pc < 12 && exists|k: int|
                    0 <= k < names@.len() && names@[k]@ == class_name(pc),
    {
        let mut s = PitchClassSet::empty();
        let mut k: usize = 0;
        while k < names.len()
            invariant
                k <= names@.len(),
                forall|pc: int|
                    #[trigger] s@.contains(pc) <==> 0 <= pc < 12 && exists|j: int|
                        0 <= j < k && names@[j]@ == class_name(pc),
            decreases names@.len() - k,
        {
            let found = class_of_name(names[k]);
            let ghost before = s@;
            match found {
                Some(pc) => s.insert(pc),
                None => {},
            }
            proof {
                assert forall|pc: int|
                    #[trigger] s@.contains(pc) <==> 0 <= pc < 12 && exists|j: int|
                        0 <= j < k + 1 && names@[j]@ == class_name(pc) by {
                    if 0 <= pc < 12 && names@[k as int]@ == class_name(pc) {
                        assert(exists|j: int| 0 <= j < k + 1 && names@[j]@ == class_name(pc));
                        if let Some(f) = found {
                            lemma_class_names_distinct(f as int, pc);
                        }
                    }
                    if exists|j: int| 0 <= j < k + 1 && names@[j]@ == class_name(pc) {
                        let j = choose|j: int| 0 <= j < k + 1 && names@[j]@ == class_name(pc);
                        if j < k {
                            assert(exists|j2: int| 0 <= j2 < k && names@[j2]@ == class_name(pc));
                        }
                    }
                    if let Some(f) = found {
                        if pc == f as int {
                            assert(names@[k as int]@ == class_name(pc));
                        }
                    }
                }
            }
            k = k + 1;
        }
        s
    }
}

/// Different pitch classes are spelled differently.
proof fn lemma_class_names_distinct(a: int, b: int)
    requires
        0 <= a < 12,
        0 <= b < 12,
        class_name(a) == class_name(b),
    ensures
        a == b,
{
    assert(class_name(a).len() == if class_is_sharp(a) { 2int } else { 1int });
    assert(class_name(b).len() == if class_is_sharp(b) { 2int } else { 1int });
    assert(class_name(a)[0] == class_letter(a));
    assert(class_name(b)[0] == class_letter(b));
    assert(class_name(a).len() == class_name(b).len());
    assert(class_name(a)[0] == class_name(b)[0]);
    assert(class_is_sharp(a) == class_is_sharp(b));
    assert(class_letter(a) == class_letter(b));
}

/// How a pitch sits against the bar it sounds in, from least to most
/// consonant.
#[derive(Clone, Copy, PartialEq, Eq, Structural, PartialOrd, Ord, Debug)]
pub enum NoteFit {
    OutOfScale,
    InScale,
    ChordTone,
}

impl NoteFit {
    /// The fit's place in the consonance order: 0 outside the scale, 1 in
    /// the scale, 2 a chord tone.
    pub open spec fn spec_rank(self) -> int {
        match self {
            NoteFit::OutOfScale => 0,
            NoteFit::InScale => 1,
            NoteFit::ChordTone => 2,
        }
    }

    /// The fit's place in the consonance order, so `a.rank() >= b.rank()`
    /// reads "`a` is at least as consonant as `b`".
    pub fn rank(self) -> (r: u8)
        ensures
            r == self.spec_rank(),
    {
        match self {
            NoteFit::OutOfScale => 0,
            NoteFit::InScale => 1,
            NoteFit::ChordTone => 2,
        }
    }
}

/// How pitch class `pc` sits against `chord_tones` and `scale`: a chord
/// tone first, else in the scale, else outside it.
pub open spec fn spec_class_fit(pc: int, chord_tones: Set<int>, scale: Set<int>) -> NoteFit {
    if chord_tones.contains(pc) {
        NoteFit::ChordTone
    } else if scale.contains(pc) {
        NoteFit::InScale
    } else {
        NoteFit::OutOfScale
    }
}

/// How MIDI note `midi` sits against `chord_tones` and `scale`.
pub open spec fn spec_fit(midi: int, chord_tones: Set<int>, scale: Set<int>) -> NoteFit {
    spec_class_fit(spec_pitch_class(midi), chord_tones, scale)
}

/// How MIDI note `midi` sits against `chord_tones` and `scale`.
pub fn fit(midi: u8, chord_tones: &PitchClassSet, scale: &PitchClassSet) -> (f: NoteFit)
    ensures
        f == spec_fit(midi as int, chord_tones@, scale@),
{
    let pc = pitch_class(midi);
    if chord_tones.contains(pc) {
        NoteFit::ChordTone
    } else if scale.contains(pc) {
        NoteFit::InScale
    } else {
        NoteFit::OutOfScale
    }
}

/// How the note class `note` ("C", "D#", …) sits against `chord_tones` and
/// `scale`; a name that spells no pitch class is outside both.
pub fn classify_note_fit(note: &str, chord_tones: &PitchClassSet, scale: &PitchClassSet) -> (f: NoteFit)
    ensures
        (exists|pc: int| 0 <= pc < 12 && note@ == #[trigger] class_name(pc)) ==> f == spec_class_fit(
            choose|pc: int| 0 <= pc < 12 && note@ == #[trigger] class_name(pc),
            chord_tones@,
            scale@,
        ),
        (forall|pc: int| 0 <= pc < 12 ==> note@ != #[trigger] class_name(pc)) ==> f == NoteFit::OutOfScale,
{
    match class_of_name(note) {
        Some(pc) => {
            proof {
                let c = choose|c: int| 0 <= c < 12 && note@ == #[trigger] class_name(c);
                lemma_class_names_distinct(c, pc as int);
            }
            if chord_tones.contains(pc) {
                NoteFit::ChordTone
            } else if scale.contains(pc) {
                NoteFit::InScale
            } else {
                NoteFit::OutOfScale
            }
        },
        None => NoteFit::OutOfScale,
    }
}

} // verus!
