//! The per-stem mute row of a jam's backing: which stems are muted, and
//! which one the adaptive band thins.
use vstd::prelude::*;

verus! {

/// Which of the generated backing's three stems (bass, drums, comping) is
/// the chordal comping the band thins.
pub const COMPING_STEM: usize = 2;

/// Per-stem mute state for the current jam's backing, indexed like the
/// song's stems; empty for a song without stems.
#[derive(Debug)]
pub struct JamStemMute(pub Vec<bool>);

impl Default for JamStemMute {
    /// Nothing muted, and no stems yet.
    fn default() -> (m: JamStemMute)
        ensures
            m.0@.len() == 0,
    {
        JamStemMute(Vec::new())
    }
}

impl JamStemMute {
    /// A fresh, all-unmuted row for a song with `stems` stems.
    pub fn unmuted(stems: usize) -> (m: JamStemMute)
        ensures
            m.0@ == Seq::new(stems as nat, |i: int| false),
    {
        let mut v: Vec<bool> = Vec::new();
        let mut i: usize = 0;
        while i < stems
            invariant
                i <= stems,
                v@ == Seq::new(i as nat, |k: int| false),
            decreases stems - i,
        {
            v.push(false);
            i = i + 1;
            assert(v@ =~= Seq::new(i as nat, |k: int| false));
        }
        JamStemMute(v)
    }

    /// Flips stem `stem`'s mute; a stem the song does not have is ignored.
    pub fn toggle(&mut self, stem: usize)
        ensures
            final(self).0@ == if stem < old(self).0@.len() {
                old(self).0@.update(stem as int, !old(self).0@[stem as int])
            } else {
                old(self).0@
            },
    {
        if stem < self.0.len() {
            let m = self.0[stem];
            self.0.set(stem, !m);
        }
    }

    /// Whether stem `stem` is muted; a stem the song does not have never
    /// is.
    pub fn is_muted(&self, stem: usize) -> (r: bool)
        ensures
            r == (stem < self.0@.len() && self.0@[stem as int]),
    {
        if stem < self.0.len() {
            self.0[stem]
        } else {
            false
        }
    }
}

/// Whether a backing sink playing stem `stem` (`None` for a single-track
/// song) is the comping the adaptive band shapes: only in a generated jam,
/// whose stems are the band's own.
pub fn stem_is_shaped(generated: bool, stem: Option<usize>) -> (r: bool)
    ensures
        r == (generated && stem == Some(COMPING_STEM)),
{
    match stem {
        Some(s) => generated && s == COMPING_STEM,
        None => false,
    }
}

/// Muting a stem twice leaves the row as it was, and toggling one stem
/// never touches another.
pub proof fn law_toggling_twice_restores_the_row(row: Seq<bool>, stem: int, other: int)
    requires
        0 <= stem < row.len(),
        0 <= other < row.len(),
        other != stem,
    ensures
        row.update(stem, !row[stem]).update(stem, !row.update(stem, !row[stem])[stem]) == row,
        row.update(stem, !row[stem])[other] == row[other],
{
    assert(row.update(stem, !row[stem]).update(stem, !row.update(stem, !row[stem])[stem]) =~= row);
}

} // verus!
