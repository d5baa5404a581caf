//! Which of the pitches the microphone hears the live indicator names.
use vstd::prelude::*;

use crate::phrase::PlayableNote;

verus! {

/// The first note of `playable` that sounds `midi`, if any.
pub open spec fn first_with_midi(playable: Seq<PlayableNote>, midi: u8) -> Option<PlayableNote>
    decreases playable.len(),
{
    if playable.len() == 0 {
        None
    } else if playable[0].midi == midi {
        Some(playable[0])
    } else {
        first_with_midi(playable.drop_first(), midi)
    }
}

/// `(midi, hole)` of `a` comes before that of `b`.
pub open spec fn sounds_below(a: PlayableNote, b: PlayableNote) -> bool {
    a.midi < b.midi || (a.midi == b.midi && a.hole < b.hole)
}

/// The harp note standing for the `i`-th active pitch, if the harp plays
/// it.
pub open spec fn matched(active: Seq<u8>, playable: Seq<PlayableNote>, i: int) -> Option<PlayableNote> {
    first_with_midi(playable, active[i])
}

/// The first note of `playable` that sounds `midi`.
fn find_playable(playable: &[PlayableNote], midi: u8) -> (r: Option<PlayableNote>)
    ensures
        r == first_with_midi(playable@, midi),
{
    let mut k: usize = 0;
    assert(playable@.subrange(0, playable@.len() as int) =~= playable@);
    while k < playable.len()
        invariant
            k <= playable@.len(),
            first_with_midi(playable@, midi) == first_with_midi(playable@.subrange(k as int, playable@.len() as int), midi),
        decreases playable@.len() - k,
    {
        let ghost rest = playable@.subrange(k as int, playable@.len() as int);
        assert(rest.drop_first() =~= playable@.subrange(k + 1, playable@.len() as int));
        if playable[k].midi == midi {
            return Some(playable[k]);
        }
        k = k + 1;
    }
    assert(playable@.subrange(k as int, playable@.len() as int).len() == 0);
    None
}

/// Which sounding pitch the indicator names: among the active pitches
/// (`active`, as MIDI numbers) that the harp can sound, the one whose harp
/// note is lowest by pitch then hole — a chord's root, a single note
/// itself — so a tongue-blocked chord doesn't flicker between its holes.
/// Returns the pitch's index in `active` (the first such, on a tie) and
/// the harp note; `None` when nothing playable is sounding.
pub fn lowest_sounding(active: &[u8], playable: &[PlayableNote]) -> (r: Option<(usize, PlayableNote)>)
    ensures
        r is None <==> forall|i: int| 0 <= i < active@.len() ==> #[trigger] matched(active@, playable@, i) is None,
        r matches Some((i, n)) ==> {
            &&& i < active@.len()
            &&& matched(active@, playable@, i as int) == Some(n)
            &&& forall|j: int|
                0 <= j < active@.len() && #[trigger] matched(active@, playable@, j) is Some ==> !sounds_below(
                    matched(active@, playable@, j).unwrap(),
                    n,
                )
            &&& forall|j: int|
                0 <= j < i && #[trigger] matched(active@, playable@, j) is Some ==> sounds_below(
                    n,
                    matched(active@, playable@, j).unwrap(),
                )
        },
{
    let mut best: Option<(usize, PlayableNote)> = None;
    let mut i: usize = 0;
    while i < active.len()
        invariant
            i <= active@.len(),
            best is None <==> forall|j: int| 0 <= j < i ==> #[trigger] matched(active@, playable@, j) is None,
            best matches Some((b, n)) ==> {
                &&& b < i
                &&& matched(active@, playable@, b as int) == Some(n)
                &&& forall|j: int|
                    0 <= j < i && #[trigger] matched(active@, playable@, j) is Some ==> !sounds_below(
                        matched(active@, playable@, j).unwrap(),
                        n,
                    )
                &&& forall|j: int|
                    0 <= j < b && #[trigger] matched(active@, playable@, j) is Some ==> sounds_below(
                        n,
                        matched(active@, playable@, j).unwrap(),
                    )
            },
        decreases active@.len() - i,
    {
        let found = find_playable(playable, active[i]);
        assert(found == matched(active@, playable@, i as int));
        match found {
            None => {},
            Some(n) => {
                match best {
                    None => {
                        best = Some((i, n));
                    },
                    Some((_, b)) => {
                        if n.midi < b.midi || (n.midi == b.midi && n.hole < b.hole) {
                            best = Some((i, n));
                        }
                    },
                }
            },
        }
        i = i + 1;
    }
    best
}

} // verus!
