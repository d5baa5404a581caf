//! An open jam's transport: where in the 12-bar form the jam is, whether
//! its music should start over when a playthrough finishes, and the
//! "end after this chorus" request that stops a generated jam at the next
//! chorus boundary.
use vstd::prelude::*;

verus! {

/// Bars in one chorus of the blues form.
pub const FORM_BARS: usize = 12;

/// The first bar of the chorus after the one `absolute_bar` is in.
pub open spec fn spec_next_chorus_boundary(absolute_bar: int) -> int {
    (absolute_bar / FORM_BARS as int + 1) * FORM_BARS as int
}

/// The bar an "end after this chorus" request stops at: the first bar of
/// the next chorus.
pub fn next_chorus_boundary(absolute_bar: usize) -> (b: usize)
    requires
        absolute_bar + FORM_BARS <= usize::MAX,
    ensures
        b == spec_next_chorus_boundary(absolute_bar as int),
{
    assert((absolute_bar / 12 + 1) * 12 <= absolute_bar + 12) by (nonlinear_arith);
    (absolute_bar / FORM_BARS + 1) * FORM_BARS
}

/// The boundary is a chorus's first bar, strictly after `absolute_bar` and
/// no more than a chorus away.
pub proof fn law_the_ending_lands_on_the_next_chorus(absolute_bar: int)
    requires
        absolute_bar >= 0,
    ensures
        spec_next_chorus_boundary(absolute_bar) % FORM_BARS as int == 0,
        absolute_bar < spec_next_chorus_boundary(absolute_bar) <= absolute_bar + FORM_BARS,
{
    let q = absolute_bar / 12;
    assert(absolute_bar == 12 * q + absolute_bar % 12);
    assert(((q + 1) * 12) % 12 == 0) by (nonlinear_arith);
}

/// Whether the jam's music should be (re)spawned right now: the jam has
/// started, either the player's Loop is on or the jam is a generated one,
/// no ending is scheduled or done, and no playthrough is still sounding.
pub fn should_restart_jam_music(
    loop_on: bool,
    generated: bool,
    ending_active: bool,
    music_started: bool,
    music_player_alive: bool,
) -> (r: bool)
    ensures
        r == (music_started && (loop_on || generated) && !ending_active && !music_player_alive),
{
    music_started && (loop_on || generated) && !ending_active && !music_player_alive
}

/// Where bar `absolute_bar` sits in the form, counting from one: its
/// chorus and its bar within that chorus.
pub fn form_position(absolute_bar: usize) -> (p: (usize, usize))
    ensures
        p.0 == absolute_bar / FORM_BARS + 1,
        p.1 == absolute_bar % FORM_BARS + 1,
        1 <= p.1 <= FORM_BARS,
{
    (absolute_bar / FORM_BARS + 1, absolute_bar % FORM_BARS + 1)
}

/// The chord readout's indices into a jam's `chords`-long chord sequence
/// while bar `current_bar` sounds: this bar's chord and the next one,
/// wrapping round the form; nothing for an empty sequence.
pub fn chord_now_and_next(current_bar: usize, chords: usize) -> (r: Option<(usize, usize)>)
    requires
        current_bar < usize::MAX,
    ensures
        r is None <==> chords == 0,
        r matches Some((now, next)) ==> now == current_bar % chords && next == (current_bar + 1) % (chords as int),
{
    if chords == 0 {
        return None;
    }
    Some((current_bar % chords, (current_bar + 1) % chords))
}

/// What the transport does with a scheduled ending on this frame.
#[derive(Clone, Copy, PartialEq, Eq, Structural, Debug)]
pub enum EndingStep {
    /// Nothing scheduled, or the boundary not reached yet: keep playing.
    Play,
    /// The boundary has just been reached: stop the backing and play the
    /// tonic punctuation.
    Finish,
    /// The jam has already ended: hold the clock where it stopped.
    Hold,
}

/// A generated jam's ending: the bar it is asked to stop at, and whether it
/// has ended.
#[derive(Clone, Copy, PartialEq, Eq, Structural, Debug)]
pub struct JamEnding {
    pub stop_at_bar: Option<usize>,
    pub ended: bool,
}

impl Default for JamEnding {
    /// No ending asked for.
    fn default() -> (e: JamEnding)
        ensures
            e.stop_at_bar is None,
            !e.ended,
    {
        JamEnding { stop_at_bar: None, ended: false }
    }
}

/// The readout key for an ending in state (`stop_at_bar`, `ended`).
pub open spec fn spec_ending_key(stop_at_bar: Option<usize>, ended: bool) -> Seq<char> {
    if ended {
        "jam-ended"@
    } else if stop_at_bar is Some {
        "jam-ending-after-chorus"@
    } else {
        "jam-keep-playing"@
    }
}

impl JamEnding {
    /// The ending after "end after this chorus" is pressed at
    /// `absolute_bar`: the next chorus boundary, unless an ending is
    /// already scheduled or done.
    pub open spec fn requested(self, absolute_bar: int) -> JamEnding {
        if self.stop_at_bar is None && !self.ended {
            JamEnding { stop_at_bar: Some(spec_next_chorus_boundary(absolute_bar) as usize), ended: false }
        } else {
            self
        }
    }

    /// The ending after one frame at `absolute_bar`, and what the frame
    /// does: hold once ended, finish when the boundary is reached, else
    /// play on.
    pub open spec fn stepped(self, absolute_bar: int) -> (JamEnding, EndingStep) {
        if self.ended {
            (self, EndingStep::Hold)
        } else if self.stop_at_bar matches Some(stop) && absolute_bar >= stop {
            (JamEnding { stop_at_bar: self.stop_at_bar, ended: true }, EndingStep::Finish)
        } else {
            (self, EndingStep::Play)
        }
    }

    /// An ending is scheduled or done — the music must not start over.
    pub fn is_active(&self) -> (r: bool)
        ensures
            r == (self.stop_at_bar is Some || self.ended),
    {
        self.stop_at_bar.is_some() || self.ended
    }

    /// The "end after this chorus" button, pressed at `absolute_bar`: the
    /// jam is set to stop at the next chorus boundary, unless an ending is
    /// already scheduled or done.
    pub fn request_end(&mut self, absolute_bar: usize)
        requires
            absolute_bar + FORM_BARS <= usize::MAX,
        ensures
            *final(self) == old(self).requested(absolute_bar as int),
    {
        if self.stop_at_bar.is_none() && !self.ended {
            self.stop_at_bar = Some(next_chorus_boundary(absolute_bar));
        }
    }

    /// One frame of the transport at `absolute_bar`: holds once ended,
    /// finishes when the scheduled boundary is reached, else plays on.
    pub fn step(&mut self, absolute_bar: usize) -> (s: EndingStep)
        ensures
            (*final(self), s) == old(self).stepped(absolute_bar as int),
    {
        if self.ended {
            return EndingStep::Hold;
        }
        match self.stop_at_bar {
            None => EndingStep::Play,
            Some(stop) => {
                if absolute_bar < stop {
                    EndingStep::Play
                } else {
                    self.ended = true;
                    EndingStep::Finish
                }
            },
        }
    }

    /// The key of the ending readout: ended, ending after this chorus, or
    /// keep playing.
    pub fn label_key(&self) -> (key: &'static str)
        ensures
            key@ == spec_ending_key(self.stop_at_bar, self.ended),
    {
        if self.ended {
            "jam-ended"
        } else if self.stop_at_bar.is_some() {
            "jam-ending-after-chorus"
        } else {
            "jam-keep-playing"
        }
    }
}

/// Once asked for, an ending is never moved or taken back: asking again
/// changes nothing, a jam finishes at most once and then holds, and a jam
/// whose ending is active never starts its music over.
pub proof fn law_an_ending_sticks(e: JamEnding, first: int, later: int, frame: int)
    ensures
        e.requested(first).requested(later) == e.requested(first),
        e.requested(first).stop_at_bar is Some || e.requested(first).ended,
        e.ended ==> e.stepped(frame).0 == e && e.stepped(frame).1 == EndingStep::Hold,
        e.stepped(frame).1 == EndingStep::Finish ==> e.stepped(frame).0.stepped(later).1 == EndingStep::Hold,
        (e.stop_at_bar is Some || e.ended) ==> (e.stepped(frame).0.stop_at_bar is Some || e.stepped(frame).0.ended),
{
}

} // verus!
