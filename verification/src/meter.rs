//! A single time signature: how long its beat and its bar are on a tick
//! grid, and how it is read from its `"N/D"` text form.
use vstd::prelude::*;

verus! {

/// A time signature: `numerator` beats of a `1/denominator` note each.
#[derive(Clone, Copy, Debug, PartialEq, Eq)]
pub struct MusicScoreMeter {
    pub numerator: u32,
    pub denominator: u32,
}

/// Common time, the meter every piece is in unless it says otherwise.
pub open spec fn common_time() -> MusicScoreMeter {
    MusicScoreMeter { numerator: 4, denominator: 4 }
}

impl MusicScoreMeter {
    /// Common time (4/4).
    pub fn common() -> (m: MusicScoreMeter)
        ensures
            m == common_time(),
    {
        MusicScoreMeter { numerator: 4, denominator: 4 }
    }

    /// Ticks in one beat when a quarter note is `quarter_ticks` ticks:
    /// defined when the beat is a whole number of ticks.
    pub open spec fn spec_ticks_per_beat(self, quarter_ticks: u32) -> Option<u32> {
        if self.denominator != 0 && (4 * quarter_ticks) % (self.denominator as int) == 0 {
            Some(((4 * quarter_ticks) / (self.denominator as int)) as u32)
        } else {
            None
        }
    }

    /// Ticks in one bar: `numerator` beats, when that fits a `u32`.
    pub open spec fn spec_ticks_per_bar(self, quarter_ticks: u32) -> Option<u32> {
        match self.spec_ticks_per_beat(quarter_ticks) {
            Some(beat) => if beat * self.numerator <= u32::MAX {
                Some((beat * self.numerator) as u32)
            } else {
                None
            },
            None => None,
        }
    }

    /// Ticks in one beat of this meter, `None` when the beat is not a whole
    /// number of ticks (or the denominator is zero).
    pub fn ticks_per_beat(&self, quarter_ticks: u32) -> (r: Option<u32>)
        ensures
            r == self.spec_ticks_per_beat(quarter_ticks),
    {
        if self.denominator == 0 {
            return None;
        }
        let whole: u64 = 4 * (quarter_ticks as u64);
        let d: u64 = self.denominator as u64;
        if whole % d == 0 {
            let beat: u64 = whole / d;
            assert(beat <= whole);
            Some(beat as u32)
        } else {
            None
        }
    }

    /// Ticks in one bar of this meter, `None` when a beat is not a whole
    /// number of ticks or the bar does not fit a `u32`.
    pub fn ticks_per_bar(&self, quarter_ticks: u32) -> (r: Option<u32>)
        ensures
            r == self.spec_ticks_per_bar(quarter_ticks),
    {
        match self.ticks_per_beat(quarter_ticks) {
            Some(beat) => {
                let b: u64 = beat as u64;
                let n: u64 = self.numerator as u64;
                assert(b * n <= 0xffff_ffff * 0xffff_ffff) by (nonlinear_arith)
                    requires
                        b <= 0xffff_ffff,
                        n <= 0xffff_ffff,
                ;
                let bar: u64 = b * n;
                if bar <= u32::MAX as u64 {
                    Some(bar as u32)
                } else {
                    None
                }
            },
            None => None,
        }
    }
}

/// Whether `c` is an ASCII decimal digit.
pub open spec fn is_digit(c: char) -> bool {
    '0' <= c && c <= '9'
}

/// A non-empty run of decimal digits.
pub open spec fn is_digits(s: Seq<char>) -> bool {
    s.len() > 0 && forall|i: int| 0 <= i < s.len() ==> #[trigger] is_digit(s[i])
}

/// The number a run of decimal digits spells.
pub open spec fn digits_value(s: Seq<char>) -> nat
    decreases s.len(),
{
    if s.len() == 0 {
        0
    } else {
        digits_value(s.drop_last()) * 10 + ((s.last() as u32) - ('0' as u32)) as nat
    }
}

/// The numbers of an `"N/D"` signature, both written in decimal, both
/// positive and both fitting a `u32`; `None` for anything else.
pub open spec fn parsed_signature(s: Seq<char>) -> Option<(u32, u32)> {
    if exists|k: int| 0 <= k < s.len() && s[k] == '/' && is_digits(s.subrange(0, k)) && is_digits(
        s.subrange(k + 1, s.len() as int),
    ) {
        let k = choose|k: int|
            0 <= k < s.len() && s[k] == '/' && is_digits(s.subrange(0, k)) && is_digits(
                s.subrange(k + 1, s.len() as int),
            );
        let n = digits_value(s.subrange(0, k));
        let d = digits_value(s.subrange(k + 1, s.len() as int));
        if 1 <= n <= u32::MAX && 1 <= d <= u32::MAX {
            Some((n as u32, d as u32))
        } else {
            None
        }
    } else {
        None
    }
}

/// The meter an `"N/D"` text names; common time when it names none.
pub open spec fn spec_parse_time_signature(s: Seq<char>) -> MusicScoreMeter {
    match parsed_signature(s) {
        Some((n, d)) => MusicScoreMeter { numerator: n, denominator: d },
        None => common_time(),
    }
}

proof fn lemma_digits_value_grows(s: Seq<char>, t: Seq<char>)
    requires
        is_digits(s + t) || t.len() == 0 || (forall|i: int| 0 <= i < t.len() ==> #[trigger] is_digit(t[i])),
    ensures
        digits_value(s + t) >= digits_value(s),
    decreases t.len(),
{
    if t.len() == 0 {
        assert(s + t =~= s);
    } else {
        let u = s + t;
        assert(u.drop_last() =~= s + t.drop_last());
        assert forall|i: int| 0 <= i < t.drop_last().len() implies #[trigger] is_digit(t.drop_last()[i]) by {
            if is_digits(s + t) {
                assert(u[s.len() + i] == t[i]);
            }
        }
        lemma_digits_value_grows(s, t.drop_last());
    }
}

/// The value of the digits `s@[from..to]`, `None` when the run is empty,
/// holds a non-digit, or the value exceeds `u32::MAX`.
fn parse_digits(s: &str, from: usize, to: usize) -> (r: Option<u32>)
    requires
        from <= to <= s@.len(),
    ensures
        r.is_some() <==> (is_digits(s@.subrange(from as int, to as int)) && digits_value(
            s@.subrange(from as int, to as int),
        ) <= u32::MAX),
        r matches Some(v) ==> v == digits_value(s@.subrange(from as int, to as int)),
{
    if from == to {
        return None;
    }
    let ghost run = s@.subrange(from as int, to as int);
    let mut value: u32 = 0;
    let mut i: usize = from;
    while i < to
        invariant
            from <= i <= to <= s@.len(),
            run == s@.subrange(from as int, to as int),
            forall|j: int| 0 <= j < i - from ==> #[trigger] is_digit(run[j]),
            value == digits_value(run.subrange(0, i - from)),
        decreases to - i,
    {
        let c = s.get_char(i);
        if !('0' <= c && c <= '9') {
            assert(!is_digit(run[i - from]));
            return None;
        }
        let digit: u32 = (c as u32) - ('0' as u32);
        let ghost prefix = run.subrange(0, i - from);
        let ghost next = run.subrange(0, i + 1 - from);
        assert(next.drop_last() =~= prefix);
        assert(next.last() == c);
        if value > (u32::MAX - digit) / 10 {
            assert(digits_value(next) > u32::MAX);
            proof {
                assert(run =~= next + run.subrange(i + 1 - from, run.len() as int));
                if is_digits(run) {
                    lemma_digits_value_grows(next, run.subrange(i + 1 - from, run.len() as int));
                }
            }
            return None;
        }
        value = value * 10 + digit;
        i = i + 1;
    }
    assert(run.subrange(0, to - from) =~= run);
    Some(value)
}

/// Reads an `"N/D"` time signature; anything that is not two positive
/// decimal numbers around a slash reads as common time.
pub fn parse_time_signature(sig: &str) -> (m: MusicScoreMeter)
    ensures
        m == spec_parse_time_signature(sig@),
{
    let len = sig.unicode_len();
    let mut k: usize = 0;
    while k < len
        invariant
            len == sig@.len(),
            k <= len,
            forall|j: int| 0 <= j < k ==> sig@[j] != '/',
        ensures
            k <= len,
            forall|j: int| 0 <= j < k ==> sig@[j] != '/',
            k < len ==> sig@[k as int] == '/',
        decreases len - k,
    {
        if sig.get_char(k) == '/' {
            break;
        }
        k = k + 1;
    }
    let ghost s = sig@;
    if k == len {
        assert(parsed_signature(s).is_none());
        return MusicScoreMeter::common();
    }
    assert(s[k as int] == '/');
    // Every candidate split point holds the first slash: digits never do.
    assert forall|j: int|
        0 <= j < s.len() && s[j] == '/' && is_digits(s.subrange(0, j)) && is_digits(
            s.subrange(j + 1, s.len() as int),
        ) implies j == k by {
        if j > k {
            assert(s.subrange(0, j)[k as int] == s[k as int]);
            assert(!is_digit(s.subrange(0, j)[k as int]));
        }
    }
    let n = parse_digits(sig, 0, k);
    let d = parse_digits(sig, k + 1, len);
    match (n, d) {
        (Some(n), Some(d)) => {
            if n >= 1 && d >= 1 {
                MusicScoreMeter { numerator: n, denominator: d }
            } else {
                MusicScoreMeter::common()
            }
        },
        _ => MusicScoreMeter::common(),
    }
}

} // verus!
