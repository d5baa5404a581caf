//! The string rules of the UI's localization: the message key a
//! UI-facing enum variant is looked up by, and the clean-up applied to a
//! formatted message before it is shown.
use vstd::prelude::*;

verus! {

/// `c` is an ASCII letter or digit.
pub open spec fn is_ascii_alnum(c: char) -> bool {
    ('a' <= c <= 'z') || ('A' <= c <= 'Z') || ('0' <= c <= '9')
}

/// `c` with an ASCII capital turned lower-case; anything else unchanged.
pub open spec fn ascii_lower(c: char) -> char {
    if 'A' <= c <= 'Z' {
        ((c as u32) + 32) as char
    } else {
        c
    }
}

/// Whether `c` is an ASCII letter or digit.
fn ascii_alnum(c: char) -> (r: bool)
    ensures
        r == is_ascii_alnum(c),
{
    ('a' <= c && c <= 'z') || ('A' <= c && c <= 'Z') || ('0' <= c && c <= '9')
}

/// `c` lower-cased if it is an ASCII capital.
fn lower_ascii(c: char) -> (l: char)
    ensures
        l == ascii_lower(c),
{
    if 'A' <= c && c <= 'Z' {
        let code: u32 = (c as u32) + 32;
        assert(0x61 <= code <= 0x7A);
        (code as u8) as char
    } else {
        c
    }
}

/// `label` in kebab case: letters and digits lower-cased, every run of
/// anything else one dash (`last_dash`: a dash was just written).
pub open spec fn kebab(label: Seq<char>, last_dash: bool) -> Seq<char>
    decreases label.len(),
{
    if label.len() == 0 {
        Seq::empty()
    } else if is_ascii_alnum(label[0]) {
        seq![ascii_lower(label[0])] + kebab(label.drop_first(), false)
    } else if !last_dash {
        seq!['-'] + kebab(label.drop_first(), true)
    } else {
        kebab(label.drop_first(), true)
    }
}

/// `s` without its trailing dashes.
pub open spec fn trim_trailing_dashes(s: Seq<char>) -> Seq<char>
    decreases s.len(),
{
    if s.len() > 0 && s.last() == '-' {
        trim_trailing_dashes(s.drop_last())
    } else {
        s
    }
}

/// The key of the variant labelled `label` of the enum keyed `prefix`.
pub open spec fn spec_enum_label_key(prefix: Seq<char>, label: Seq<char>) -> Seq<char> {
    trim_trailing_dashes(prefix + seq!['-'] + kebab(label, false))
}

/// `String::from_iter` over `chars`: the string made of exactly those
/// characters, in order.
#[verifier::external_body]
fn string_from_chars(chars: &[char]) -> (s: String)
    ensures
        s@ == chars@,
{
    chars.iter().collect()
}

/// Kebab-casing the rest of a label after one more character.
proof fn lemma_kebab_step(label: Seq<char>, i: int, last_dash: bool)
    requires
        0 <= i < label.len(),
    ensures
        kebab(label.subrange(i, label.len() as int), last_dash) == if is_ascii_alnum(label[i]) {
            seq![ascii_lower(label[i])] + kebab(label.subrange(i + 1, label.len() as int), false)
        } else if !last_dash {
            seq!['-'] + kebab(label.subrange(i + 1, label.len() as int), true)
        } else {
            kebab(label.subrange(i + 1, label.len() as int), true)
        },
{
    let rest = label.subrange(i, label.len() as int);
    assert(rest.drop_first() =~= label.subrange(i + 1, label.len() as int));
    assert(rest[0] == label[i]);
}

/// The locale key for one variant of a UI-facing enum, from the English
/// label the enum already uses as its identity: `("progression", "Quick
/// Change")` gives `progression-quick-change`.
pub fn enum_label_key(prefix: &str, label: &str) -> (key: String)
    ensures
        key@ == spec_enum_label_key(prefix@, label@),
{
    let mut out: Vec<char> = Vec::new();
    let plen = prefix.unicode_len();
    let mut i: usize = 0;
    while i < plen
        invariant
            plen == prefix@.len(),
            i <= plen,
            out@ == prefix@.subrange(0, i as int),
        decreases plen - i,
    {
        out.push(prefix.get_char(i));
        i = i + 1;
        assert(out@ =~= prefix@.subrange(0, i as int));
    }
    out.push('-');
    let ghost head = out@;
    assert(head =~= prefix@ + seq!['-']);
    let llen = label.unicode_len();
    let mut last_dash = false;
    let mut j: usize = 0;
    assert(label@.subrange(0, llen as int) =~= label@);
    while j < llen
        invariant
            llen == label@.len(),
            j <= llen,
            out@ + kebab(label@.subrange(j as int, llen as int), last_dash) == head + kebab(label@, false),
        decreases llen - j,
    {
        let c = label.get_char(j);
        proof {
            lemma_kebab_step(label@, j as int, last_dash);
        }
        let ghost before = out@;
        if ascii_alnum(c) {
            out.push(lower_ascii(c));
            last_dash = false;
            assert(out@ + kebab(label@.subrange(j + 1, llen as int), false) =~= before + (seq![ascii_lower(c)]
                + kebab(label@.subrange(j + 1, llen as int), false)));
        } else if !last_dash {
            out.push('-');
            last_dash = true;
            assert(out@ + kebab(label@.subrange(j + 1, llen as int), true) =~= before + (seq!['-'] + kebab(
                label@.subrange(j + 1, llen as int),
                true,
            )));
        }
        j = j + 1;
    }
    assert(label@.subrange(llen as int, llen as int) =~= Seq::<char>::empty());
    assert(out@ + Seq::<char>::empty() =~= out@);
    assert(out@ == head + kebab(label@, false));
    while out.len() > 0 && out[out.len() - 1] == '-'
        invariant
            trim_trailing_dashes(out@) == spec_enum_label_key(prefix@, label@),
        decreases out@.len(),
    {
        let ghost before = out@;
        out.pop();
        assert(out@ =~= before.drop_last());
    }
    string_from_chars(out.as_slice())
}

/// FIRST STRONG ISOLATE, which Fluent wraps round every interpolated
/// argument.
pub const FSI: char = '\u{2068}';
/// POP DIRECTIONAL ISOLATE, closing an [`FSI`].
pub const PDI: char = '\u{2069}';

/// `s` without any FSI or PDI mark.
pub open spec fn without_isolates(s: Seq<char>) -> Seq<char>
    decreases s.len(),
{
    if s.len() == 0 {
        Seq::empty()
    } else if s.last() == FSI || s.last() == PDI {
        without_isolates(s.drop_last())
    } else {
        without_isolates(s.drop_last()).push(s.last())
    }
}

/// Strips Fluent's bidi-isolation marks (FSI/PDI) from a formatted
/// message: meant for prose mixing scripts, not short single-language UI
/// labels.
pub fn strip_bidi_isolates(s: String) -> (r: String)
    ensures
        r@ == without_isolates(s@),
{
    let text = s.as_str();
    let n = text.unicode_len();
    let mut out: Vec<char> = Vec::new();
    let mut i: usize = 0;
    while i < n
        invariant
            n == s@.len(),
            text@ == s@,
            i <= n,
            out@ == without_isolates(s@.subrange(0, i as int)),
        decreases n - i,
    {
        let c = text.get_char(i);
        assert(s@.subrange(0, i + 1).drop_last() =~= s@.subrange(0, i as int));
        if c != FSI && c != PDI {
            out.push(c);
        }
        i = i + 1;
    }
    assert(s@.subrange(0, n as int) =~= s@);
    string_from_chars(out.as_slice())
}

/// A key never ends in a dash, and when the prefix is already written in
/// lower-case letters, digits and dashes, so is the whole key.
pub proof fn law_keys_are_kebab_case(prefix: Seq<char>, label: Seq<char>)
    ensures
        spec_enum_label_key(prefix, label).len() > 0 ==> spec_enum_label_key(prefix, label).last() != '-',
        (forall|k: int| 0 <= k < prefix.len() ==> #[trigger] is_key_char(prefix[k])) ==> forall|k: int|
            0 <= k < spec_enum_label_key(prefix, label).len() ==> #[trigger] is_key_char(
                spec_enum_label_key(prefix, label)[k],
            ),
{
    let s = prefix + seq!['-'] + kebab(label, false);
    lemma_trim_trailing_dashes(s);
    if forall|k: int| 0 <= k < prefix.len() ==> #[trigger] is_key_char(prefix[k]) {
        lemma_kebab_key_chars(label, false);
        assert forall|k: int| 0 <= k < s.len() implies #[trigger] is_key_char(s[k]) by {
            if k < prefix.len() {
                assert(s[k] == prefix[k]);
            } else if k == prefix.len() {
                assert(s[k] == '-');
            } else {
                assert(s[k] == kebab(label, false)[k - prefix.len() - 1]);
            }
        }
        let t = trim_trailing_dashes(s);
        assert forall|k: int| 0 <= k < t.len() implies #[trigger] is_key_char(t[k]) by {
            assert(t[k] == s[k]);
        }
    }
}

/// A lower-case ASCII letter, a digit or a dash.
pub open spec fn is_key_char(c: char) -> bool {
    ('a' <= c <= 'z') || ('0' <= c <= '9') || c == '-'
}

/// Trimming leaves a prefix of `s` that does not end in a dash.
proof fn lemma_trim_trailing_dashes(s: Seq<char>)
    ensures
        trim_trailing_dashes(s).len() <= s.len(),
        forall|k: int| 0 <= k < trim_trailing_dashes(s).len() ==> #[trigger] trim_trailing_dashes(s)[k] == s[k],
        trim_trailing_dashes(s).len() > 0 ==> trim_trailing_dashes(s).last() != '-',
    decreases s.len(),
{
    if s.len() > 0 && s.last() == '-' {
        lemma_trim_trailing_dashes(s.drop_last());
    }
}

/// Kebab-casing writes only lower-case letters, digits and dashes.
proof fn lemma_kebab_key_chars(label: Seq<char>, last_dash: bool)
    ensures
        forall|k: int| 0 <= k < kebab(label, last_dash).len() ==> #[trigger] is_key_char(kebab(label, last_dash)[k]),
    decreases label.len(),
{
    if label.len() > 0 {
        let rest = label.drop_first();
        lemma_kebab_key_chars(rest, false);
        lemma_kebab_key_chars(rest, true);
        let c = label[0];
        if is_ascii_alnum(c) {
            let lc = ascii_lower(c);
            assert(is_key_char(lc)) by {
                if 'A' <= c <= 'Z' {
                    assert((c as u32) + 32 <= 'z' as u32);
                }
            }
            let out = kebab(label, last_dash);
            assert forall|k: int| 0 <= k < out.len() implies #[trigger] is_key_char(out[k]) by {
                if k > 0 {
                    assert(out[k] == kebab(rest, false)[k - 1]);
                } else {
                    assert(out[0] == lc);
                }
            }
        } else if !last_dash {
            let out = kebab(label, last_dash);
            assert forall|k: int| 0 <= k < out.len() implies #[trigger] is_key_char(out[k]) by {
                if k > 0 {
                    assert(out[k] == kebab(rest, true)[k - 1]);
                } else {
                    assert(out[0] == '-');
                }
            }
        } else {
            assert(kebab(label, last_dash) == kebab(rest, true));
        }
    }
}

} // verus!
