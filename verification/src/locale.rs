//! Which language the UI speaks: the tag the player asked for, parsed with
//! a safe fallback, and the chain of available locales that can serve it,
//! best first, with the default as the last resort.
use fluent_langneg::{negotiate_languages, NegotiationStrategy};
use unic_langid::{LanguageIdentifier, LanguageIdentifierError};
use vstd::prelude::*;

verus! {

/// A BCP-47 language identifier, as `unic_langid` parses it.
#[verifier::external_type_specification]
#[verifier::external_body]
pub struct ExLanguageIdentifier(LanguageIdentifier);

/// Why `unic_langid` refused a tag.
#[verifier::external_type_specification]
#[verifier::external_body]
pub struct ExLanguageIdentifierError(LanguageIdentifierError);

/// The language every screen has a translation in.
pub const DEFAULT_LANGUAGE: &'static str = "en-US";

/// What `unic_langid` parses `tag` into, `None` where it refuses it.
pub uninterp spec fn parsed_tag(tag: Seq<char>) -> Option<LanguageIdentifier>;

/// `<LanguageIdentifier as FromStr>::from_str`: the identifier `tag`
/// spells, or the parser's error. Claimed: the result is a function of
/// the tag alone (`parsed_tag`), and the well-formed tag `en-US` parses.
#[verifier::external_body]
fn parse_tag(tag: &str) -> (r: Result<LanguageIdentifier, LanguageIdentifierError>)
    ensures
        r is Ok <==> parsed_tag(tag@) is Some,
        r is Ok ==> parsed_tag(tag@) == Some(r->Ok_0),
        tag@ == "en-US"@ ==> r is Ok,
{
    tag.parse()
}

/// `<LanguageIdentifier as Clone>::clone`: claimed to give back an equal
/// identifier (the impl is derived, field by field).
pub assume_specification[ <LanguageIdentifier as Clone>::clone ](lang: &LanguageIdentifier) -> (c: LanguageIdentifier)
    ensures
        c == *lang,
;

/// The identifiers a list of references points to, in order.
pub open spec fn derefs(s: Seq<&LanguageIdentifier>) -> Seq<LanguageIdentifier> {
    s.map_values(|x: &LanguageIdentifier| *x)
}

/// What Filtering negotiation returns for one requested language, the
/// available ones in order, and an optional default.
pub uninterp spec fn negotiated(
    requested: LanguageIdentifier,
    available: Seq<LanguageIdentifier>,
    default: Option<LanguageIdentifier>,
) -> Seq<LanguageIdentifier>;

/// `fluent_langneg::negotiate_languages` with the `Filtering` strategy,
/// for one requested language. Claimed: the result is a function of the
/// requested language, the available ones and the default (`negotiated`);
/// and, as its source shows, every locale it returns is one of
/// `available` or the default; an available locale equal to the requested
/// one comes first; the default, when there is one, is always in the
/// list; and no more come back than were offered plus the default.
#[verifier::external_body]
fn negotiate<'a>(
    requested: &LanguageIdentifier,
    available: &[&'a LanguageIdentifier],
    default: Option<&'a LanguageIdentifier>,
) -> (r: Vec<&'a LanguageIdentifier>)
    ensures
        derefs(r@) == negotiated(
            *requested,
            derefs(available@),
            match default {
                Some(d) => Some(*d),
                None => None,
            },
        ),
        r@.len() <= available@.len() + 1,
        forall|i: int|
            0 <= i < r@.len() ==> available@.contains(#[trigger] r@[i]) || default == Some(r@[i]),
        available@.contains(requested) ==> r@.len() > 0 && *r@[0] == *requested,
        default matches Some(d) ==> r@.contains(d),
{
    let default = default.as_ref();
    negotiate_languages(std::slice::from_ref(requested), available, default, NegotiationStrategy::Filtering)
        .into_iter()
        .copied()
        .collect()
}

/// Parses a BCP-47 tag, falling back to `DEFAULT_LANGUAGE` on a malformed
/// value.
pub fn parse_lang(tag: &str) -> (lang: LanguageIdentifier)
    ensures
        parsed_tag(tag@) matches Some(p) ==> lang == p,
        parsed_tag(tag@) is None ==> parsed_tag(DEFAULT_LANGUAGE@) == Some(lang),
{
    match parse_tag(tag) {
        Ok(lang) => lang,
        Err(_) => parse_tag(DEFAULT_LANGUAGE).expect("DEFAULT_LANGUAGE must be a valid language tag"),
    }
}

/// Which language the UI should be in, and which to fall back to.
#[derive(Clone, Debug)]
pub struct Locale {
    /// The language the player asked for.
    pub requested: LanguageIdentifier,
    /// Where to land when `requested` has no bundle — `DEFAULT_LANGUAGE`
    /// in practice, so the UI always has some translation.
    pub default: Option<LanguageIdentifier>,
}

impl Locale {
    /// A locale asking for `requested`, with no default yet.
    pub fn new(requested: LanguageIdentifier) -> (l: Locale)
        ensures
            l.requested == requested,
            l.default is None,
    {
        Locale { requested, default: None }
    }

    /// The same locale falling back to `default`.
    pub fn with_default(self, default: LanguageIdentifier) -> (l: Locale)
        ensures
            l.requested == self.requested,
            l.default == Some(default),
    {
        Locale { requested: self.requested, default: Some(default) }
    }

    /// The available locales that can serve `requested`, best first, with
    /// `default` appended as the last resort: exactly what Filtering
    /// negotiation gives for them. The requested locale itself leads when
    /// it is available, the default is always there when set, and nothing
    /// else comes from outside `available`.
    pub fn fallback_chain<'a>(&'a self, available: &[&'a LanguageIdentifier]) -> (chain: Vec<
        &'a LanguageIdentifier,
    >)
        ensures
            derefs(chain@) == negotiated(self.requested, derefs(available@), self.default),
            chain@.len() <= available@.len() + 1,
            forall|i: int|
                0 <= i < chain@.len() ==> available@.contains(#[trigger] chain@[i]) || self.default
                    == Some(*chain@[i]),
            available@.contains(&self.requested) ==> chain@.len() > 0 && *chain@[0] == self.requested,
            self.default matches Some(d) ==> chain@.contains(&d),
    {
        let default = match &self.default {
            Some(d) => Some(d),
            None => None,
        };
        negotiate(&self.requested, available, default)
    }
}

/// The locale a fresh start uses: asking for, and defaulting to,
/// `DEFAULT_LANGUAGE`.
pub fn default_locale() -> (l: Locale)
    ensures
        parsed_tag(DEFAULT_LANGUAGE@) == Some(l.requested),
        l.default == Some(l.requested),
{
    let default = parse_lang(DEFAULT_LANGUAGE);
    Locale::new(default.clone()).with_default(default)
}

} // verus!
