use harmonicon::locale::{default_locale, parse_lang, Locale, DEFAULT_LANGUAGE};
use unic_langid::LanguageIdentifier;

fn tags(chain: Vec<&LanguageIdentifier>) -> Vec<String> {
    chain.into_iter().map(|lang| lang.to_string()).collect()
}

#[test]
fn fallback_chain_prefers_requested_then_default() {
    let locale = default_locale();
    let locale = Locale {
        requested: parse_lang("pt-BR"),
        ..locale
    };
    let available: Vec<LanguageIdentifier> = ["en-US", "pt-BR", "es-ES"]
        .iter()
        .map(|tag| parse_lang(tag))
        .collect();
    let refs: Vec<&LanguageIdentifier> = available.iter().collect();

    let chain = tags(locale.fallback_chain(&refs));

    assert_eq!(chain, vec!["pt-BR".to_string(), "en-US".to_string()]);
}

#[test]
fn a_well_formed_tag_parses_as_itself() {
    assert_eq!(parse_lang("es-ES").to_string(), "es-ES");
    assert_eq!(parse_lang("pt-BR").to_string(), "pt-BR");
}

#[test]
fn a_malformed_tag_falls_back_to_the_default_language() {
    assert_eq!(parse_lang("not a tag!!").to_string(), DEFAULT_LANGUAGE);
    assert_eq!(parse_lang("").to_string(), DEFAULT_LANGUAGE);
}

#[test]
fn a_fresh_locale_asks_for_and_defaults_to_the_default_language() {
    let locale = default_locale();
    assert_eq!(locale.requested.to_string(), DEFAULT_LANGUAGE);
    assert_eq!(
        locale.default.as_ref().map(|lang| lang.to_string()),
        Some(DEFAULT_LANGUAGE.to_string())
    );
}

#[test]
fn an_unavailable_request_falls_back_to_the_default_alone() {
    let locale = Locale::new(parse_lang("fr-FR")).with_default(parse_lang("en-US"));
    let available: Vec<LanguageIdentifier> = ["en-US", "pt-BR", "es-ES"]
        .iter()
        .map(|tag| parse_lang(tag))
        .collect();
    let refs: Vec<&LanguageIdentifier> = available.iter().collect();

    assert_eq!(tags(locale.fallback_chain(&refs)), vec!["en-US".to_string()]);
}

#[test]
fn without_a_default_only_available_matches_come_back() {
    let locale = Locale::new(parse_lang("es-ES"));
    assert!(locale.default.is_none());
    let available: Vec<LanguageIdentifier> = ["en-US", "pt-BR", "es-ES"]
        .iter()
        .map(|tag| parse_lang(tag))
        .collect();
    let refs: Vec<&LanguageIdentifier> = available.iter().collect();

    assert_eq!(tags(locale.fallback_chain(&refs)), vec!["es-ES".to_string()]);
    let nothing: Vec<&LanguageIdentifier> = Vec::new();
    assert!(locale.fallback_chain(&nothing).is_empty());
}
