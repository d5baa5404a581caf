use harmonicon::localization::{enum_label_key, strip_bidi_isolates};

#[test]
fn enum_label_keys_are_kebab_case() {
    assert_eq!(
        enum_label_key("progression", "Quick Change"),
        "progression-quick-change"
    );
    assert_eq!(
        enum_label_key("scale", "1st Position"),
        "scale-1st-position"
    );
    assert_eq!(enum_label_key("position", "12th"), "position-12th");
    assert_eq!(enum_label_key("genre", "Blues"), "genre-blues");
}

#[test]
fn strip_bidi_isolates_removes_fsi_pdi_marks() {
    let wrapped = "Score: \u{2068}100\u{2069} pts".to_string();
    assert_eq!(strip_bidi_isolates(wrapped), "Score: 100 pts");
}

#[test]
fn punctuation_runs_collapse_to_one_dash_and_none_trails() {
    assert_eq!(enum_label_key("energy", "Low / Medium!"), "energy-low-medium");
    assert_eq!(enum_label_key("genre", ""), "genre");
    assert_eq!(enum_label_key("genre", " Rock"), "genre--rock");
}

#[test]
fn text_without_marks_passes_through() {
    assert_eq!(strip_bidi_isolates("Ação".to_string()), "Ação");
    assert_eq!(strip_bidi_isolates(String::new()), "");
}
