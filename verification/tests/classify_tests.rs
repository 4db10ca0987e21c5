use hiliter::classify::classify;
use hiliter::classify::group_name;
use hiliter::classify::HighlightGroup;

#[test]
fn def_is_keyword() {
    assert_eq!(classify(&"def".to_owned()), HighlightGroup::Keyword);
}

#[test]
fn identifier_is_identifier() {
    assert_eq!(classify(&"identifier".to_owned()), HighlightGroup::Identifier);
}

#[test]
fn empty_kind_is_normal() {
    assert_eq!(classify(&String::new()), HighlightGroup::Normal);
}

#[test]
fn unknown_kinds_are_normal() {
    assert_eq!(classify(&"module".to_owned()), HighlightGroup::Normal);
    assert_eq!(classify(&"ERROR".to_owned()), HighlightGroup::Normal);
    assert_eq!(classify(&"Def".to_owned()), HighlightGroup::Normal);
    assert_eq!(classify(&"identifiers".to_owned()), HighlightGroup::Normal);
}

#[test]
fn group_names() {
    assert_eq!(group_name(HighlightGroup::Keyword), "Keyword");
    assert_eq!(group_name(HighlightGroup::Identifier), "Identifier");
    assert_eq!(group_name(HighlightGroup::Normal), "Normal");
}
