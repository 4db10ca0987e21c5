//! The highlight classifier: a total, closed mapping from a leaf's
//! syntactic kind to a highlight group.

use vstd::prelude::*;

verus! {

/// A symbolic highlight group the editor maps to a visual style.
#[derive(Clone, Copy, Debug, PartialEq, Eq, Structural)]
pub enum HighlightGroup {
    Keyword,
    Identifier,
    Normal,
}

/// The classification rule: kind "def" is a keyword, kind "identifier"
/// an identifier, and every other kind — including the empty string and
/// kinds unknown to this table, such as the parser's error kinds —
/// falls back to Normal. Total: every kind string is mapped to exactly
/// one group.
pub open spec fn spec_classify(kind: Seq<char>) -> HighlightGroup {
    if kind == "def"@ {
        HighlightGroup::Keyword
    } else if kind == "identifier"@ {
        HighlightGroup::Identifier
    } else {
        HighlightGroup::Normal
    }
}

/// Map a leaf's kind to its highlight group by the fixed lookup rule.
pub fn classify(kind: &String) -> (g: HighlightGroup)
    ensures
        g == spec_classify(kind@),
{
    let def_kind: String = "def".to_owned();
    let ident_kind: String = "identifier".to_owned();
    if *kind == def_kind {
        HighlightGroup::Keyword
    } else if *kind == ident_kind {
        HighlightGroup::Identifier
    } else {
        HighlightGroup::Normal
    }
}

/// The name of a highlight group, as the editor's paint interface
/// expects it.
pub fn group_name(g: HighlightGroup) -> (name: String)
    ensures
        g == HighlightGroup::Keyword ==> name@ == "Keyword"@,
        g == HighlightGroup::Identifier ==> name@ == "Identifier"@,
        g == HighlightGroup::Normal ==> name@ == "Normal"@,
{
    match g {
        HighlightGroup::Keyword => "Keyword".to_owned(),
        HighlightGroup::Identifier => "Identifier".to_owned(),
        HighlightGroup::Normal => "Normal".to_owned(),
    }
}

/// Classifier totality: every kind string is mapped to one of the three
/// groups, "def" to Keyword, "identifier" to Identifier, and any other
/// string to Normal.
pub proof fn lemma_classifier_total(kind: Seq<char>)
    ensures
        spec_classify(kind) == HighlightGroup::Keyword || spec_classify(kind)
            == HighlightGroup::Identifier || spec_classify(kind) == HighlightGroup::Normal,
        kind == "def"@ ==> spec_classify(kind) == HighlightGroup::Keyword,
        kind == "identifier"@ ==> spec_classify(kind) == HighlightGroup::Identifier,
        kind != "def"@ && kind != "identifier"@ ==> spec_classify(kind) == HighlightGroup::Normal,
{
    reveal_strlit("def");
    reveal_strlit("identifier");
    assert("def"@.len() == 3);
    assert("identifier"@.len() == 10);
}

} // verus!
