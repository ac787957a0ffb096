//! The languages that can be highlighted.
use vstd::prelude::*;
use crate::util::same_text;

verus! {

/// A grammar, by the name of its language.
#[derive(Clone, Copy, Debug)]
pub struct Grammar {
    pub name: &'static str,
}

/// Whether a language can be highlighted.
pub open spec fn has_grammar(language: Seq<char>) -> bool {
    ||| language == "zig"@
    ||| language == "javascript"@
    ||| language == "typescript"@
    ||| language == "tsx"@
    ||| language == "rust"@
    ||| language == "c"@
    ||| language == "cpp"@
    ||| language == "python"@
    ||| language == "gn"@
}

/// The grammar of a language.
pub fn find(language: &str) -> (r: Option<Grammar>)
    ensures
        match r {
            Some(g) => has_grammar(language@) && g.name@ == language@,
            None => !has_grammar(language@),
        },
{
    let name = if same_text(language, "zig") {
        "zig"
    } else if same_text(language, "javascript") {
        "javascript"
    } else if same_text(language, "typescript") {
        "typescript"
    } else if same_text(language, "tsx") {
        "tsx"
    } else if same_text(language, "rust") {
        "rust"
    } else if same_text(language, "c") {
        "c"
    } else if same_text(language, "cpp") {
        "cpp"
    } else if same_text(language, "python") {
        "python"
    } else if same_text(language, "gn") {
        "gn"
    } else {
        return None;
    };
    Some(Grammar { name })
}

} // verus!
