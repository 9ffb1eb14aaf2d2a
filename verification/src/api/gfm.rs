use vstd::prelude::*;

verus! {

/// Whether `c` is one of the ASCII punctuation characters of the
/// GitHub-flavored-Markdown character classes.
pub open spec fn is_gfm_punctuation(c: char) -> bool {
    c == '!' || c == '"' || c == '#' || c == '$' || c == '%' || c == '&' || c == '\'' || c == '('
        || c == ')' || c == '*' || c == '+' || c == ',' || c == '-' || c == '.' || c == '/' || c
        == ':' || c == ';' || c == '<' || c == '=' || c == '>' || c == '?' || c == '@' || c == '['
        || c == '\\' || c == ']' || c == '^' || c == '_' || c == '`' || c == '{' || c == '|' || c
        == '}' || c == '~'
}

/// Character classes of GitHub-flavored Markdown.
pub trait GfmChar {
    /// What the punctuation test means for this type.
    spec fn gfm_punctuation_spec(&self) -> bool;

    /// True exactly on the ASCII punctuation characters.
    fn is_ascii_punctuation_character(&self) -> (r: bool)
        ensures
            r == self.gfm_punctuation_spec(),
    ;
}

impl GfmChar for char {
    open spec fn gfm_punctuation_spec(&self) -> bool {
        is_gfm_punctuation(*self)
    }

    fn is_ascii_punctuation_character(&self) -> (r: bool)
        ensures
            r == is_gfm_punctuation(*self),
    {
        matches!(
            *self,
            '!' | '"'
                | '#'
                | '$'
                | '%'
                | '&'
                | '\''
                | '('
                | ')'
                | '*'
                | '+'
                | ','
                | '-'
                | '.'
                | '/'
                | ':'
                | ';'
                | '<'
                | '='
                | '>'
                | '?'
                | '@'
                | '['
                | '\\'
                | ']'
                | '^'
                | '_'
                | '`'
                | '{'
                | '|'
                | '}'
                | '~'
        )
    }
}

} // verus!
