//! Regular expressions, compiled and run by the `regex` crate.
use vstd::prelude::*;
use crate::text::string_views;

verus! {

#[verifier::external_type_specification]
#[verifier::external_body]
pub struct ExRegex(regex::Regex);

/// Whether `regex::Regex::new` accepts `pattern`.
pub uninterp spec fn regex_compiles(pattern: Seq<char>) -> bool;

/// Whether the regular expression `pattern` matches somewhere in `haystack`
/// (`regex::Regex::is_match`).
pub uninterp spec fn regex_is_match(pattern: Seq<char>, haystack: Seq<char>) -> bool;

/// The texts of the successive non-overlapping leftmost-first matches of the
/// regular expression `pattern` in `haystack` (`regex::Regex::find_iter`).
pub uninterp spec fn regex_find_all(pattern: Seq<char>, haystack: Seq<char>) -> Seq<Seq<char>>;

/// The characters that `regex::escape` escapes.
pub open spec fn is_regex_meta(c: char) -> bool {
    ||| c == '\\'
    ||| c == '.'
    ||| c == '+'
    ||| c == '*'
    ||| c == '?'
    ||| c == '('
    ||| c == ')'
    ||| c == '|'
    ||| c == '['
    ||| c == ']'
    ||| c == '{'
    ||| c == '}'
    ||| c == '^'
    ||| c == '$'
    ||| c == '#'
    ||| c == '&'
    ||| c == '-'
    ||| c == '~'
}

/// `s` with a backslash before each regular-expression meta character.
pub open spec fn regex_escaped(s: Seq<char>) -> Seq<char>
    decreases s.len(),
{
    if s.len() == 0 {
        seq![]
    } else if is_regex_meta(s[0]) {
        seq!['\\', s[0]] + regex_escaped(s.drop_first())
    } else {
        seq![s[0]] + regex_escaped(s.drop_first())
    }
}

/// Regular-expression syntax: the start of the haystack (`^`).
pub open spec fn regex_text_start() -> Seq<char> {
    "^"@
}

/// Regular-expression syntax: any number of white-space characters (`\s*`).
pub open spec fn regex_any_space() -> Seq<char> {
    "\\s*"@
}

/// Regular-expression syntax: one or more white-space characters (`\s+`).
pub open spec fn regex_some_space() -> Seq<char> {
    "\\s+"@
}

/// Regular-expression syntax: a word boundary (`\b`).
pub open spec fn regex_word_boundary() -> Seq<char> {
    "\\b"@
}

/// Regular-expression syntax: any number of word characters (`\w*`).
pub open spec fn regex_any_word_chars() -> Seq<char> {
    "\\w*"@
}

/// Regular-expression syntax: `p` or nothing, as a capturing group (`(p)?`).
pub open spec fn regex_optional(p: Seq<char>) -> Seq<char> {
    "("@ + p + ")?"@
}

/// Regular-expression syntax: `p` one or more times, as a group that does
/// not capture (`(?:p)+`).
pub open spec fn regex_repeated(p: Seq<char>) -> Seq<char> {
    "(?:"@ + p + ")+"@
}

/// Regular-expression syntax: one character of the bracket class whose
/// members are written `members` (`[members]`).
pub open spec fn regex_class(members: Seq<char>) -> Seq<char> {
    "["@ + members + "]"@
}

/// Whether the bracket-class members `members`, written as single
/// characters and ranges `x-y` with no negation or escape, admit `c`.
pub open spec fn class_admits(members: Seq<char>, c: char) -> bool
    decreases members.len(),
{
    if members.len() == 0 {
        false
    } else if members.len() >= 3 && members[1] == '-' {
        (members[0] <= c && c <= members[2]) || class_admits(members.skip(3), c)
    } else {
        members[0] == c || class_admits(members.skip(1), c)
    }
}

/// `regex::escape`: `text` with a backslash put before every regular
/// expression meta character, so that it matches itself literally.
#[verifier::external_body]
pub(crate) fn escape(text: &str) -> (r: String)
    ensures
        r@ == regex_escaped(text@),
{
    regex::escape(text)
}

/// A compiled regular expression together with its source pattern.
pub struct Pattern {
    source: String,
    compiled: regex::Regex,
}

impl Pattern {
    /// The source text of the pattern.
    pub closed spec fn source(&self) -> Seq<char> {
        self.source@
    }

    /// `regex::Regex::new`: compiles `pattern`, `None` when the crate refuses it.
    #[verifier::external_body]
    pub(crate) fn new(pattern: &str) -> (r: Option<Pattern>)
        ensures
            r is Some <==> regex_compiles(pattern@),
            r matches Some(p) ==> p.source() == pattern@,
    {
        match regex::Regex::new(pattern) {
            Ok(compiled) => Some(Pattern { source: pattern.to_string(), compiled }),
            Err(_) => None,
        }
    }

    /// `regex::Regex::is_match` of the compiled pattern on `haystack`.
    #[verifier::external_body]
    pub(crate) fn is_match(&self, haystack: &str) -> (r: bool)
        ensures
            r == regex_is_match(self.source(), haystack@),
    {
        self.compiled.is_match(haystack)
    }

    /// `regex::Regex::find_iter` of the compiled pattern on `haystack`, each
    /// match taken as its text.
    #[verifier::external_body]
    pub(crate) fn find_all(&self, haystack: &str) -> (r: Vec<String>)
        ensures
            string_views(r@) == regex_find_all(self.source(), haystack@),
    {
        self.compiled.find_iter(haystack).map(|m| m.as_str().to_string()).collect()
    }
}

} // verus!
