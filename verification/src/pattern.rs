use vstd::prelude::*;
use regex::NoExpand;
use regex::Regex;
use crate::text::push_char;
use crate::text::texts;

verus! {

/// The characters that carry a meaning in a pattern and must be quoted to
/// stand for themselves.
pub open spec fn is_meta_character(c: char) -> bool {
    c == '\\' || c == '.' || c == '+' || c == '*' || c == '?' || c == '(' || c == ')' || c == '|'
        || c == '[' || c == ']' || c == '{' || c == '}' || c == '^' || c == '$' || c == '#'
        || c == '&' || c == '-' || c == '~'
}

/// `text` with a backslash in front of every meta character, so that as a
/// pattern it matches `text` literally.
pub open spec fn escaped(text: Seq<char>) -> Seq<char>
    decreases text.len(),
{
    if text.len() == 0 {
        Seq::<char>::empty()
    } else if is_meta_character(text.last()) {
        escaped(text.drop_last()).push('\\').push(text.last())
    } else {
        escaped(text.drop_last()).push(text.last())
    }
}

/// Whether the regex engine accepts `pattern`: whether it compiles it into
/// an expression that can be searched with.
pub uninterp spec fn regex_accepted(pattern: Seq<char>) -> bool;

/// Whether the regular expression `pattern` matches anywhere in `haystack`,
/// as the regex engine decides it.
pub uninterp spec fn regex_matches(pattern: Seq<char>, haystack: Seq<char>) -> bool;

/// `haystack` with every non-overlapping match of `pattern` replaced by the
/// literal text `replacement`, as the regex engine computes it.
pub uninterp spec fn regex_replaced(
    pattern: Seq<char>,
    haystack: Seq<char>,
    replacement: Seq<char>,
) -> Seq<char>;

/// The successive non-overlapping matches of `pattern` in `haystack`, in the
/// order in which the regex engine finds them.
pub uninterp spec fn regex_found(pattern: Seq<char>, haystack: Seq<char>) -> Seq<Seq<char>>;

/// Whether `c` must be quoted to stand for itself in a pattern.
pub fn is_meta(c: char) -> (meta: bool)
    ensures
        meta == is_meta_character(c),
{
    c == '\\' || c == '.' || c == '+' || c == '*' || c == '?' || c == '(' || c == ')' || c == '|'
        || c == '[' || c == ']' || c == '{' || c == '}' || c == '^' || c == '$' || c == '#'
        || c == '&' || c == '-' || c == '~'
}

/// Puts a backslash in front of each meta character of `text` and leaves
/// every other character as it is.
pub fn escape(text: &str) -> (quoted: String)
    ensures
        quoted@ == escaped(text@),
{
    let mut quoted = String::new();
    for c in it: text.chars()
        invariant
            it.seq() == text@,
            quoted@ == escaped(text@.take(it.index() as int)),
    {
        proof {
            let k = it.index() as int;
            assert(text@.take(k + 1).drop_last() == text@.take(k));
            assert(text@.take(k + 1).last() == c);
        }
        if is_meta(c) {
            push_char(&mut quoted, '\\');
        }
        push_char(&mut quoted, c);
    }
    proof {
        assert(text@.take(text@.len() as int) == text@);
    }
    quoted
}

/// `Regex::new` followed by `Regex::is_match`. `None` exactly when the
/// engine does not accept `pattern`; otherwise what the engine says of the
/// haystack. Both answers depend on the texts alone.
#[verifier::external_body]
pub(crate) fn is_match(pattern: &str, haystack: &str) -> (found: Option<bool>)
    ensures
        found is Some <==> regex_accepted(pattern@),
        found matches Some(b) ==> b == regex_matches(pattern@, haystack@),
{
    match Regex::new(pattern) {
        Ok(re) => Some(re.is_match(haystack)),
        Err(_) => None,
    }
}

/// `Regex::new` followed by `Regex::replace_all` with a `NoExpand`
/// replacement, so that `$` in `replacement` is not read as a group
/// reference. `None` exactly when the engine does not accept `pattern`;
/// otherwise the rewritten text. Both answers depend on the texts alone.
#[verifier::external_body]
pub(crate) fn replace_all(pattern: &str, haystack: &str, replacement: &str) -> (out: Option<String>)
    ensures
        out is Some <==> regex_accepted(pattern@),
        out matches Some(s) ==> s@ == regex_replaced(pattern@, haystack@, replacement@),
{
    match Regex::new(pattern) {
        Ok(re) => Some(re.replace_all(haystack, NoExpand(replacement)).into_owned()),
        Err(_) => None,
    }
}

/// `Regex::new` followed by `Regex::find_iter`, each match copied out as a
/// string. `None` exactly when the engine does not accept `pattern`;
/// otherwise the matches in order. Both answers depend on the texts alone.
#[verifier::external_body]
pub(crate) fn find_all(pattern: &str, haystack: &str) -> (out: Option<Vec<String>>)
    ensures
        out is Some <==> regex_accepted(pattern@),
        out matches Some(v) ==> texts(v@) == regex_found(pattern@, haystack@),
{
    match Regex::new(pattern) {
        Ok(re) => Some(re.find_iter(haystack).map(|m| m.as_str().to_string()).collect()),
        Err(_) => None,
    }
}

} // verus!
