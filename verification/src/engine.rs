//! The regular-expression engine behind compiled routes.
//!
//! Routes are matched by the `regex` crate. Nothing in this module is proved:
//! it declares the engine's types and states, for each of its functions that
//! the library calls, what the library relies on. What the engine makes of a
//! pattern, and what a compiled expression finds in a text, is given a name
//! here rather than a definition.

use regex::Regex;
use vstd::prelude::*;

use crate::template::Parameter;
use crate::text::occurs_in;

verus! {

/// A compiled regular expression, `regex::Regex`.
#[verifier::external_type_specification]
#[verifier::external_body]
pub struct ExRegex(regex::Regex);

/// The error of a failed compilation, `regex::Error`.
#[verifier::external_type_specification]
#[verifier::external_body]
pub struct ExError(regex::Error);

/// What `Regex::new` makes of a pattern with the engine's default limits:
/// the compiled expression, or `None` where the engine refuses the pattern.
pub uninterp spec fn regex_compiled(pattern: Seq<char>) -> Option<Regex>;

/// The pattern text that a compiled expression holds: what `Regex::as_str`
/// returns.
pub uninterp spec fn regex_source(re: Regex) -> Seq<char>;

/// Whether a compiled expression has a match somewhere in `text`: what
/// `Regex::is_match` returns.
pub uninterp spec fn regex_is_match(re: Regex, text: Seq<char>) -> bool;

/// The text that the group called `name` captured in the leftmost match of a
/// compiled expression in `text`: what `Regex::captures`, then
/// `Captures::name`, then `Match::as_str` give. It is `None` where there is
/// no match, no group of that name, or the group took no part in the match.
pub uninterp spec fn regex_group(re: Regex, text: Seq<char>, name: Seq<char>) -> Option<
    Seq<char>,
>;

/// Whether the engine compiles the pattern.
pub open spec fn regex_accepts(pattern: Seq<char>) -> bool {
    regex_compiled(pattern) is Some
}

/// Whether the expression that the engine compiles from `pattern` has a
/// match somewhere in `text`.
pub open spec fn regex_matches(pattern: Seq<char>, text: Seq<char>) -> bool {
    match regex_compiled(pattern) {
        Some(re) => regex_is_match(re, text),
        None => false,
    }
}

/// What the group called `name` captures when the expression that the engine
/// compiles from `pattern` is matched against `text`.
pub open spec fn regex_capture(pattern: Seq<char>, text: Seq<char>, name: Seq<char>) -> Option<
    Seq<char>,
> {
    match regex_compiled(pattern) {
        Some(re) => regex_group(re, text, name),
        None => None,
    }
}

/// What each of the named groups captured, in the order of the names.
pub open spec fn captured(pattern: Seq<char>, text: Seq<char>, names: Seq<Seq<char>>) -> Seq<
    Option<Seq<char>>,
> {
    Seq::new(names.len(), |i: int| regex_capture(pattern, text, names[i]))
}

/// The text of an optional string.
pub open spec fn opt_text(o: Option<String>) -> Option<Seq<char>> {
    match o {
        Some(s) => Some(s@),
        None => None,
    }
}

/// The texts of a run of optional strings.
pub open spec fn opt_texts(found: Seq<Option<String>>) -> Seq<Option<Seq<char>>> {
    found.map_values(|o: Option<String>| opt_text(o))
}

/// Whether a character has a meaning of its own in a pattern, by the engine's
/// fixed list of such characters.
pub open spec fn is_meta(c: char) -> bool {
    c == '\\' || c == '.' || c == '+' || c == '*' || c == '?' || c == '(' || c == ')' || c == '|'
        || c == '[' || c == ']' || c == '{' || c == '}' || c == '^' || c == '$' || c == '#'
        || c == '&' || c == '-' || c == '~'
}

/// `text` with a backslash put before each character that has a meaning of
/// its own in a pattern.
pub open spec fn escaped(text: Seq<char>) -> Seq<char>
    decreases text.len(),
{
    if text.len() == 0 {
        Seq::empty()
    } else if is_meta(text.last()) {
        escaped(text.drop_last()).push('\\').push(text.last())
    } else {
        escaped(text.drop_last()).push(text.last())
    }
}

/// `Regex::new` compiles a pattern or refuses it. The contract names what
/// it returns as a function of the pattern, and says that a compiled
/// expression holds the pattern that it was given.
pub assume_specification[ Regex::new ](re: &str) -> (r: Result<Regex, regex::Error>)
    ensures
        match r {
            Ok(compiled) => regex_compiled(re@) == Some(compiled) && regex_source(compiled) == re@,
            Err(_) => regex_compiled(re@) is None,
        },
;

/// `Regex::as_str` returns the pattern that the expression holds.
pub assume_specification[ Regex::as_str ](re: &Regex) -> (s: &str)
    ensures
        s@ == regex_source(*re),
;

/// `Regex::is_match` says whether the expression has a match in the text.
/// The contract names the answer as a function of expression and text.
pub assume_specification[ Regex::is_match ](re: &Regex, haystack: &str) -> (b: bool)
    ensures
        b == regex_is_match(*re, haystack@),
;

/// `regex::escape` copies the text and puts a backslash before each of the
/// engine's meta characters.
pub assume_specification[ regex::escape ](pattern: &str) -> (r: String)
    ensures
        r@ == escaped(pattern@),
;

/// Searches `text` once with `Regex::captures` and looks up, with
/// `Captures::name`, the group named after each parameter. The result has one
/// entry for each parameter, in order: the text that its group captured, as
/// `Match::as_str` gives it, or `None`. The contract names each entry, and
/// says that a captured text is a part of `text` as it stands there:
/// `Match::as_str` returns a slice of the searched text.
#[verifier::external_body]
pub(crate) fn capture_each(re: &Regex, text: &str, params: &Vec<Parameter>) -> (found: Vec<
    Option<String>,
>)
    ensures
        found.len() == params.len(),
        forall|i: int|
            0 <= i < params.len() ==> opt_text(#[trigger] found[i]) == regex_group(
                *re,
                text@,
                params[i].name@,
            ),
        forall|i: int|
            0 <= i < found.len() ==> (#[trigger] found[i] matches Some(part) ==> occurs_in(
                text@,
                part@,
            )),
{
    let caps = re.captures(text);
    params.iter().map(
        |p| caps.as_ref().and_then(|c| c.name(&p.name)).map(|m| String::from(m.as_str())),
    ).collect()
}

} // verus!
