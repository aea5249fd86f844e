//! Finding import statements in source text.
//!
//! The scan is lexical: it looks for the shape of an import statement and
//! takes what stands between the quotes. It knows nothing of comments or
//! strings, so it may report an import that is none and miss one that is
//! written in an unusual way.

use crate::text::texts;
use regex::Regex;
use vstd::prelude::*;

verus! {

/// What the expression `pattern` captures in `text`: nothing if `pattern` is
/// no valid expression; otherwise one entry for each match, leftmost first
/// and without overlap, holding what capture group `group` matched, or
/// nothing where the group took no part in that match.
pub uninterp spec fn captured(pattern: Seq<char>, group: nat, text: Seq<char>) -> Option<
    Seq<Option<Seq<char>>>,
>;

/// The captures as plain values.
pub open spec fn capture_views(found: Option<Vec<Option<String>>>) -> Option<
    Seq<Option<Seq<char>>>,
> {
    match found {
        None => None,
        Some(groups) => Some(
            Seq::new(
                groups@.len(),
                |i: int|
                    match groups@[i] {
                        Some(s) => Some(s@),
                        None => None,
                    },
            ),
        ),
    }
}

/// Compiles `pattern` with `regex::Regex::new` and runs
/// `Regex::captures_iter` over `text`, reading group `group` of every match
/// with `Captures::get` and `Match::as_str`. The result is by definition
/// what `captured` names; nothing more is claimed of it.
#[verifier::external_body]
fn capture_group(pattern: &str, group: usize, text: &str) -> (found: Option<Vec<Option<String>>>)
    ensures
        capture_views(found) == captured(pattern@, group as nat, text@),
{
    match Regex::new(pattern) {
        Ok(re) => Some(
            re.captures_iter(text).map(|c| c.get(group).map(|m| m.as_str().to_owned())).collect(),
        ),
        Err(_) => None,
    }
}

/// The shape of an import statement: the word `import` or `from`, optional
/// white space, a quoted specifier, and a semicolon or the end of the line.
/// The specifier is the second group.
pub open spec fn import_pattern() -> Seq<char> {
    r#"(import|from)\s*["']([^'"]+)["'](;|\n)"#@
}

/// The capture group of `import_pattern` that holds the specifier.
pub const SPECIFIER_GROUP: usize = 2;

/// The entries that hold something, in order.
pub open spec fn present(groups: Seq<Option<Seq<char>>>) -> Seq<Seq<char>>
    decreases groups.len(),
{
    if groups.len() == 0 {
        Seq::empty()
    } else {
        match groups.last() {
            Some(s) => present(groups.drop_last()).push(s),
            None => present(groups.drop_last()),
        }
    }
}

/// The specifiers that the import statements of `text` name, in the order
/// of the statements; nothing if the scan could not be set up.
pub open spec fn specifiers(text: Seq<char>) -> Option<Seq<Seq<char>>> {
    match captured(import_pattern(), SPECIFIER_GROUP as nat, text) {
        None => None,
        Some(groups) => Some(present(groups)),
    }
}

/// Keeps the captures that hold a specifier.
pub fn specifiers_from(groups: Vec<Option<String>>) -> (found: Vec<String>)
    ensures
        texts(found@) == present(capture_views(Some(groups))->0),
{
    let ghost all = capture_views(Some(groups))->0;
    let mut found: Vec<String> = Vec::new();
    let mut i: usize = 0;
    while i < groups.len()
        invariant
            i <= groups.len(),
            all == capture_views(Some(groups))->0,
            texts(found@) == present(all.take(i as int)),
        decreases groups.len() - i,
    {
        assert(all.take(i + 1).drop_last() == all.take(i as int));
        assert(all.take(i + 1).last() == all[i as int]);
        let ghost before = texts(found@);
        match &groups[i] {
            Some(s) => {
                found.push(s.clone());
                assert(texts(found@) == before.push(s@));
            },
            None => {},
        }
        i += 1;
    }
    assert(all.take(groups@.len() as int) == all);
    found
}

/// Extracts the raw import specifiers of a source text.
pub fn scan(text: &str) -> (found: Option<Vec<String>>)
    ensures
        match found {
            Some(list) => specifiers(text@) == Some(texts(list@)),
            None => specifiers(text@) is None,
        },
{
    match capture_group(r#"(import|from)\s*["']([^'"]+)["'](;|\n)"#, SPECIFIER_GROUP, text) {
        Some(groups) => Some(specifiers_from(groups)),
        None => None,
    }
}

} // verus!
