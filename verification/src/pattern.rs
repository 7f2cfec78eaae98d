//! Shell-style patterns over paths, as the `glob` crate compiles and
//! matches them.

use vstd::prelude::*;
use crate::ordered_map::texts;

verus! {

/// Whether `glob::Pattern::new` accepts `pattern`.
pub uninterp spec fn glob_compiles(pattern: Seq<char>) -> bool;

/// Whether `text` matches `pattern`, once compiled, under the default
/// match options of `glob::Pattern::matches`. Which characters separate
/// the components of a path is the platform's.
pub uninterp spec fn glob_matches(pattern: Seq<char>, text: Seq<char>) -> bool;

/// Compiles `pattern` with `glob::Pattern::new` and, where that
/// succeeds, asks `glob::Pattern::matches` whether `text` matches it.
/// The contract names the two results, `glob_compiles` and
/// `glob_matches`, and claims nothing else of them: that the pattern
/// language is that of the `glob` crate is taken on trust.
#[verifier::external_body]
fn glob_match(pattern: &str, text: &str) -> (matched: Option<bool>)
    ensures
        matched == (if glob_compiles(pattern@) {
            Some(glob_matches(pattern@, text@))
        } else {
            None
        }),
{
    match glob::Pattern::new(pattern) {
        Ok(compiled) => Some(compiled.matches(text)),
        Err(_) => None,
    }
}

/// Every pattern compiles.
pub open spec fn all_compile(patterns: Seq<Seq<char>>) -> bool {
    forall|i: int| 0 <= i < patterns.len() ==> glob_compiles(#[trigger] patterns[i])
}

/// `text` matches one of the patterns.
pub open spec fn matches_any(patterns: Seq<Seq<char>>, text: Seq<char>) -> bool {
    exists|i: int| 0 <= i < patterns.len() && glob_matches(#[trigger] patterns[i], text)
}

/// Whether `text` matches one of `patterns`; `None` where one of them
/// does not compile.
pub fn any_matches(patterns: &Vec<String>, text: &str) -> (matched: Option<bool>)
    ensures
        matched == (if all_compile(texts(patterns@)) {
            Some(matches_any(texts(patterns@), text@))
        } else {
            None
        }),
{
    let ghost sources = texts(patterns@);
    let mut found = false;
    let mut i: usize = 0;
    while i < patterns.len()
        invariant
            sources == texts(patterns@),
            i <= patterns@.len(),
            forall|j: int| 0 <= j < i ==> glob_compiles(#[trigger] sources[j]),
            found == (exists|j: int| 0 <= j < i && glob_matches(#[trigger] sources[j], text@)),
        decreases patterns@.len() - i,
    {
        match glob_match(patterns[i].as_str(), text) {
            None => {
                assert(!glob_compiles(sources[i as int]));
                return None;
            },
            Some(matched) => {
                if matched {
                    assert(glob_matches(sources[i as int], text@));
                    found = true;
                }
            },
        }
        i += 1;
    }
    Some(found)
}

/// For each of `paths`, whether it matches one of `patterns`; `None`
/// where one of the patterns does not compile.
pub fn match_each(patterns: &Vec<String>, paths: &Vec<String>) -> (flags: Option<Vec<bool>>)
    ensures
        match flags {
            Some(flags) => all_compile(texts(patterns@)) && flags@.len() == paths@.len()
                && forall|i: int|
                0 <= i < paths@.len() ==> #[trigger] flags@[i] == matches_any(
                    texts(patterns@),
                    paths@[i]@,
                ),
            None => !all_compile(texts(patterns@)),
        },
{
    if !compile_all(patterns) {
        return None;
    }
    let mut flags: Vec<bool> = Vec::new();
    let mut i: usize = 0;
    while i < paths.len()
        invariant
            all_compile(texts(patterns@)),
            i <= paths@.len(),
            flags@.len() == i,
            forall|j: int|
                0 <= j < i ==> #[trigger] flags@[j] == matches_any(texts(patterns@), paths@[j]@),
        decreases paths@.len() - i,
    {
        match any_matches(patterns, paths[i].as_str()) {
            Some(matched) => flags.push(matched),
            None => {
                return None;
            },
        }
        i += 1;
    }
    Some(flags)
}

/// Whether every one of `patterns` compiles.
pub fn compile_all(patterns: &Vec<String>) -> (ok: bool)
    ensures
        ok == all_compile(texts(patterns@)),
{
    let mut i: usize = 0;
    while i < patterns.len()
        invariant
            i <= patterns@.len(),
            forall|j: int| 0 <= j < i ==> glob_compiles(#[trigger] texts(patterns@)[j]),
        decreases patterns@.len() - i,
    {
        if glob_match(patterns[i].as_str(), "").is_none() {
            assert(!glob_compiles(texts(patterns@)[i as int]));
            return false;
        }
        i += 1;
    }
    true
}

} // verus!
