//! Shell-style wildcard patterns, matched by the `glob` crate.

use vstd::prelude::*;
use vstd::std_specs::iter::IteratorSpec;
use vstd::string::StringSliceAdditionalSpecFns;

use crate::text::lemma_chars_within_bytes;

verus! {

/// Whether `glob::Pattern::new` accepts `pattern` as well-formed.
pub uninterp spec fn glob_compiles(pattern: Seq<char>) -> bool;

/// Whether the compiled form of `pattern` matches the whole of `subject`
/// under the crate's default match options.
pub uninterp spec fn glob_accepts(pattern: Seq<char>, subject: Seq<char>) -> bool;

/// Wildcard characters: `*` stands for any run of characters, `?` for any
/// single one.
pub open spec fn is_wildcard(c: char) -> bool {
    c == '*' || c == '?'
}

/// The number of characters of `pattern` that are not wildcards.
pub open spec fn literal_count(pattern: Seq<char>) -> nat {
    pattern.filter(|c: char| !is_wildcard(c)).len()
}

/// Compiles `pattern` with `glob::Pattern::new` and, where that succeeds,
/// tests `subject` with `glob::Pattern::matches`.
///
/// Trusted: the contract only names the two results. It claims that
/// compilation depends on the pattern text alone and the match on pattern
/// and subject alone, as the crate's source shows for a given target (the
/// set of path separators, which `**` consults, is fixed per target).
/// Neither call panics on any input.
#[verifier::external_body]
pub(crate) fn glob_try_match(pattern: &str, subject: &str) -> (outcome: Option<bool>)
    ensures
        outcome == (if glob_compiles(pattern@) {
            Some(glob_accepts(pattern@, subject@))
        } else {
            None
        }),
{
    match glob::Pattern::new(pattern) {
        Ok(compiled) => Some(compiled.matches(subject)),
        Err(_) => None,
    }
}

/// The verdict of a wildcard rule from the outcome of trying it: a
/// malformed pattern matches nothing.
pub fn glob_verdict(outcome: Option<bool>) -> (hit: bool)
    ensures
        hit == (outcome == Some(true)),
{
    match outcome {
        Some(hit) => hit,
        None => false,
    }
}

/// Dropping the last character lowers the count by one exactly when that
/// character is no wildcard.
pub proof fn lemma_literal_count_step(pattern: Seq<char>)
    requires
        pattern.len() > 0,
    ensures
        literal_count(pattern) == literal_count(pattern.drop_last()) + (if is_wildcard(
            pattern.last(),
        ) {
            0nat
        } else {
            1nat
        }),
{
    reveal(Seq::filter);
}

/// A pattern has at most as many literal characters as characters.
pub proof fn lemma_literal_count_bounded(pattern: Seq<char>)
    ensures
        literal_count(pattern) <= pattern.len(),
    decreases pattern.len(),
{
    if pattern.len() > 0 {
        lemma_literal_count_step(pattern);
        lemma_literal_count_bounded(pattern.drop_last());
    }
}

/// Counts the characters of `pattern` that are not wildcards.
pub fn count_literals(pattern: &str) -> (count: usize)
    ensures
        count == literal_count(pattern@),
{
    broadcast use vstd::string::group_string_axioms;

    let total: usize = pattern.as_bytes().len();
    let mut rest = pattern.chars();
    let mut count: usize = 0;
    let ghost mut seen: int = 0;
    proof {
        assert(pattern@.take(0) =~= Seq::<char>::empty());
        assert(pattern@.skip(0) =~= pattern@);
        lemma_chars_within_bytes(pattern@);
    }
    loop
        invariant
            pattern@.len() <= total,
            0 <= seen <= pattern@.len(),
            rest.remaining() == pattern@.skip(seen),
            count == literal_count(pattern@.take(seen)),
            count <= seen,
        ensures
            count == literal_count(pattern@),
        decreases pattern@.len() - seen,
    {
        match rest.next() {
            Some(c) => {
                proof {
                    let upto = pattern@.take(seen + 1);
                    assert(upto.drop_last() =~= pattern@.take(seen));
                    assert(upto.last() == c);
                    lemma_literal_count_step(upto);
                    assert(pattern@.skip(seen).drop_first() =~= pattern@.skip(seen + 1));
                    seen = seen + 1;
                }
                if !(c == '*' || c == '?') {
                    count += 1;
                }
            },
            None => {
                proof {
                    assert(pattern@.take(seen) =~= pattern@);
                }
                break ;
            },
        }
    }
    count
}

} // verus!
