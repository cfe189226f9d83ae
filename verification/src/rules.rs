//! Host patterns and the rules that attach a persona to them.

use vstd::prelude::*;
use vstd::string::StringSliceAdditionalSpecFns;
use vstd::utf8::encode_utf8;

use crate::text::{
    ascii_case_equal, ascii_lower, bytes_end_with, bytes_equal_ignore_ascii_case, bytes_start_with,
};
use crate::wildcard::{
    count_literals, glob_accepts, glob_compiles, glob_try_match, glob_verdict,
    lemma_literal_count_bounded, literal_count,
};

verus! {

/// Score added to the length of an exact pattern.
pub const EXACT_BASE: usize = 1000;

/// Score added to the length of a prefix or suffix pattern.
pub const AFFIX_BASE: usize = 500;

/// A predicate over request hosts.
#[derive(Debug, Clone, PartialEq, Eq)]
pub enum RulePattern {
    /// The host equals the text, ASCII letters compared without case.
    Exact(String),
    /// The host begins with the text, byte for byte.
    Prefix(String),
    /// The host ends with the text, byte for byte.
    Suffix(String),
    /// The host matches the text as a shell-style wildcard pattern.
    Glob(String),
}

/// The mathematical content of a [`RulePattern`]: its shape and the
/// characters of its text.
pub enum PatternView {
    Exact(Seq<char>),
    Prefix(Seq<char>),
    Suffix(Seq<char>),
    Glob(Seq<char>),
}

impl PatternView {
    /// The characters of the pattern's text.
    pub open spec fn text(self) -> Seq<char> {
        match self {
            PatternView::Exact(t) => t,
            PatternView::Prefix(t) => t,
            PatternView::Suffix(t) => t,
            PatternView::Glob(t) => t,
        }
    }

    /// Whether the pattern matches `host`.
    ///
    /// Exact, prefix and suffix patterns compare UTF-8 bytes. A wildcard
    /// pattern matches when it compiles and the compiled pattern accepts the
    /// host; one that does not compile matches nothing.
    pub open spec fn matches(self, host: Seq<char>) -> bool {
        match self {
            PatternView::Exact(t) => ascii_case_equal(encode_utf8(host), encode_utf8(t)),
            PatternView::Prefix(t) => encode_utf8(t).is_prefix_of(encode_utf8(host)),
            PatternView::Suffix(t) => encode_utf8(t).is_suffix_of(encode_utf8(host)),
            PatternView::Glob(t) => glob_compiles(t) && glob_accepts(t, host),
        }
    }

    /// The pattern's rank among competing rules; larger is more specific.
    ///
    /// Exact patterns score 1000 plus their length in bytes, prefix and
    /// suffix patterns 500 plus their length in bytes, and wildcard patterns
    /// the number of their characters that are neither `*` nor `?`.
    pub open spec fn specificity(self) -> nat {
        match self {
            PatternView::Exact(t) => (EXACT_BASE + encode_utf8(t).len()) as nat,
            PatternView::Prefix(t) => (AFFIX_BASE + encode_utf8(t).len()) as nat,
            PatternView::Suffix(t) => (AFFIX_BASE + encode_utf8(t).len()) as nat,
            PatternView::Glob(t) => literal_count(t),
        }
    }
}

impl PatternView {
    /// Whether the pattern is a prefix or a suffix pattern.
    pub open spec fn is_affix(self) -> bool {
        self is Prefix || self is Suffix
    }

    /// The length of the pattern's text in bytes.
    pub open spec fn byte_len(self) -> nat {
        encode_utf8(self.text()).len()
    }
}

/// An exact pattern outranks every prefix or suffix pattern that matches the
/// same host.
pub proof fn law_exact_outranks_affix(exact: PatternView, affix: PatternView, host: Seq<char>)
    requires
        exact is Exact,
        affix.is_affix(),
        exact.matches(host),
        affix.matches(host),
    ensures
        exact.specificity() > affix.specificity(),
{
}

/// Among exact patterns, and among prefix and suffix patterns, the longer
/// text is the more specific.
pub proof fn law_longer_text_is_more_specific(longer: PatternView, shorter: PatternView)
    requires
        (longer is Exact && shorter is Exact) || (longer.is_affix() && shorter.is_affix()),
        longer.byte_len() > shorter.byte_len(),
    ensures
        longer.specificity() > shorter.specificity(),
{
}

/// A wildcard pattern outranks a prefix or suffix pattern exactly when its
/// literal characters outnumber the other's base score plus length.
pub proof fn law_glob_crossover(glob: PatternView, affix: PatternView)
    requires
        glob is Glob,
        affix.is_affix(),
    ensures
        glob.specificity() > affix.specificity() <==> literal_count(glob.text()) > AFFIX_BASE
            + affix.byte_len(),
        glob.specificity() <= glob.text().len(),
{
    lemma_literal_count_bounded(glob.text());
}

/// A wildcard pattern that does not compile matches no host.
pub proof fn law_malformed_glob_matches_nothing(text: Seq<char>, host: Seq<char>)
    requires
        !glob_compiles(text),
    ensures
        !PatternView::Glob(text).matches(host),
{
}

/// An exact pattern cannot tell apart two hosts that differ only in the
/// case of ASCII letters.
pub proof fn law_exact_ignores_ascii_case(text: Seq<char>, host: Seq<char>, other: Seq<char>)
    requires
        ascii_case_equal(encode_utf8(host), encode_utf8(other)),
    ensures
        PatternView::Exact(text).matches(host) == PatternView::Exact(text).matches(other),
{
    let h = encode_utf8(host);
    let o = encode_utf8(other);
    let t = encode_utf8(text);
    if ascii_case_equal(h, t) {
        assert forall|i: int| 0 <= i < o.len() implies ascii_lower(#[trigger] o[i]) == ascii_lower(
            t[i],
        ) by {
            assert(ascii_lower(h[i]) == ascii_lower(o[i]));
            assert(ascii_lower(h[i]) == ascii_lower(t[i]));
        }
    }
    if ascii_case_equal(o, t) {
        assert forall|i: int| 0 <= i < h.len() implies ascii_lower(#[trigger] h[i]) == ascii_lower(
            t[i],
        ) by {
            assert(ascii_lower(h[i]) == ascii_lower(o[i]));
            assert(ascii_lower(o[i]) == ascii_lower(t[i]));
        }
    }
}

impl View for RulePattern {
    type V = PatternView;

    open spec fn view(&self) -> PatternView {
        match self {
            RulePattern::Exact(t) => PatternView::Exact(t@),
            RulePattern::Prefix(t) => PatternView::Prefix(t@),
            RulePattern::Suffix(t) => PatternView::Suffix(t@),
            RulePattern::Glob(t) => PatternView::Glob(t@),
        }
    }
}

impl RulePattern {
    /// Tests `host` against the pattern.
    pub fn matches(&self, host: &str) -> (hit: bool)
        ensures
            hit == self@.matches(host@),
    {
        match self {
            RulePattern::Exact(text) => bytes_equal_ignore_ascii_case(
                host.as_bytes(),
                text.as_str().as_bytes(),
            ),
            RulePattern::Prefix(text) => bytes_start_with(
                host.as_bytes(),
                text.as_str().as_bytes(),
            ),
            RulePattern::Suffix(text) => bytes_end_with(host.as_bytes(), text.as_str().as_bytes()),
            RulePattern::Glob(text) => glob_verdict(glob_try_match(text.as_str(), host)),
        }
    }

    /// The specificity score, for patterns whose score fits the machine word.
    pub fn specificity(&self) -> (score: usize)
        requires
            self@.specificity() <= usize::MAX,
        ensures
            score == self@.specificity(),
    {
        match self {
            RulePattern::Exact(text) => EXACT_BASE + text.as_str().as_bytes().len(),
            RulePattern::Prefix(text) => AFFIX_BASE + text.as_str().as_bytes().len(),
            RulePattern::Suffix(text) => AFFIX_BASE + text.as_str().as_bytes().len(),
            RulePattern::Glob(text) => count_literals(text.as_str()),
        }
    }

    /// The specificity score in a width that holds it for every pattern.
    pub fn sort_key(&self) -> (key: u128)
        ensures
            key == self@.specificity(),
    {
        match self {
            RulePattern::Exact(text) => EXACT_BASE as u128 + text.as_str().as_bytes().len() as u128,
            RulePattern::Prefix(text) => AFFIX_BASE as u128 + text.as_str().as_bytes().len() as u128,
            RulePattern::Suffix(text) => AFFIX_BASE as u128 + text.as_str().as_bytes().len() as u128,
            RulePattern::Glob(text) => count_literals(text.as_str()) as u128,
        }
    }
}

/// A pattern together with the identifier of the persona it selects.
#[derive(Debug, Clone, PartialEq, Eq)]
pub struct Rule {
    pub pattern: RulePattern,
    pub persona_id: String,
}

/// The mathematical content of a [`Rule`].
pub struct RuleView {
    pub pattern: PatternView,
    pub persona_id: Seq<char>,
}

impl View for Rule {
    type V = RuleView;

    open spec fn view(&self) -> RuleView {
        RuleView { pattern: self.pattern@, persona_id: self.persona_id@ }
    }
}

impl Rule {
    /// A rule that selects the persona `persona_id` for hosts matching
    /// `pattern`.
    pub fn new(pattern: RulePattern, persona_id: &str) -> (rule: Rule)
        ensures
            rule.pattern == pattern,
            rule.persona_id@ == persona_id@,
    {
        Rule { pattern, persona_id: persona_id.to_owned() }
    }

    /// Tests `host` against the rule's pattern.
    pub fn matches_host(&self, host: &str) -> (hit: bool)
        ensures
            hit == self@.pattern.matches(host@),
    {
        self.pattern.matches(host)
    }
}

} // verus!
