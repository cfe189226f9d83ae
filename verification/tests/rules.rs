use identity_firewall_core::wildcard::{count_literals, glob_verdict};
use identity_firewall_core::{Rule, RulePattern};

#[test]
fn exact_pattern_matches_case_insensitive() {
    let rule = Rule::new(RulePattern::Exact("Example.com".into()), "p1");
    assert!(rule.matches_host("example.com"));
}

#[test]
fn suffix_pattern_matches() {
    let rule = Rule::new(RulePattern::Suffix(".example.com".into()), "p1");
    assert!(rule.matches_host("shop.example.com"));
    assert!(!rule.matches_host("example.org"));
}

#[test]
fn prefix_pattern_matches() {
    let rule = Rule::new(RulePattern::Prefix("shop.".into()), "p1");
    assert!(rule.matches_host("shop.example.com"));
    assert!(!rule.matches_host("example.com"));
}

#[test]
fn glob_pattern_matches() {
    let rule = Rule::new(RulePattern::Glob("*.example.com".into()), "p1");
    assert!(rule.matches_host("shop.example.com"));
    assert!(rule.matches_host("api.example.com"));
    assert!(!rule.matches_host("example.com"));
}

#[test]
fn specificity_ordering() {
    let exact = RulePattern::Exact("example.com".into());
    let prefix = RulePattern::Prefix("exa".into());
    let suffix = RulePattern::Suffix(".com".into());
    let glob = RulePattern::Glob("*.com".into());

    assert!(exact.specificity() > prefix.specificity());
    assert!(exact.specificity() > suffix.specificity());
    assert!(exact.specificity() > glob.specificity());
}

#[test]
fn specificity_follows_the_formulas() {
    assert_eq!(RulePattern::Exact("example.com".into()).specificity(), 1011);
    assert_eq!(RulePattern::Prefix("exa".into()).specificity(), 503);
    assert_eq!(RulePattern::Suffix(".com".into()).specificity(), 504);
    assert_eq!(RulePattern::Glob("*.com".into()).specificity(), 4);
    assert_eq!(RulePattern::Prefix("shop.".into()).specificity(), 505);
    assert_eq!(RulePattern::Prefix("s".into()).specificity(), 501);
}

#[test]
fn specificity_of_empty_texts_is_the_base() {
    assert_eq!(RulePattern::Exact(String::new()).specificity(), 1000);
    assert_eq!(RulePattern::Prefix(String::new()).specificity(), 500);
    assert_eq!(RulePattern::Suffix(String::new()).specificity(), 500);
    assert_eq!(RulePattern::Glob(String::new()).specificity(), 0);
}

#[test]
fn glob_specificity_counts_characters_that_are_not_wildcards() {
    assert_eq!(RulePattern::Glob("*".into()).specificity(), 0);
    assert_eq!(RulePattern::Glob("?*?".into()).specificity(), 0);
    assert_eq!(RulePattern::Glob("a?b*c".into()).specificity(), 3);
    assert_eq!(RulePattern::Glob("[ab]*".into()).specificity(), 4);
    assert_eq!(count_literals("*.example.com"), 12);
}

#[test]
fn lengths_are_bytes_and_glob_literals_are_characters() {
    // "é" is one character in two bytes.
    assert_eq!(RulePattern::Exact("é".into()).specificity(), 1002);
    assert_eq!(RulePattern::Prefix("é".into()).specificity(), 502);
    assert_eq!(RulePattern::Suffix("é".into()).specificity(), 502);
    assert_eq!(RulePattern::Glob("é*".into()).specificity(), 1);
    assert_eq!(count_literals("日本語?"), 3);
}

#[test]
fn sort_key_equals_specificity() {
    let patterns = vec![
        RulePattern::Exact("example.com".into()),
        RulePattern::Prefix("shop.".into()),
        RulePattern::Suffix(".com".into()),
        RulePattern::Glob("*.example.*".into()),
    ];
    for pattern in patterns {
        assert_eq!(pattern.sort_key(), pattern.specificity() as u128);
    }
}

#[test]
fn exact_ignores_ascii_case_only() {
    let rule = RulePattern::Exact("Example.com".into());
    assert!(rule.matches("example.com"));
    assert!(rule.matches("EXAMPLE.COM"));
    assert!(rule.matches("eXaMpLe.CoM"));
    assert!(!rule.matches("example.co"));
    assert!(!rule.matches("example.comm"));
    assert!(!rule.matches("example-com"));
    // '@' and '`' sit next to the letters in ASCII and differ by the case bit.
    assert!(!RulePattern::Exact("@".into()).matches("`"));
    assert!(!RulePattern::Exact("[".into()).matches("{"));
    // Letters outside ASCII are compared as they are.
    assert!(RulePattern::Exact("é.com".into()).matches("é.COM"));
    assert!(!RulePattern::Exact("é.com".into()).matches("É.com"));
}

#[test]
fn exact_with_empty_text_matches_only_the_empty_host() {
    let rule = RulePattern::Exact(String::new());
    assert!(rule.matches(""));
    assert!(!rule.matches("a"));
}

#[test]
fn prefix_and_suffix_are_case_sensitive() {
    assert!(!RulePattern::Prefix("Shop.".into()).matches("shop.example.com"));
    assert!(RulePattern::Prefix("Shop.".into()).matches("Shop.example.com"));
    assert!(!RulePattern::Suffix(".COM".into()).matches("example.com"));
    assert!(RulePattern::Suffix(".COM".into()).matches("example.COM"));
}

#[test]
fn prefix_and_suffix_at_the_edges() {
    assert!(RulePattern::Prefix(String::new()).matches("example.com"));
    assert!(RulePattern::Suffix(String::new()).matches("example.com"));
    assert!(RulePattern::Prefix("example.com".into()).matches("example.com"));
    assert!(RulePattern::Suffix("example.com".into()).matches("example.com"));
    assert!(!RulePattern::Prefix("example.com.".into()).matches("example.com"));
    assert!(!RulePattern::Suffix(".example.com".into()).matches("example.com"));
    assert!(!RulePattern::Prefix("shop.".into()).matches("a.shop.example.com"));
    assert!(!RulePattern::Suffix(".com".into()).matches("example.com.evil"));
}

#[test]
fn glob_wildcards() {
    let star = RulePattern::Glob("*.com".into());
    assert!(star.matches("other.com"));
    assert!(star.matches(".com"));
    assert!(!star.matches("other.org"));

    let question = RulePattern::Glob("a?c.example".into());
    assert!(question.matches("abc.example"));
    assert!(!question.matches("ac.example"));
    assert!(!question.matches("abbc.example"));

    let literal = RulePattern::Glob("example.com".into());
    assert!(literal.matches("example.com"));
    assert!(!literal.matches("Example.com"));
    assert!(!literal.matches("example.com."));
}

#[test]
fn malformed_glob_never_matches() {
    let rule = Rule::new(RulePattern::Glob("[unclosed".into()), "p1");
    assert!(!rule.matches_host("[unclosed"));
    assert!(!rule.matches_host("unclosed"));
    assert!(!rule.matches_host("u"));
    assert!(!rule.matches_host(""));
    assert!(!rule.matches_host("example.com"));
    assert!(!RulePattern::Glob("a***".into()).matches("a"));
}

#[test]
fn glob_verdict_is_true_only_for_a_hit() {
    assert!(glob_verdict(Some(true)));
    assert!(!glob_verdict(Some(false)));
    assert!(!glob_verdict(None));
}

#[test]
fn rule_new_keeps_pattern_and_persona() {
    let rule = Rule::new(RulePattern::Suffix(".example.com".into()), "night");
    assert_eq!(rule.pattern, RulePattern::Suffix(".example.com".into()));
    assert_eq!(rule.persona_id, "night");
}
