use identity_firewall_core::{Persona, PersonaTable, Policy, Rule, RulePattern};

fn table(ids: &[&str]) -> PersonaTable {
    let mut personas = PersonaTable::new();
    for id in ids {
        personas.insert(id.to_string(), Persona::new(id));
    }
    personas
}

fn resolved_id(policy: &Policy, host: &str) -> Option<String> {
    policy.resolve_persona(host).map(|persona| persona.id.clone())
}

#[test]
fn policy_wire_up_smoke_test() {
    let persona = Persona::new("p1");
    let mut personas = PersonaTable::new();
    personas.insert("p1".to_string(), persona);
    let rules = vec![Rule::new(RulePattern::Exact("example.com".into()), "p1")];
    let policy = Policy::new(personas, rules);
    assert!(policy.resolve_persona("example.com").is_some());
}

#[test]
fn resolves_persona_for_exact_match() {
    let persona = Persona::new("p1");
    let mut personas = PersonaTable::new();
    personas.insert(persona.id.clone(), persona);

    let rules = vec![Rule::new(RulePattern::Exact("example.com".into()), "p1")];
    let policy = Policy::new(personas, rules);

    assert!(policy.resolve_persona("example.com").is_some());
}

#[test]
fn prioritizes_exact_over_suffix() {
    let mut personas = PersonaTable::new();
    personas.insert("p1".to_string(), Persona::new("p1"));
    personas.insert("p2".to_string(), Persona::new("p2"));

    let rules = vec![
        Rule::new(RulePattern::Suffix(".example.com".into()), "p1"),
        Rule::new(RulePattern::Exact("shop.example.com".into()), "p2"),
    ];
    let policy = Policy::new(personas, rules);

    // The exact rule wins although it is declared later
    let persona = policy.resolve_persona("shop.example.com").unwrap();
    assert_eq!(persona.id, "p2");
}

#[test]
fn prioritizes_by_specificity() {
    let mut personas = PersonaTable::new();
    personas.insert("glob".to_string(), Persona::new("glob"));
    personas.insert("suffix".to_string(), Persona::new("suffix"));
    personas.insert("exact".to_string(), Persona::new("exact"));

    let rules = vec![
        Rule::new(RulePattern::Glob("*.com".into()), "glob"),
        Rule::new(RulePattern::Suffix(".example.com".into()), "suffix"),
        Rule::new(RulePattern::Exact("api.example.com".into()), "exact"),
    ];
    let policy = Policy::new(personas, rules);

    assert_eq!(policy.resolve_persona("api.example.com").unwrap().id, "exact");
    assert_eq!(
        policy.resolve_persona("shop.example.com").unwrap().id,
        "suffix"
    );
    assert_eq!(policy.resolve_persona("other.com").unwrap().id, "glob");
}

#[test]
fn exact_wins_whatever_the_declaration_order() {
    for exact_first in [true, false] {
        let suffix = Rule::new(RulePattern::Suffix(".example.com".into()), "p1");
        let exact = Rule::new(RulePattern::Exact("shop.example.com".into()), "p2");
        let rules = if exact_first { vec![exact, suffix] } else { vec![suffix, exact] };
        let policy = Policy::new(table(&["p1", "p2"]), rules);
        assert_eq!(resolved_id(&policy, "shop.example.com"), Some("p2".to_string()));
        assert_eq!(resolved_id(&policy, "api.example.com"), Some("p1".to_string()));
    }
}

#[test]
fn longer_prefix_wins() {
    for long_first in [true, false] {
        let long = Rule::new(RulePattern::Prefix("shop.".into()), "long");
        let short = Rule::new(RulePattern::Prefix("s".into()), "short");
        let rules = if long_first { vec![long, short] } else { vec![short, long] };
        let policy = Policy::new(table(&["long", "short"]), rules);
        assert_eq!(resolved_id(&policy, "shop.example.com"), Some("long".to_string()));
        assert_eq!(resolved_id(&policy, "static.example.com"), Some("short".to_string()));
    }
}

#[test]
fn long_literal_glob_crosses_over_a_short_suffix() {
    let host = format!("{}.com", "a".repeat(600));
    let glob_of = |literals: usize| format!("{}*", "a".repeat(literals));

    // 505 literal characters outrank Suffix(".com") at 504.
    let over = RulePattern::Glob(glob_of(505));
    assert_eq!(over.specificity(), 505);
    assert_eq!(RulePattern::Suffix(".com".into()).specificity(), 504);
    let policy = Policy::new(
        table(&["suffix", "glob"]),
        vec![
            Rule::new(RulePattern::Suffix(".com".into()), "suffix"),
            Rule::new(over, "glob"),
        ],
    );
    assert_eq!(resolved_id(&policy, &host), Some("glob".to_string()));

    // 504 literal characters tie with it: the declaration order decides.
    let policy = Policy::new(
        table(&["suffix", "glob"]),
        vec![
            Rule::new(RulePattern::Suffix(".com".into()), "suffix"),
            Rule::new(RulePattern::Glob(glob_of(504)), "glob"),
        ],
    );
    assert_eq!(resolved_id(&policy, &host), Some("suffix".to_string()));
    let policy = Policy::new(
        table(&["suffix", "glob"]),
        vec![
            Rule::new(RulePattern::Glob(glob_of(504)), "glob"),
            Rule::new(RulePattern::Suffix(".com".into()), "suffix"),
        ],
    );
    assert_eq!(resolved_id(&policy, &host), Some("glob".to_string()));

    // 503 literal characters stay below it, even when declared first.
    let policy = Policy::new(
        table(&["suffix", "glob"]),
        vec![
            Rule::new(RulePattern::Glob(glob_of(503)), "glob"),
            Rule::new(RulePattern::Suffix(".com".into()), "suffix"),
        ],
    );
    assert_eq!(resolved_id(&policy, &host), Some("suffix".to_string()));
}

#[test]
fn glob_with_501_literals_outranks_an_empty_suffix() {
    let host = "b".repeat(501);
    let policy = Policy::new(
        table(&["suffix", "glob"]),
        vec![
            Rule::new(RulePattern::Suffix(String::new()), "suffix"),
            Rule::new(RulePattern::Glob("b".repeat(501)), "glob"),
        ],
    );
    assert_eq!(resolved_id(&policy, &host), Some("glob".to_string()));
}

#[test]
fn equal_specificity_keeps_declaration_order() {
    let first = Rule::new(RulePattern::Prefix("ab".into()), "first");
    let second = Rule::new(RulePattern::Suffix("yz".into()), "second");
    let policy = Policy::new(table(&["first", "second"]), vec![first, second]);
    assert_eq!(resolved_id(&policy, "ab.example.yz"), Some("first".to_string()));

    let first = Rule::new(RulePattern::Suffix("yz".into()), "second");
    let second = Rule::new(RulePattern::Prefix("ab".into()), "first");
    let policy = Policy::new(table(&["first", "second"]), vec![first, second]);
    assert_eq!(resolved_id(&policy, "ab.example.yz"), Some("second".to_string()));
}

#[test]
fn rules_are_sorted_stably_by_descending_specificity() {
    let declared = vec![
        Rule::new(RulePattern::Glob("*.com".into()), "g1"),
        Rule::new(RulePattern::Suffix(".com".into()), "s1"),
        Rule::new(RulePattern::Exact("a.com".into()), "e1"),
        Rule::new(RulePattern::Prefix("www.".into()), "s2"),
        Rule::new(RulePattern::Glob("?.com".into()), "g2"),
        Rule::new(RulePattern::Exact("b.com".into()), "e2"),
        Rule::new(RulePattern::Suffix(".org".into()), "s3"),
    ];
    let policy = Policy::new(PersonaTable::new(), declared);
    let order: Vec<&str> = policy.rules().iter().map(|rule| rule.persona_id.as_str()).collect();
    assert_eq!(order, vec!["e1", "e2", "s1", "s2", "s3", "g1", "g2"]);
    let scores: Vec<usize> =
        policy.rules().iter().map(|rule| rule.pattern.specificity()).collect();
    assert_eq!(scores, vec![1005, 1005, 504, 504, 504, 4, 4]);
}

#[test]
fn no_match_resolves_to_nothing() {
    let policy = Policy::new(
        table(&["p1"]),
        vec![Rule::new(RulePattern::Exact("a.com".into()), "p1")],
    );
    assert!(policy.resolve_persona("b.com").is_none());
    assert!(policy.resolve_persona("").is_none());
}

#[test]
fn empty_policy_resolves_to_nothing() {
    let policy = Policy::new(PersonaTable::new(), Vec::new());
    assert!(policy.resolve_persona("example.com").is_none());
    assert!(policy.rules().is_empty());
    let policy = Policy::default();
    assert!(policy.resolve_persona("example.com").is_none());
    assert!(policy.rules().is_empty());
    assert!(!policy.personas().contains_key("p1"));
}

#[test]
fn malformed_glob_does_not_disturb_other_rules() {
    let with_bad = Policy::new(
        table(&["good", "bad"]),
        vec![
            Rule::new(RulePattern::Glob("[unclosed".into()), "bad"),
            Rule::new(RulePattern::Suffix(".example.com".into()), "good"),
        ],
    );
    let without_bad = Policy::new(
        table(&["good", "bad"]),
        vec![Rule::new(RulePattern::Suffix(".example.com".into()), "good")],
    );
    for host in ["shop.example.com", "[unclosed", "unclosed", "example.org", ""] {
        assert_eq!(resolved_id(&with_bad, host), resolved_id(&without_bad, host));
    }
    assert_eq!(resolved_id(&with_bad, "shop.example.com"), Some("good".to_string()));
    assert_eq!(resolved_id(&with_bad, "[unclosed"), None);
}

#[test]
fn dangling_persona_reference_resolves_to_nothing() {
    let policy = Policy::new(
        table(&["p1"]),
        vec![
            Rule::new(RulePattern::Exact("example.com".into()), "missing"),
            Rule::new(RulePattern::Suffix(".com".into()), "p1"),
        ],
    );
    // The first matching rule decides, even though its persona is absent.
    assert!(policy.resolve_persona("example.com").is_none());
    assert_eq!(resolved_id(&policy, "other.com"), Some("p1".to_string()));
}

#[test]
fn resolution_is_repeatable() {
    let policy = Policy::new(
        table(&["glob", "suffix"]),
        vec![
            Rule::new(RulePattern::Glob("*.example.*".into()), "glob"),
            Rule::new(RulePattern::Suffix(".com".into()), "suffix"),
        ],
    );
    for host in ["shop.example.com", "example.com", "a.example.org", "nothing"] {
        let first = resolved_id(&policy, host);
        for _ in 0..5 {
            assert_eq!(resolved_id(&policy, host), first);
        }
    }
}

#[test]
fn resolution_hands_out_the_stored_persona() {
    let mut persona = Persona::new("p1");
    persona.user_agent = Some("agent/1.0".to_string());
    persona.languages = vec!["en".to_string(), "de".to_string()];
    let mut personas = PersonaTable::new();
    personas.insert("p1".to_string(), persona.clone());
    let policy = Policy::new(
        personas,
        vec![Rule::new(RulePattern::Prefix("shop.".into()), "p1")],
    );
    assert_eq!(policy.resolve_persona("shop.example.com"), Some(&persona));
}

#[test]
fn persona_is_found_by_table_key() {
    // The table key decides, not the identifier inside the persona.
    let mut personas = PersonaTable::new();
    personas.insert("alias".to_string(), Persona::new("p1"));
    let policy = Policy::new(
        personas,
        vec![
            Rule::new(RulePattern::Exact("a.com".into()), "alias"),
            Rule::new(RulePattern::Exact("b.com".into()), "p1"),
        ],
    );
    assert_eq!(resolved_id(&policy, "a.com"), Some("p1".to_string()));
    assert_eq!(resolved_id(&policy, "b.com"), None);
}

#[test]
fn table_insert_get_and_replace() {
    let mut personas = PersonaTable::new();
    assert!(!personas.contains_key("p1"));
    assert!(personas.get("p1").is_none());

    assert!(personas.insert("p1".to_string(), Persona::new("first")).is_none());
    assert!(personas.insert("p2".to_string(), Persona::new("second")).is_none());
    assert!(personas.contains_key("p1"));
    assert_eq!(personas.get("p1").unwrap().id, "first");
    assert_eq!(personas.get("p2").unwrap().id, "second");
    assert!(!personas.contains_key("P1"));
    assert!(!personas.contains_key("p"));

    let previous = personas.insert("p1".to_string(), Persona::new("third"));
    assert_eq!(previous.unwrap().id, "first");
    assert_eq!(personas.get("p1").unwrap().id, "third");
    assert_eq!(personas.get("p2").unwrap().id, "second");
}

#[test]
fn table_counts_its_keys() {
    let mut personas = PersonaTable::new();
    assert!(personas.is_empty());
    assert_eq!(personas.len(), 0);
    personas.insert("p1".to_string(), Persona::new("p1"));
    personas.insert("p2".to_string(), Persona::new("p2"));
    assert_eq!(personas.len(), 2);
    personas.insert("p1".to_string(), Persona::new("other"));
    assert_eq!(personas.len(), 2);
    assert!(!personas.is_empty());
}

#[test]
fn persona_new_has_no_attributes() {
    let persona = Persona::new("p1");
    assert_eq!(persona.id, "p1");
    assert!(persona.user_agent.is_none());
    assert!(persona.accept_language.is_none());
    assert!(persona.languages.is_empty());
    assert!(persona.timezone.is_none());
    assert!(persona.screen.is_none());
}
