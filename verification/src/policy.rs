//! The policy: a persona table and a rule list in priority order, with the
//! lookup from a host to its persona.

use vstd::prelude::*;

use crate::persona::Persona;
use crate::priority::{
    arrange, lemma_priority_order_exists, outranks, priority_order, priority_origins, rule_views,
    sort_by_priority, specificities,
};
use crate::rules::{Rule, RuleView};
use crate::table::PersonaTable;

verus! {

/// Whether rule `i` is the first rule of `rules` that matches `host`.
pub open spec fn is_first_match(rules: Seq<RuleView>, host: Seq<char>, i: int) -> bool {
    &&& 0 <= i < rules.len()
    &&& rules[i].pattern.matches(host)
    &&& forall|j: int| 0 <= j < i ==> !(#[trigger] rules[j]).pattern.matches(host)
}

/// The index of the first rule of `rules` that matches `host`.
pub open spec fn first_match(rules: Seq<RuleView>, host: Seq<char>) -> Option<int> {
    if exists|i: int| is_first_match(rules, host, i) {
        Some(choose|i: int| is_first_match(rules, host, i))
    } else {
        None
    }
}

/// Whether the keys fall, or stay equal, from each position to the next.
pub open spec fn is_descending(keys: Seq<nat>) -> bool {
    forall|p: int, q: int| 0 <= p < q < keys.len() ==> keys[p] >= keys[q]
}

/// The mathematical content of a [`Policy`].
pub struct PolicyView {
    /// The persona stored under each identifier.
    pub personas: Map<Seq<char>, Persona>,
    /// The rules, most specific first.
    pub rules: Seq<RuleView>,
}

impl PolicyView {
    /// The persona for `host`: that of the first rule that matches, if there
    /// is such a rule and the table holds its persona.
    pub open spec fn resolve(self, host: Seq<char>) -> Option<Persona> {
        match first_match(self.rules, host) {
            Some(i) => if self.personas.contains_key(self.rules[i].persona_id) {
                Some(self.personas[self.rules[i].persona_id])
            } else {
                None
            },
            None => None,
        }
    }
}

/// A persona table and the rules that select from it, fixed at construction.
#[derive(Debug)]
pub struct Policy {
    personas: PersonaTable,
    rules: Vec<Rule>,
}

impl View for Policy {
    type V = PolicyView;

    closed spec fn view(&self) -> PolicyView {
        PolicyView { personas: self.personas@, rules: rule_views(self.rules@) }
    }
}

/// The content of the policy built from `personas` and the rules
/// `declared`.
pub open spec fn policy_of(personas: Map<Seq<char>, Persona>, declared: Seq<RuleView>) -> PolicyView {
    PolicyView { personas, rules: priority_order(declared) }
}

/// The first match, where there is one, is the only index that qualifies.
pub proof fn lemma_first_match_unique(rules: Seq<RuleView>, host: Seq<char>, i: int)
    requires
        is_first_match(rules, host, i),
    ensures
        first_match(rules, host) == Some(i),
{
    let chosen = choose|c: int| is_first_match(rules, host, c);
    if chosen < i {
        assert(!rules[chosen].pattern.matches(host));
    } else if i < chosen {
        assert(!rules[i].pattern.matches(host));
    }
}

/// Whether the rule declared at `i` matches `host` and outranks every other
/// declared rule that matches it.
pub open spec fn is_best_match(declared: Seq<RuleView>, host: Seq<char>, i: int) -> bool {
    &&& 0 <= i < declared.len()
    &&& declared[i].pattern.matches(host)
    &&& forall|j: int|
        0 <= j < declared.len() && j != i && (#[trigger] declared[j]).pattern.matches(host)
            ==> outranks(specificities(declared), i, j)
}

/// The rule that decides for `host` among the rules as declared: the first
/// match in their priority order.
pub open spec fn deciding_rule(declared: Seq<RuleView>, host: Seq<char>) -> Option<RuleView> {
    match first_match(priority_order(declared), host) {
        Some(p) => Some(priority_order(declared)[p]),
        None => None,
    }
}

/// At most one declared rule is the best match for a host.
pub proof fn law_best_match_unique(declared: Seq<RuleView>, host: Seq<char>, i: int, j: int)
    requires
        is_best_match(declared, host, i),
        is_best_match(declared, host, j),
    ensures
        i == j,
{
    if i != j {
        assert(outranks(specificities(declared), i, j));
        assert(outranks(specificities(declared), j, i));
    }
}

/// The first match in priority order is the best match among the rules as
/// declared: of the rules that match the host it has the largest
/// specificity, and of those with that specificity it was declared first.
/// Where no first match exists, no declared rule matches the host.
pub proof fn law_first_match_is_best_match(declared: Seq<RuleView>, host: Seq<char>)
    ensures
        match first_match(priority_order(declared), host) {
            Some(p) => {
                &&& 0 <= p < declared.len()
                &&& is_best_match(declared, host, priority_origins(specificities(declared))[p])
                &&& deciding_rule(declared, host) == Some(
                    declared[priority_origins(specificities(declared))[p]],
                )
            },
            None => forall|j: int|
                0 <= j < declared.len() ==> !(#[trigger] declared[j]).pattern.matches(host),
        },
{
    let keys = specificities(declared);
    let origins = priority_origins(keys);
    let sorted = priority_order(declared);
    lemma_priority_order_exists(keys);
    match first_match(sorted, host) {
        Some(p) => {
            assert(is_first_match(sorted, host, p));
            let winner = origins[p];
            assert forall|j: int|
                0 <= j < declared.len() && j != winner && (
                #[trigger] declared[j]).pattern.matches(host) implies outranks(
                keys,
                winner,
                j,
            ) by {
                assert(origins.contains(j));
                let q = choose|q: int| 0 <= q < origins.len() && origins[q] == j;
                assert(sorted[q] == declared[j]);
                if q < p {
                    assert(!sorted[q].pattern.matches(host));
                } else {
                    assert(outranks(keys, origins[p], origins[q]));
                }
            }
        },
        None => {
            assert forall|j: int| 0 <= j < declared.len() implies !(
            #[trigger] declared[j]).pattern.matches(host) by {
                if declared[j].pattern.matches(host) {
                    assert(origins.contains(j));
                    let q = choose|q: int| 0 <= q < origins.len() && origins[q] == j;
                    assert(sorted[q] == declared[j]);
                    lemma_some_match_has_first(sorted, host, q);
                }
            }
        },
    }
}

/// Where some rule up to position `upto` matches, a first match exists.
pub proof fn lemma_some_match_has_first(rules: Seq<RuleView>, host: Seq<char>, upto: int)
    requires
        0 <= upto < rules.len(),
        rules[upto].pattern.matches(host),
    ensures
        first_match(rules, host) is Some,
    decreases upto,
{
    if exists|j: int| 0 <= j < upto && (#[trigger] rules[j]).pattern.matches(host) {
        let j = choose|j: int| 0 <= j < upto && (#[trigger] rules[j]).pattern.matches(host);
        lemma_some_match_has_first(rules, host, j);
    } else {
        assert(is_first_match(rules, host, upto));
    }
}

/// The best match among the declared rules decides: whichever rule is the
/// best match is the deciding rule.
pub proof fn law_best_match_decides(declared: Seq<RuleView>, host: Seq<char>, i: int)
    requires
        is_best_match(declared, host, i),
    ensures
        deciding_rule(declared, host) == Some(declared[i]),
{
    law_first_match_is_best_match(declared, host);
    match first_match(priority_order(declared), host) {
        Some(p) => {
            law_best_match_unique(
                declared,
                host,
                i,
                priority_origins(specificities(declared))[p],
            );
        },
        None => {
            assert(!declared[i].pattern.matches(host));
        },
    }
}

/// A policy resolves a host through the deciding rule of its declared
/// rules.
pub proof fn law_resolution_follows_deciding_rule(
    personas: Map<Seq<char>, Persona>,
    declared: Seq<RuleView>,
    host: Seq<char>,
)
    ensures
        policy_of(personas, declared).resolve(host) == match deciding_rule(declared, host) {
            Some(rule) => if personas.contains_key(rule.persona_id) {
                Some(personas[rule.persona_id])
            } else {
                None
            },
            None => None,
        },
{
}

/// A rule that does not match a host, such as one whose wildcard pattern is
/// malformed, has no part in the decision for that host: with or without
/// it, the same rule decides and the host resolves to the same persona.
pub proof fn law_unmatched_rule_is_inert(
    personas: Map<Seq<char>, Persona>,
    declared: Seq<RuleView>,
    host: Seq<char>,
    k: int,
)
    requires
        0 <= k < declared.len(),
        !declared[k].pattern.matches(host),
    ensures
        deciding_rule(declared.remove(k), host) == deciding_rule(declared, host),
        policy_of(personas, declared.remove(k)).resolve(host) == policy_of(
            personas,
            declared,
        ).resolve(host),
{
    law_resolution_follows_deciding_rule(personas, declared, host);
    law_resolution_follows_deciding_rule(personas, declared.remove(k), host);
    let rest = declared.remove(k);
    let keys = specificities(declared);
    let rest_keys = specificities(rest);
    law_first_match_is_best_match(declared, host);
    law_first_match_is_best_match(rest, host);
    match first_match(priority_order(declared), host) {
        Some(p) => {
            let winner = priority_origins(keys)[p];
            let moved = if winner < k { winner } else { winner - 1 };
            assert(rest[moved] == declared[winner]);
            assert forall|j: int|
                0 <= j < rest.len() && j != moved && (#[trigger] rest[j]).pattern.matches(
                    host,
                ) implies outranks(rest_keys, moved, j) by {
                let back = if j < k { j } else { j + 1 };
                assert(rest[j] == declared[back]);
                assert(declared[back].pattern.matches(host));
                assert(outranks(keys, winner, back));
            }
            law_best_match_decides(rest, host, moved);
        },
        None => {
            match first_match(priority_order(rest), host) {
                Some(q) => {
                    let j = priority_origins(rest_keys)[q];
                    let back = if j < k { j } else { j + 1 };
                    assert(rest[j] == declared[back]);
                    assert(declared[back].pattern.matches(host));
                },
                None => {},
            }
        },
    }
}

impl PolicyView {
    /// Whether every rule names a persona that the table holds.
    pub open spec fn is_intact(self) -> bool {
        forall|r: int|
            0 <= r < self.rules.len() ==> self.personas.contains_key(
                (#[trigger] self.rules[r]).persona_id,
            )
    }
}

/// In a policy whose rules all find their persona, a host resolves to a
/// persona exactly when some rule matches it.
pub proof fn law_intact_policy_resolves_every_match(policy: PolicyView, host: Seq<char>)
    requires
        policy.is_intact(),
    ensures
        policy.resolve(host) is Some <==> exists|r: int|
            0 <= r < policy.rules.len() && (#[trigger] policy.rules[r]).pattern.matches(host),
{
    if exists|r: int|
        0 <= r < policy.rules.len() && (#[trigger] policy.rules[r]).pattern.matches(host) {
        let r = choose|r: int|
            0 <= r < policy.rules.len() && (#[trigger] policy.rules[r]).pattern.matches(host);
        lemma_some_match_has_first(policy.rules, host, r);
    }
    match first_match(policy.rules, host) {
        Some(p) => {
            assert(is_first_match(policy.rules, host, p));
        },
        None => {},
    }
}

/// A policy resolves a host to nothing exactly when no rule matches the
/// host or the first rule that matches names a persona the table lacks.
pub proof fn law_resolution_outcomes(policy: PolicyView, host: Seq<char>)
    ensures
        policy.resolve(host) is None <==> (first_match(policy.rules, host) is None || (
        first_match(policy.rules, host) matches Some(p) && !policy.personas.contains_key(
            policy.rules[p].persona_id,
        ))),
        first_match(policy.rules, host) is None <==> forall|r: int|
            0 <= r < policy.rules.len() ==> !(#[trigger] policy.rules[r]).pattern.matches(host),
{
    if first_match(policy.rules, host) is None {
        assert forall|r: int| 0 <= r < policy.rules.len() implies !(
        #[trigger] policy.rules[r]).pattern.matches(host) by {
            if policy.rules[r].pattern.matches(host) {
                lemma_some_match_has_first(policy.rules, host, r);
            }
        }
    } else {
        let p = first_match(policy.rules, host)->0;
        assert(is_first_match(policy.rules, host, p));
    }
}

impl Policy {
    #[verifier::type_invariant]
    spec fn in_priority_order(&self) -> bool {
        is_descending(specificities(rule_views(self.rules@)))
    }

    /// Builds the policy from a persona table and the rules as declared.
    ///
    /// The rules are put in priority order once; nothing is validated.
    pub fn new(personas: PersonaTable, rules: Vec<Rule>) -> (policy: Policy)
        ensures
            policy@.personas == personas@,
            policy@.rules == priority_order(rule_views(rules@)),
    {
        let ghost declared = rule_views(rules@);
        let ghost origins = priority_origins(specificities(declared));
        let sorted = sort_by_priority(rules);
        proof {
            lemma_priority_order_exists(specificities(declared));
            assert(rule_views(sorted@) =~= arrange(declared, origins));
            let keys = specificities(rule_views(sorted@));
            assert forall|p: int, q: int| 0 <= p < q < keys.len() implies keys[p] >= keys[q] by {
                assert(outranks(specificities(declared), origins[p], origins[q]));
            }
        }
        Policy { personas, rules: sorted }
    }

    /// The persona to apply to `host`, if any.
    pub fn resolve_persona(&self, host: &str) -> (found: Option<&Persona>)
        ensures
            match found {
                Some(persona) => self@.resolve(host@) == Some(*persona),
                None => self@.resolve(host@) is None,
            },
    {
        let mut i: usize = 0;
        while i < self.rules.len()
            invariant
                i <= self.rules@.len(),
                forall|j: int| 0 <= j < i ==> !(#[trigger] self@.rules[j]).pattern.matches(host@),
            decreases self.rules@.len() - i,
        {
            if self.rules[i].matches_host(host) {
                proof {
                    lemma_first_match_unique(self@.rules, host@, i as int);
                }
                return self.personas.get(self.rules[i].persona_id.as_str());
            }
            i += 1;
        }
        assert(first_match(self@.rules, host@) is None);
        None
    }

    /// The persona table.
    pub fn personas(&self) -> (table: &PersonaTable)
        ensures
            table@ == self@.personas,
    {
        &self.personas
    }

    /// The rules, most specific first.
    pub fn rules(&self) -> (rules: &[Rule])
        ensures
            rule_views(rules@) == self@.rules,
            is_descending(specificities(self@.rules)),
    {
        proof {
            use_type_invariant(self);
        }
        self.rules.as_slice()
    }
}

impl Default for Policy {
    /// The policy without personas or rules.
    fn default() -> (policy: Policy)
        ensures
            policy@.personas == Map::<Seq<char>, Persona>::empty(),
            policy@.rules == Seq::<RuleView>::empty(),
    {
        let policy = Policy { personas: PersonaTable::new(), rules: Vec::new() };
        assert(policy@.rules =~= Seq::<RuleView>::empty());
        policy
    }
}

} // verus!
