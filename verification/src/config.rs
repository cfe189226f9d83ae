//! Configuration as declared: personas and rules before validation.

use vstd::prelude::*;
use vstd::utf8::encode_utf8;

use crate::persona::Persona;
use crate::policy::Policy;
use crate::priority::{
    lemma_priority_order_exists, priority_order, priority_origins, rule_views, specificities,
};
use crate::rules::{Rule, RuleView};
use crate::table::PersonaTable;
use crate::text::{ascii_case_equal, bytes_equal_ignore_ascii_case};

verus! {

/// Why a configuration cannot become a policy.
#[derive(Debug)]
pub enum ConfigError {
    /// Two personas carry this identifier.
    DuplicatePersona(String),
    /// A rule names this identifier, which no persona carries.
    UnknownPersona(String),
}

/// The formats a configuration file can be written in.
#[derive(Debug, Clone, Copy, PartialEq, Eq, Structural)]
pub enum ConfigFormat {
    Toml,
    Json,
}

impl ConfigFormat {
    /// The format that a file extension stands for: JSON for `json` in any
    /// case, TOML for everything else.
    pub fn from_extension(extension: &str) -> (format: ConfigFormat)
        ensures
            format == (if ascii_case_equal(encode_utf8(extension@), encode_utf8("json"@)) {
                ConfigFormat::Json
            } else {
                ConfigFormat::Toml
            }),
    {
        if bytes_equal_ignore_ascii_case(extension.as_bytes(), "json".as_bytes()) {
            ConfigFormat::Json
        } else {
            ConfigFormat::Toml
        }
    }
}

/// Personas and rules in the order of their declaration.
#[derive(Debug)]
pub struct Config {
    pub personas: Vec<Persona>,
    pub rules: Vec<Rule>,
}

/// The identifier of each persona, in order.
pub open spec fn persona_ids(personas: Seq<Persona>) -> Seq<Seq<char>> {
    Seq::new(personas.len(), |i: int| personas[i].id@)
}

/// Whether the identifier at `i` already occurs before `i`.
pub open spec fn is_repeat(ids: Seq<Seq<char>>, i: int) -> bool {
    0 <= i < ids.len() && ids.take(i).contains(ids[i])
}

/// Whether `i` is the first position whose identifier occurred before.
pub open spec fn is_first_repeat(ids: Seq<Seq<char>>, i: int) -> bool {
    is_repeat(ids, i) && forall|k: int| 0 <= k < i ==> !is_repeat(ids, k)
}

/// Whether rule `r` is the first that names an identifier outside `ids`.
pub open spec fn is_first_unknown(ids: Seq<Seq<char>>, rules: Seq<RuleView>, r: int) -> bool {
    &&& 0 <= r < rules.len()
    &&& !ids.contains(rules[r].persona_id)
    &&& forall|k: int| 0 <= k < r ==> ids.contains((#[trigger] rules[k]).persona_id)
}

/// The table that stores each persona under its own identifier.
pub open spec fn table_of(personas: Seq<Persona>) -> Map<Seq<char>, Persona> {
    Map::new(
        |id: Seq<char>| persona_ids(personas).contains(id),
        |id: Seq<char>| personas[persona_ids(personas).index_of(id)],
    )
}

impl Config {
    /// Whether `result` is what validation owes for this configuration.
    ///
    /// Validation fails with the first persona whose identifier repeats an
    /// earlier one; otherwise with the first rule that names a persona which
    /// is not declared. A configuration with neither yields the policy of
    /// its personas and rules.
    pub open spec fn validates_to(self, result: Result<Policy, ConfigError>) -> bool {
        let ids = persona_ids(self.personas@);
        let rules = rule_views(self.rules@);
        match result {
            Ok(policy) => {
                &&& forall|i: int| !is_repeat(ids, i)
                &&& forall|r: int|
                    0 <= r < rules.len() ==> ids.contains((#[trigger] rules[r]).persona_id)
                &&& policy@.personas == table_of(self.personas@)
                &&& policy@.rules == priority_order(rules)
            },
            Err(ConfigError::DuplicatePersona(id)) => exists|i: int|
                is_first_repeat(ids, i) && id@ == ids[i],
            Err(ConfigError::UnknownPersona(id)) => {
                &&& forall|i: int| !is_repeat(ids, i)
                &&& exists|r: int| is_first_unknown(ids, rules, r) && id@ == rules[r].persona_id
            },
        }
    }

    /// Validates the configuration and builds its policy.
    pub fn into_policy(self) -> (result: Result<Policy, ConfigError>)
        ensures
            self.validates_to(result),
    {
        let Config { personas, rules } = self;
        let ghost declared = personas@;
        let ghost ids = persona_ids(declared);
        let mut table = PersonaTable::new();
        proof {
            assert(table@ =~= table_of(declared.take(0)));
        }
        for persona in pending: personas
            invariant
                declared == self.personas@,
                ids == persona_ids(declared),
                pending.seq() == declared,
                table@ == table_of(declared.take(pending.index() as int)),
                forall|k: int| 0 <= k < pending.index() ==> !is_repeat(ids, k),
        {
            let ghost at = pending.index() as int;
            assert(persona == declared[at]);
            proof {
                assert(persona_ids(declared.take(at)) =~= ids.take(at));
            }
            if table.contains_key(persona.id.as_str()) {
                assert(is_first_repeat(ids, at));
                return Err(ConfigError::DuplicatePersona(persona.id));
            }
            let key = persona.id.clone();
            proof {
                assert(declared.take(at + 1).drop_last() =~= declared.take(at));
                assert forall|k: int| !is_repeat(ids.take(at), k) by {
                    if is_repeat(ids.take(at), k) {
                        assert(ids.take(at).take(k) =~= ids.take(k));
                        assert(is_repeat(ids, k));
                    }
                }
                lemma_table_grows(declared.take(at + 1));
            }
            table.insert(key, persona);
        }
        proof {
            assert(declared.take(declared.len() as int) =~= declared);
            assert forall|i: int| !is_repeat(ids, i) by {}
        }
        let mut r: usize = 0;
        while r < rules.len()
            invariant
                r <= rules@.len(),
                declared == self.personas@,
                rules@ == self.rules@,
                ids == persona_ids(declared),
                table@ == table_of(declared),
                forall|i: int| !is_repeat(ids, i),
                forall|k: int|
                    0 <= k < r ==> ids.contains((#[trigger] rule_views(rules@)[k]).persona_id),
            decreases rules@.len() - r,
        {
            if !table.contains_key(rules[r].persona_id.as_str()) {
                assert(is_first_unknown(ids, rule_views(rules@), r as int));
                return Err(ConfigError::UnknownPersona(rules[r].persona_id.clone()));
            }
            r += 1;
        }
        Ok(Policy::new(table, rules))
    }
}

impl TryFrom<Config> for Policy {
    type Error = ConfigError;

    /// Validates `config` and builds its policy.
    fn try_from(config: Config) -> (result: Result<Policy, ConfigError>)
        ensures
            config.validates_to(result),
    {
        config.into_policy()
    }
}

/// The conversion is specified by the contract of `try_from`, not by a
/// function from configurations to results: a policy's representation is
/// not determined by its content.
impl vstd::std_specs::convert::TryFromSpecImpl<Config> for Policy {
    open spec fn obeys_try_from_spec() -> bool {
        false
    }

    open spec fn try_from_spec(config: Config) -> Result<Policy, ConfigError> {
        arbitrary()
    }
}

/// Validation has one outcome: whatever it may return for a configuration
/// agrees in kind, in the identifier an error names, and in the content of
/// the policy.
pub proof fn law_validation_is_decided(
    config: Config,
    first: Result<Policy, ConfigError>,
    second: Result<Policy, ConfigError>,
)
    requires
        config.validates_to(first),
        config.validates_to(second),
    ensures
        match (first, second) {
            (Ok(p), Ok(q)) => p@ == q@,
            (
                Err(ConfigError::DuplicatePersona(a)),
                Err(ConfigError::DuplicatePersona(b)),
            ) => a@ == b@,
            (Err(ConfigError::UnknownPersona(a)), Err(ConfigError::UnknownPersona(b))) => a@
                == b@,
            _ => false,
        },
{
    let ids = persona_ids(config.personas@);
    let rules = rule_views(config.rules@);
    if exists|i: int| is_first_repeat(ids, i) {
        let i = choose|i: int| is_first_repeat(ids, i);
        assert forall|j: int| is_first_repeat(ids, j) implies j == i by {}
    }
    if exists|r: int| is_first_unknown(ids, rules, r) {
        let r = choose|r: int| is_first_unknown(ids, rules, r);
        assert forall|k: int| is_first_unknown(ids, rules, k) implies k == r by {
            if k < r {
                assert(ids.contains(rules[k].persona_id));
            } else if r < k {
                assert(ids.contains(rules[r].persona_id));
            }
        }
    }
}

/// A policy that validation yields is intact: each of its rules names a
/// persona that its table holds, so a configuration with a rule that names
/// an undeclared persona never becomes a policy.
pub proof fn law_validated_policy_is_intact(config: Config, policy: Policy)
    requires
        config.validates_to(Ok(policy)),
    ensures
        policy@.is_intact(),
        forall|r: int|
            0 <= r < config.rules@.len() ==> policy@.personas.contains_key(
                (#[trigger] config.rules@[r]).persona_id@,
            ),
{
    let rules = rule_views(config.rules@);
    let keys = specificities(rules);
    let origins = priority_origins(keys);
    lemma_priority_order_exists(keys);
    assert forall|p: int| 0 <= p < policy@.rules.len() implies policy@.personas.contains_key(
        (#[trigger] policy@.rules[p]).persona_id,
    ) by {
        assert(policy@.rules[p] == rules[origins[p]]);
    }
    assert forall|r: int| 0 <= r < config.rules@.len() implies policy@.personas.contains_key(
        (#[trigger] config.rules@[r]).persona_id@,
    ) by {
        assert(rules[r].persona_id == config.rules@[r].persona_id@);
    }
}

/// Declaring one more persona, under an identifier not used before, adds
/// exactly that persona to the table.
pub proof fn lemma_table_grows(personas: Seq<Persona>)
    requires
        personas.len() > 0,
        !persona_ids(personas.drop_last()).contains(personas.last().id@),
        forall|k: int| !is_repeat(persona_ids(personas.drop_last()), k),
    ensures
        table_of(personas) == table_of(personas.drop_last()).insert(
            personas.last().id@,
            personas.last(),
        ),
{
    let earlier = personas.drop_last();
    let ids = persona_ids(personas);
    let earlier_ids = persona_ids(earlier);
    let last = personas.len() - 1;
    assert(earlier_ids =~= ids.take(last));
    assert forall|id: Seq<char>| ids.contains(id) <==> (id == ids[last] || earlier_ids.contains(
        id,
    )) by {
        if ids.contains(id) {
            let i = choose|i: int| 0 <= i < ids.len() && ids[i] == id;
            if i < last {
                assert(earlier_ids[i] == id);
            }
        }
        if earlier_ids.contains(id) {
            let i = choose|i: int| 0 <= i < earlier_ids.len() && earlier_ids[i] == id;
            assert(ids[i] == id);
        }
        if id == ids[last] {
            assert(ids[last] == id);
        }
    }
    assert forall|id: Seq<char>| ids.contains(id) implies #[trigger] table_of(personas)[id] == (
    if id == ids[last] {
        personas.last()
    } else {
        table_of(earlier)[id]
    }) by {
        let i = ids.index_of(id);
        assert(0 <= i < ids.len() && ids[i] == id);
        if id == ids[last] {
            if i < last {
                assert(earlier_ids[i] == id);
            }
        } else {
            let j = earlier_ids.index_of(id);
            assert(0 <= j < earlier_ids.len() && earlier_ids[j] == id);
            if i != j {
                let low = if i < j { i } else { j };
                let high = if i < j { j } else { i };
                assert(earlier_ids.take(high)[low] == earlier_ids[high]);
                assert(is_repeat(earlier_ids, high));
            }
        }
    }
    assert(table_of(personas) =~= table_of(earlier).insert(personas.last().id@, personas.last()));
}

} // verus!
