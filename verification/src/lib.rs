//! Decision core of an identity-masking proxy: given a table of personas and
//! a list of host-matching rules, pick at most one persona for a request
//! host.
//!
//! Rules are put in priority order once, when a [`Policy`] is built: by
//! descending specificity, rules of equal specificity in the order of their
//! declaration. Resolution returns the persona of the first rule in that
//! order whose pattern matches the host.

pub mod config;
pub mod logging;
pub mod persona;
pub mod policy;
pub mod priority;
pub mod rules;
pub mod table;
pub mod text;
pub mod wildcard;

pub use config::{Config, ConfigError, ConfigFormat};
pub use logging::{LogEntry, LogError, Logger, MultiLogger};
pub use persona::{Persona, Screen};
pub use policy::Policy;
pub use rules::{Rule, RulePattern};
pub use table::PersonaTable;
