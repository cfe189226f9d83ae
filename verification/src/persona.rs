//! Personas: named bundles of substitute identity attributes.

use vstd::prelude::*;

verus! {

/// Screen characteristics reported for a persona.
#[derive(Debug, Clone, PartialEq)]
pub struct Screen {
    pub width: u32,
    pub height: u32,
    pub color_depth: Option<u8>,
    /// The device pixel ratio as the bit pattern of an IEEE 754
    /// single-precision number.
    pub pixel_ratio_bits: Option<u32>,
}

/// A named bundle of identity attributes. The engine reads nothing of it
/// but hands it out whole.
#[derive(Debug, Clone, PartialEq)]
pub struct Persona {
    pub id: String,
    pub user_agent: Option<String>,
    pub accept_language: Option<String>,
    pub languages: Vec<String>,
    pub timezone: Option<String>,
    pub screen: Option<Screen>,
}

impl Persona {
    /// A persona that carries the identifier `id` and no attribute.
    pub fn new(id: &str) -> (persona: Persona)
        ensures
            persona.id@ == id@,
            persona.user_agent is None,
            persona.accept_language is None,
            persona.languages@.len() == 0,
            persona.timezone is None,
            persona.screen is None,
    {
        Persona {
            id: id.to_owned(),
            user_agent: None,
            accept_language: None,
            languages: Vec::new(),
            timezone: None,
            screen: None,
        }
    }
}

} // verus!
