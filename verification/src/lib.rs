//! Tools for processing Pokémon Showdown battle logs: win-rate statistics,
//! participant search, and privacy-preserving anonymization, together with a
//! directory-traversal engine that feeds whole trees of logs to any of them.

pub mod anonymize;
pub mod directory;
pub mod id;
pub mod jsontext;
pub mod num;
pub mod pieces;
pub mod rewrite;
pub mod search;
pub mod statistics;
pub mod text;

use vstd::prelude::*;

verus! {

/// Errors that the battle-log tools can report.
#[derive(Debug)]
pub enum BattleToolsError {
    /// A file or directory could not be read; carries a description.
    IOError(String),
    /// A log's text is not a JSON object.
    JSONParsingError(String),
    /// A log is missing a required field or a field has the wrong type.
    InvalidLog(String),
    /// A file path could not be interpreted.
    PathConversion(String),
    /// In strict mode: an identifying fragment survived anonymization.
    /// Carries the offending room identifier.
    IncompleteAnonymization(String),
}

} // verus!
