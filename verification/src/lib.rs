//! Converts Ethereum contract-interface descriptions (ABI JSON) into compact
//! human-readable signature strings and serializes them as a JSON array.
//!
//! The crate owns the whole textual pipeline: a recursive-descent JSON parser
//! producing a generic value tree, an extractor mapping that tree to typed
//! interface entries, a deterministic signature formatter, and the JSON-array
//! serialization of the formatted strings. Each stage's behaviour is pinned
//! to specification functions over character sequences, and the global
//! round-trip and escaping properties are proved in `laws`.

pub mod abi;
pub mod chars;
pub mod converter;
pub mod json_parser;
pub mod laws;
pub mod options;
