//! Parser for the options of the `asn1` detection keyword.
//!
//! The option text is a list of clauses separated by whitespace or commas,
//! for example `"oversize_length 1024, absolute_offset 10"`. Parsing turns
//! it into a [`DetectAsn1Data`] value.

pub mod boundary;
pub mod grammar;
pub mod laws;
pub mod options;
pub mod parser;

pub use boundary::{detect_asn1_parse, parse_max_frames};
pub use options::{Clause, DetectAsn1Data, ASN1_DEFAULT_MAX_FRAMES};
pub use parser::{asn1_parse_rule, Asn1ParseError};
