//! Parsing, ordering and range evaluation for semantic-version strings.
//!
//! A version string `major.minor.patch[-prerelease][+build]` is scanned into
//! tokens, parsed into a [`semver::SemVer`] value, and compared under the
//! precedence order, which ignores build metadata.

use vstd::prelude::*;

pub mod token;
pub mod scanner;
pub mod semver;
pub mod parser;
pub mod range;
pub mod roundtrip;

use crate::scanner::LexError;
use crate::parser::ParseError;
use crate::semver::{SemVer, SemVerView};

verus! {

/// Any failure `parse` can report: a lexical one or a grammar one.
#[derive(Clone, Copy, Debug, PartialEq, Eq, Structural)]
pub enum SemVerError {
    Lex(LexError),
    Parse(ParseError),
}

/// What parsing a version string yields: the scan of the text, then the
/// parse of its tokens.
pub open spec fn spec_parse(s: Seq<char>) -> Result<SemVerView, SemVerError> {
    match scanner::spec_scan_from(s, 0) {
        Err(e) => Err(SemVerError::Lex(e)),
        Ok(ts) => match parser::spec_parse_tokens(ts) {
            Ok(v) => Ok(v),
            Err(e) => Err(SemVerError::Parse(e)),
        },
    }
}

/// Parse a version string: scan it, then parse the token sequence. On
/// success the returned version is well-formed and is exactly what the
/// grammar assigns to the text; on failure the error names the first
/// violation and its offset.
pub fn parse(text: &str) -> (r: Result<SemVer, SemVerError>)
    ensures
        match r {
            Ok(v) => spec_parse(text@) == Ok::<SemVerView, SemVerError>(v@) && v@.wf(),
            Err(e) => spec_parse(text@) == Err::<SemVerView, SemVerError>(e),
        },
{
    let toks = match scanner::scan(text) {
        Ok(t) => t,
        Err(e) => return Err(SemVerError::Lex(e)),
    };
    match parser::parse_tokens(&toks) {
        Ok(v) => Ok(v),
        Err(e) => Err(SemVerError::Parse(e)),
    }
}

} // verus!
