//! The parsed, validated record value returned to callers. Records are
//! created by the parser and never mutated.

use vstd::prelude::*;

verus! {

/// A validated AID record.
///
/// `v`, `uri` and `proto` are always present; the rest are optional fields
/// carried through from the record text.
#[derive(Debug, Clone, PartialEq, Eq)]
pub struct AidRecord {
    pub v: String,
    pub uri: String,
    pub proto: String,
    pub auth: Option<String>,
    pub desc: Option<String>,
    pub docs: Option<String>,
    pub dep: Option<String>,
    pub pka: Option<String>,
    pub kid: Option<String>,
}

} // verus!
