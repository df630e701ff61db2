//! The error value: a stable symbolic code, a numeric code, and an advisory
//! human message. Callers pattern-match on the symbolic code only.

use vstd::prelude::*;
use crate::constants::{
    ERR_DNS_LOOKUP_FAILED, ERR_INVALID_TXT, ERR_NO_RECORD, ERR_SECURITY, ERR_UNSUPPORTED_PROTO,
};
use crate::strutil::str_eq;

verus! {

/// The numeric code that belongs to a symbolic error code. Unknown symbols
/// (among them `ERR_FALLBACK_FAILED`, which has no stable numeric code) fall
/// back to the `ERR_INVALID_TXT` number.
pub open spec fn spec_code_for(sym: Seq<char>) -> u16 {
    if sym == "ERR_NO_RECORD"@ {
        ERR_NO_RECORD
    } else if sym == "ERR_UNSUPPORTED_PROTO"@ {
        ERR_UNSUPPORTED_PROTO
    } else if sym == "ERR_SECURITY"@ {
        ERR_SECURITY
    } else if sym == "ERR_DNS_LOOKUP_FAILED"@ {
        ERR_DNS_LOOKUP_FAILED
    } else {
        ERR_INVALID_TXT
    }
}

/// The numeric codes of the five stable symbolic codes, and the fallback
/// number for `ERR_FALLBACK_FAILED`.
pub proof fn lemma_code_for_symbols()
    ensures
        spec_code_for("ERR_NO_RECORD"@) == ERR_NO_RECORD,
        spec_code_for("ERR_INVALID_TXT"@) == ERR_INVALID_TXT,
        spec_code_for("ERR_UNSUPPORTED_PROTO"@) == ERR_UNSUPPORTED_PROTO,
        spec_code_for("ERR_SECURITY"@) == ERR_SECURITY,
        spec_code_for("ERR_DNS_LOOKUP_FAILED"@) == ERR_DNS_LOOKUP_FAILED,
        spec_code_for("ERR_FALLBACK_FAILED"@) == ERR_INVALID_TXT,
{
    reveal_strlit("ERR_NO_RECORD");
    reveal_strlit("ERR_INVALID_TXT");
    reveal_strlit("ERR_UNSUPPORTED_PROTO");
    reveal_strlit("ERR_SECURITY");
    reveal_strlit("ERR_DNS_LOOKUP_FAILED");
    reveal_strlit("ERR_FALLBACK_FAILED");
    assert("ERR_NO_RECORD"@.len() == 13);
    assert("ERR_INVALID_TXT"@.len() == 15);
    assert("ERR_UNSUPPORTED_PROTO"@.len() == 21);
    assert("ERR_SECURITY"@.len() == 12);
    assert("ERR_DNS_LOOKUP_FAILED"@.len() == 21);
    assert("ERR_FALLBACK_FAILED"@.len() == 19);
    assert("ERR_UNSUPPORTED_PROTO"@[4] == 'U' && "ERR_DNS_LOOKUP_FAILED"@[4] == 'D');
}

/// A discovery error: symbolic code, numeric code, advisory message.
#[derive(Debug, Clone, PartialEq, Eq)]
pub struct AidError {
    pub code: u16,
    pub error_code: String,
    pub message: String,
}

impl AidError {
    /// Builds an error from a symbolic code, pairing it with its numeric
    /// code.
    pub fn new(error_code: &str, message: &str) -> (r: AidError)
        ensures
            r.error_code@ == error_code@,
            r.message@ == message@,
            r.code == spec_code_for(error_code@),
    {
        let code: u16 = if str_eq(error_code, "ERR_NO_RECORD") {
            ERR_NO_RECORD
        } else if str_eq(error_code, "ERR_UNSUPPORTED_PROTO") {
            ERR_UNSUPPORTED_PROTO
        } else if str_eq(error_code, "ERR_SECURITY") {
            ERR_SECURITY
        } else if str_eq(error_code, "ERR_DNS_LOOKUP_FAILED") {
            ERR_DNS_LOOKUP_FAILED
        } else {
            ERR_INVALID_TXT
        };
        AidError { code, error_code: error_code.to_owned(), message: message.to_owned() }
    }

    /// A record parse or validation failure.
    pub fn invalid_txt(message: &str) -> (r: AidError)
        ensures
            r.error_code@ == "ERR_INVALID_TXT"@,
            r.message@ == message@,
            r.code == ERR_INVALID_TXT,
    {
        let r = AidError::new("ERR_INVALID_TXT", message);
        proof {
            lemma_code_for_symbols();
        }
        r
    }

    /// A protocol token outside the supported set.
    pub fn unsupported_proto(message: &str) -> (r: AidError)
        ensures
            r.error_code@ == "ERR_UNSUPPORTED_PROTO"@,
            r.message@ == message@,
            r.code == ERR_UNSUPPORTED_PROTO,
    {
        let r = AidError::new("ERR_UNSUPPORTED_PROTO", message);
        proof {
            lemma_code_for_symbols();
        }
        r
    }

    /// A handshake failure.
    pub fn security(message: &str) -> (r: AidError)
        ensures
            r.error_code@ == "ERR_SECURITY"@,
            r.message@ == message@,
            r.code == ERR_SECURITY,
    {
        let r = AidError::new("ERR_SECURITY", message);
        proof {
            lemma_code_for_symbols();
        }
        r
    }
}

} // verus!
