//! The constants table: error codes, token sets, and DNS guidance shared by
//! every other component.
//!
//! Text tokens are modelled over their ASCII bytes, matching the byte-level
//! model the parser uses for record text.

use vstd::prelude::*;
use crate::strutil::ascii_seq;

verus! {

/// Numeric code paired with `ERR_NO_RECORD`.
pub const ERR_NO_RECORD: u16 = 1000;

/// Numeric code paired with `ERR_INVALID_TXT`.
pub const ERR_INVALID_TXT: u16 = 1001;

/// Numeric code paired with `ERR_UNSUPPORTED_PROTO`.
pub const ERR_UNSUPPORTED_PROTO: u16 = 1002;

/// Numeric code paired with `ERR_SECURITY`.
pub const ERR_SECURITY: u16 = 1003;

/// Numeric code paired with `ERR_DNS_LOOKUP_FAILED`.
pub const ERR_DNS_LOOKUP_FAILED: u16 = 1004;

/// Lower bound of the advisory DNS TTL range for AID records.
pub const DNS_TTL_MIN: u32 = 300;

/// Upper bound of the advisory DNS TTL range for AID records.
pub const DNS_TTL_MAX: u32 = 900;

/// Freshness window, in seconds, for the handshake `created` parameter and
/// the response `Date` header.
pub const FRESHNESS_WINDOW_SECS: i64 = 300;

/// The bytes of the spec version token every record must carry in `v`.
pub open spec fn spec_version_bytes() -> Seq<u8> {
    ascii_seq("aid1"@)
}

/// The supported protocol tokens, over their ASCII bytes.
pub open spec fn spec_is_supported_proto(t: Seq<u8>) -> bool {
    ||| t == ascii_seq("mcp"@)
    ||| t == ascii_seq("a2a"@)
    ||| t == ascii_seq("openapi"@)
    ||| t == ascii_seq("local"@)
    ||| t == ascii_seq("grpc"@)
    ||| t == ascii_seq("graphql"@)
    ||| t == ascii_seq("websocket"@)
    ||| t == ascii_seq("zeroconf"@)
}

/// The supported authentication tokens, over their ASCII bytes.
pub open spec fn spec_is_supported_auth(t: Seq<u8>) -> bool {
    ||| t == ascii_seq("none"@)
    ||| t == ascii_seq("pat"@)
    ||| t == ascii_seq("apikey"@)
    ||| t == ascii_seq("basic"@)
    ||| t == ascii_seq("oauth2_device"@)
    ||| t == ascii_seq("oauth2_code"@)
    ||| t == ascii_seq("mtls"@)
    ||| t == ascii_seq("custom"@)
}

} // verus!
