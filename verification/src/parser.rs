//! The record parser: a pure, deterministic function from candidate record
//! text to a validated record or an error.
//!
//! The behaviour is pinned by a byte-level model: `spec_parse` maps the UTF-8
//! bytes of the input to either a `SpecRecord` (the bytes of every field) or
//! the numeric code of the error, and `parse` is proved to return exactly
//! that.

use vstd::prelude::*;
use vstd::utf8::*;
use vstd::string::StringSliceAdditionalSpecFns;
use crate::constants::{
    ERR_INVALID_TXT, ERR_UNSUPPORTED_PROTO, spec_is_supported_auth, spec_is_supported_proto,
    spec_version_bytes,
};
use crate::errors::AidError;
use crate::record::AidRecord;
use crate::strutil::{
    ascii_seq, bytes_eq, find_byte, find_from, is_ws, lemma_ascii_encode,
    lemma_boundary_after_ascii, lemma_boundary_at_ascii, lower_bytes, lower_copy, starts_with,
    starts_with_bytes, substr, trim_range, trim_spec,
};

verus! {

/// The parser's accumulator: one slot per semantic field, with `proto` and
/// its short alias `p` kept apart until the final checks.
#[verifier::ext_equal]
pub struct SpecFields {
    pub v: Option<Seq<u8>>,
    pub uri: Option<Seq<u8>>,
    pub proto: Option<Seq<u8>>,
    pub p: Option<Seq<u8>>,
    pub auth: Option<Seq<u8>>,
    pub desc: Option<Seq<u8>>,
    pub docs: Option<Seq<u8>>,
    pub dep: Option<Seq<u8>>,
    pub pka: Option<Seq<u8>>,
    pub kid: Option<Seq<u8>>,
}

/// The model of a parsed record: the UTF-8 bytes of each field.
#[verifier::ext_equal]
pub struct SpecRecord {
    pub v: Seq<u8>,
    pub uri: Seq<u8>,
    pub proto: Seq<u8>,
    pub auth: Option<Seq<u8>>,
    pub desc: Option<Seq<u8>>,
    pub docs: Option<Seq<u8>>,
    pub dep: Option<Seq<u8>>,
    pub pka: Option<Seq<u8>>,
    pub kid: Option<Seq<u8>>,
}

/// The accumulator before any segment has been read.
pub open spec fn empty_fields() -> SpecFields {
    SpecFields {
        v: None,
        uri: None,
        proto: None,
        p: None,
        auth: None,
        desc: None,
        docs: None,
        dep: None,
        pka: None,
        kid: None,
    }
}

/// Stores one recognized `key=value` pair, rejecting any second occurrence
/// of a semantic field across its aliases. Unrecognized keys are ignored.
pub open spec fn assign(st: SpecFields, key: Seq<u8>, value: Seq<u8>) -> Result<SpecFields, ()> {
    if key == ascii_seq("v"@) {
        if st.v is Some {
            Err(())
        } else {
            Ok(SpecFields { v: Some(value), ..st })
        }
    } else if key == ascii_seq("uri"@) || key == ascii_seq("u"@) {
        if st.uri is Some {
            Err(())
        } else {
            Ok(SpecFields { uri: Some(value), ..st })
        }
    } else if key == ascii_seq("proto"@) {
        if st.proto is Some {
            Err(())
        } else {
            Ok(SpecFields { proto: Some(value), ..st })
        }
    } else if key == ascii_seq("p"@) {
        if st.p is Some {
            Err(())
        } else {
            Ok(SpecFields { p: Some(value), ..st })
        }
    } else if key == ascii_seq("auth"@) || key == ascii_seq("a"@) {
        if st.auth is Some {
            Err(())
        } else {
            Ok(SpecFields { auth: Some(value), ..st })
        }
    } else if key == ascii_seq("desc"@) || key == ascii_seq("s"@) {
        if st.desc is Some {
            Err(())
        } else {
            Ok(SpecFields { desc: Some(value), ..st })
        }
    } else if key == ascii_seq("docs"@) || key == ascii_seq("d"@) {
        if st.docs is Some {
            Err(())
        } else {
            Ok(SpecFields { docs: Some(value), ..st })
        }
    } else if key == ascii_seq("dep"@) || key == ascii_seq("e"@) {
        if st.dep is Some {
            Err(())
        } else {
            Ok(SpecFields { dep: Some(value), ..st })
        }
    } else if key == ascii_seq("pka"@) || key == ascii_seq("k"@) {
        if st.pka is Some {
            Err(())
        } else {
            Ok(SpecFields { pka: Some(value), ..st })
        }
    } else if key == ascii_seq("kid"@) || key == ascii_seq("i"@) {
        if st.kid is Some {
            Err(())
        } else {
            Ok(SpecFields { kid: Some(value), ..st })
        }
    } else {
        Ok(st)
    }
}

/// Processes one raw segment: trim it, skip it when empty, split it at the
/// first `=`, trim and lowercase the key, trim the value, and store the pair.
pub open spec fn step(st: SpecFields, seg: Seq<u8>) -> Result<SpecFields, ()> {
    let tseg = trim_spec(seg);
    if tseg.len() == 0 {
        Ok(st)
    } else {
        let e = find_from(tseg, 0, 61);
        if e == tseg.len() {
            Err(())
        } else {
            let key = lower_bytes(trim_spec(tseg.take(e)));
            let value = trim_spec(tseg.skip(e + 1));
            if key.len() == 0 || value.len() == 0 {
                Err(())
            } else {
                assign(st, key, value)
            }
        }
    }
}

/// Folds `step` over the `;`-separated segments of the input.
pub open spec fn run(st: SpecFields, s: Seq<u8>) -> Result<SpecFields, ()>
    decreases s.len(),
    via run_decreases
{
    let i = find_from(s, 0, 59);
    if i == s.len() {
        step(st, s)
    } else {
        match step(st, s.take(i)) {
            Ok(st2) => run(st2, s.skip(i + 1)),
            Err(e) => Err(e),
        }
    }
}

#[via_fn]
proof fn run_decreases(st: SpecFields, s: Seq<u8>) {
    crate::strutil::lemma_find_from_bounds(s, 0, 59);
}

/// The `docs` check: an absolute https URL with a host separator after the
/// scheme.
pub open spec fn docs_ok(d: Seq<u8>) -> bool {
    &&& starts_with(d, ascii_seq("https://"@))
    &&& exists|j: int| 8 <= j < d.len() && (d[j] == 47 || d[j] == 58)
}

/// The URI scheme each protocol token requires.
pub open spec fn uri_ok(proto: Seq<u8>, uri: Seq<u8>) -> bool {
    if proto == ascii_seq("local"@) {
        true
    } else if proto == ascii_seq("zeroconf"@) {
        starts_with(uri, ascii_seq("zeroconf:"@))
    } else if proto == ascii_seq("websocket"@) {
        starts_with(uri, ascii_seq("wss://"@))
    } else {
        starts_with(uri, ascii_seq("https://"@))
    }
}

/// The required-field and value checks, in the order they are reported.
pub open spec fn finalize(st: SpecFields) -> Result<SpecRecord, u16> {
    if st.v is None {
        Err(ERR_INVALID_TXT)
    } else if st.v->0 != spec_version_bytes() {
        Err(ERR_INVALID_TXT)
    } else if st.uri is None {
        Err(ERR_INVALID_TXT)
    } else if st.proto is Some && st.p is Some {
        Err(ERR_INVALID_TXT)
    } else if st.proto is None && st.p is None {
        Err(ERR_INVALID_TXT)
    } else {
        let proto = if st.proto is Some {
            st.proto->0
        } else {
            st.p->0
        };
        if !spec_is_supported_proto(proto) {
            Err(ERR_UNSUPPORTED_PROTO)
        } else if st.auth is Some && !spec_is_supported_auth(st.auth->0) {
            Err(ERR_INVALID_TXT)
        } else if st.desc is Some && st.desc->0.len() > 60 {
            Err(ERR_INVALID_TXT)
        } else if st.docs is Some && !docs_ok(st.docs->0) {
            Err(ERR_INVALID_TXT)
        } else if st.dep is Some && !(st.dep->0.len() > 0 && st.dep->0.last() == 90) {
            Err(ERR_INVALID_TXT)
        } else if !uri_ok(proto, st.uri->0) {
            Err(ERR_INVALID_TXT)
        } else {
            Ok(
                SpecRecord {
                    v: st.v->0,
                    uri: st.uri->0,
                    proto,
                    auth: st.auth,
                    desc: st.desc,
                    docs: st.docs,
                    dep: st.dep,
                    pka: st.pka,
                    kid: st.kid,
                },
            )
        }
    }
}

/// The full parser model over the input bytes.
pub open spec fn spec_parse(t: Seq<u8>) -> Result<SpecRecord, u16> {
    match run(empty_fields(), t) {
        Ok(st) => finalize(st),
        Err(_) => Err(ERR_INVALID_TXT),
    }
}

/// How an optional `String` field realizes an optional model field.
pub open spec fn opt_models(o: Option<String>, m: Option<Seq<u8>>) -> bool {
    match (o, m) {
        (Option::None, Option::None) => true,
        (Option::Some(s), Option::Some(b)) => encode_utf8(s@) == b,
        _ => false,
    }
}

/// How a record value realizes its model.
pub open spec fn rec_models(rec: AidRecord, m: SpecRecord) -> bool {
    &&& encode_utf8(rec.v@) == m.v
    &&& encode_utf8(rec.uri@) == m.uri
    &&& encode_utf8(rec.proto@) == m.proto
    &&& opt_models(rec.auth, m.auth)
    &&& opt_models(rec.desc, m.desc)
    &&& opt_models(rec.docs, m.docs)
    &&& opt_models(rec.dep, m.dep)
    &&& opt_models(rec.pka, m.pka)
    &&& opt_models(rec.kid, m.kid)
}

/// The UTF-8 encodings of the recognized keys are their ASCII bytes.
pub(crate) proof fn lemma_key_literal_bytes()
    ensures
        encode_utf8("v"@) == ascii_seq("v"@),
        encode_utf8("uri"@) == ascii_seq("uri"@),
        encode_utf8("u"@) == ascii_seq("u"@),
        encode_utf8("proto"@) == ascii_seq("proto"@),
        encode_utf8("p"@) == ascii_seq("p"@),
        encode_utf8("auth"@) == ascii_seq("auth"@),
        encode_utf8("a"@) == ascii_seq("a"@),
        encode_utf8("desc"@) == ascii_seq("desc"@),
        encode_utf8("s"@) == ascii_seq("s"@),
        encode_utf8("docs"@) == ascii_seq("docs"@),
        encode_utf8("d"@) == ascii_seq("d"@),
        encode_utf8("dep"@) == ascii_seq("dep"@),
        encode_utf8("e"@) == ascii_seq("e"@),
        encode_utf8("pka"@) == ascii_seq("pka"@),
        encode_utf8("k"@) == ascii_seq("k"@),
        encode_utf8("kid"@) == ascii_seq("kid"@),
        encode_utf8("i"@) == ascii_seq("i"@),
{
    reveal_strlit("v");
    reveal_strlit("uri");
    reveal_strlit("u");
    reveal_strlit("proto");
    reveal_strlit("p");
    reveal_strlit("auth");
    reveal_strlit("a");
    reveal_strlit("desc");
    reveal_strlit("s");
    reveal_strlit("docs");
    reveal_strlit("d");
    reveal_strlit("dep");
    reveal_strlit("e");
    reveal_strlit("pka");
    reveal_strlit("k");
    reveal_strlit("kid");
    reveal_strlit("i");
    lemma_ascii_encode("v"@);
    lemma_ascii_encode("uri"@);
    lemma_ascii_encode("u"@);
    lemma_ascii_encode("proto"@);
    lemma_ascii_encode("p"@);
    lemma_ascii_encode("auth"@);
    lemma_ascii_encode("a"@);
    lemma_ascii_encode("desc"@);
    lemma_ascii_encode("s"@);
    lemma_ascii_encode("docs"@);
    lemma_ascii_encode("d"@);
    lemma_ascii_encode("dep"@);
    lemma_ascii_encode("e"@);
    lemma_ascii_encode("pka"@);
    lemma_ascii_encode("k"@);
    lemma_ascii_encode("kid"@);
    lemma_ascii_encode("i"@);
}

/// The UTF-8 encodings of the token and scheme literals are their ASCII
/// bytes.
proof fn lemma_token_literal_bytes()
    ensures
        encode_utf8("aid1"@) == ascii_seq("aid1"@),
        encode_utf8("mcp"@) == ascii_seq("mcp"@),
        encode_utf8("a2a"@) == ascii_seq("a2a"@),
        encode_utf8("openapi"@) == ascii_seq("openapi"@),
        encode_utf8("local"@) == ascii_seq("local"@),
        encode_utf8("grpc"@) == ascii_seq("grpc"@),
        encode_utf8("graphql"@) == ascii_seq("graphql"@),
        encode_utf8("websocket"@) == ascii_seq("websocket"@),
        encode_utf8("zeroconf"@) == ascii_seq("zeroconf"@),
        encode_utf8("none"@) == ascii_seq("none"@),
        encode_utf8("pat"@) == ascii_seq("pat"@),
        encode_utf8("apikey"@) == ascii_seq("apikey"@),
        encode_utf8("basic"@) == ascii_seq("basic"@),
        encode_utf8("oauth2_device"@) == ascii_seq("oauth2_device"@),
        encode_utf8("oauth2_code"@) == ascii_seq("oauth2_code"@),
        encode_utf8("mtls"@) == ascii_seq("mtls"@),
        encode_utf8("custom"@) == ascii_seq("custom"@),
        encode_utf8("https://"@) == ascii_seq("https://"@),
        encode_utf8("zeroconf:"@) == ascii_seq("zeroconf:"@),
        encode_utf8("wss://"@) == ascii_seq("wss://"@),
        "aid1"@.len() == 4,
        "https://"@.len() == 8,
        "zeroconf:"@.len() == 9,
        "wss://"@.len() == 6,
{
    reveal_strlit("aid1");
    reveal_strlit("mcp");
    reveal_strlit("a2a");
    reveal_strlit("openapi");
    reveal_strlit("local");
    reveal_strlit("grpc");
    reveal_strlit("graphql");
    reveal_strlit("websocket");
    reveal_strlit("zeroconf");
    reveal_strlit("none");
    reveal_strlit("pat");
    reveal_strlit("apikey");
    reveal_strlit("basic");
    reveal_strlit("oauth2_device");
    reveal_strlit("oauth2_code");
    reveal_strlit("mtls");
    reveal_strlit("custom");
    reveal_strlit("https://");
    reveal_strlit("zeroconf:");
    reveal_strlit("wss://");
    lemma_ascii_encode("aid1"@);
    lemma_ascii_encode("mcp"@);
    lemma_ascii_encode("a2a"@);
    lemma_ascii_encode("openapi"@);
    lemma_ascii_encode("local"@);
    lemma_ascii_encode("grpc"@);
    lemma_ascii_encode("graphql"@);
    lemma_ascii_encode("websocket"@);
    lemma_ascii_encode("zeroconf"@);
    lemma_ascii_encode("none"@);
    lemma_ascii_encode("pat"@);
    lemma_ascii_encode("apikey"@);
    lemma_ascii_encode("basic"@);
    lemma_ascii_encode("oauth2_device"@);
    lemma_ascii_encode("oauth2_code"@);
    lemma_ascii_encode("mtls"@);
    lemma_ascii_encode("custom"@);
    lemma_ascii_encode("https://"@);
    lemma_ascii_encode("zeroconf:"@);
    lemma_ascii_encode("wss://"@);
}

/// Whether a protocol token is in the supported set.
pub fn is_supported_proto(token: &str) -> (r: bool)
    ensures
        r == spec_is_supported_proto(token.spec_bytes()),
{
    proof {
        lemma_token_literal_bytes();
    }
    let tb = token.as_bytes();
    bytes_eq(tb, "mcp".as_bytes()) || bytes_eq(tb, "a2a".as_bytes()) || bytes_eq(
        tb,
        "openapi".as_bytes(),
    ) || bytes_eq(tb, "local".as_bytes()) || bytes_eq(tb, "grpc".as_bytes()) || bytes_eq(
        tb,
        "graphql".as_bytes(),
    ) || bytes_eq(tb, "websocket".as_bytes()) || bytes_eq(tb, "zeroconf".as_bytes())
}

/// Whether an authentication token is in the supported set.
pub fn is_supported_auth(token: &str) -> (r: bool)
    ensures
        r == spec_is_supported_auth(token.spec_bytes()),
{
    proof {
        lemma_token_literal_bytes();
    }
    let tb = token.as_bytes();
    bytes_eq(tb, "none".as_bytes()) || bytes_eq(tb, "pat".as_bytes()) || bytes_eq(
        tb,
        "apikey".as_bytes(),
    ) || bytes_eq(tb, "basic".as_bytes()) || bytes_eq(tb, "oauth2_device".as_bytes()) || bytes_eq(
        tb,
        "oauth2_code".as_bytes(),
    ) || bytes_eq(tb, "mtls".as_bytes()) || bytes_eq(tb, "custom".as_bytes())
}

/// The executable accumulator that mirrors `SpecFields`.
struct Acc {
    v: Option<String>,
    uri: Option<String>,
    proto: Option<String>,
    p: Option<String>,
    auth: Option<String>,
    desc: Option<String>,
    docs: Option<String>,
    dep: Option<String>,
    pka: Option<String>,
    kid: Option<String>,
}

/// Lifts an optional owned field to its model.
pub open spec fn omap(o: Option<String>) -> Option<Seq<u8>> {
    match o {
        Option::None => None,
        Option::Some(s) => Some(encode_utf8(s@)),
    }
}

/// The model state an accumulator realizes.
spec fn st_of_acc(acc: Acc) -> SpecFields {
    SpecFields {
        v: omap(acc.v),
        uri: omap(acc.uri),
        proto: omap(acc.proto),
        p: omap(acc.p),
        auth: omap(acc.auth),
        desc: omap(acc.desc),
        docs: omap(acc.docs),
        dep: omap(acc.dep),
        pka: omap(acc.pka),
        kid: omap(acc.kid),
    }
}

/// Handles the raw segment `txt[seg_start..seg_end]`, updating the
/// accumulator exactly as `step` updates the model state.
fn process_segment(txt: &str, seg_start: usize, seg_end: usize, acc: &mut Acc) -> (r: Result<
    (),
    AidError,
>)
    requires
        seg_start <= seg_end <= txt.spec_bytes().len(),
        seg_end == txt.spec_bytes().len() || txt.spec_bytes()[seg_end as int] == 59,
    ensures
        ({
            let res = step(
                st_of_acc(*old(acc)),
                txt.spec_bytes().subrange(seg_start as int, seg_end as int),
            );
            &&& (r is Ok <==> res is Ok)
            &&& (r is Ok ==> st_of_acc(*final(acc)) == res->Ok_0)
            &&& (r is Err ==> r->Err_0.code == ERR_INVALID_TXT && r->Err_0.error_code@
                == "ERR_INVALID_TXT"@)
        }),
{
    let ghost t = txt.spec_bytes();
    let ghost seg = t.subrange(seg_start as int, seg_end as int);
    let ghost st0 = st_of_acc(*old(acc));
    proof {
        broadcast use group_utf8_lib;

        assert(valid_utf8(t));
    }
    let bytes = txt.as_bytes();
    let (a, z) = trim_range(bytes, seg_start, seg_end);
    proof {
        assert(t.subrange(a as int, z as int) == trim_spec(seg));
    }
    let ghost tseg = trim_spec(seg);
    if a == z {
        proof {
            assert(tseg.len() == 0);
        }
        return Ok(());
    }
    proof {
        assert(tseg.len() == z - a);
    }
    let e_abs = find_byte(bytes, a, z, 61);
    let ghost e = e_abs - a;
    proof {
        assert(e == find_from(tseg, 0, 61));
    }
    if e_abs == z {
        return Err(AidError::invalid_txt("Invalid key-value pair"));
    }
    let (ka, kz) = trim_range(bytes, a, e_abs);
    proof {
        assert(t.subrange(a as int, e_abs as int) =~= tseg.take(e));
        assert(t.subrange(ka as int, kz as int) == trim_spec(tseg.take(e)));
    }
    let key = lower_copy(bytes, ka, kz);
    proof {
        assert(key@ == lower_bytes(trim_spec(tseg.take(e))));
    }
    let (va, vz) = trim_range(bytes, e_abs + 1, z);
    proof {
        assert(t.subrange(e_abs + 1, z as int) =~= tseg.skip(e + 1));
        assert(t.subrange(va as int, vz as int) == trim_spec(tseg.skip(e + 1)));
    }
    let ghost mvalue = trim_spec(tseg.skip(e + 1));
    if ka == kz || va == vz {
        proof {
            if ka == kz {
                assert(lower_bytes(trim_spec(tseg.take(e))).len() == 0);
            } else {
                assert(mvalue.len() == 0);
            }
        }
        return Err(AidError::invalid_txt("Empty key or value in pair"));
    }
    proof {
        assert(key@.len() > 0);
        assert(mvalue.len() > 0);
        // the byte before the value start is `=` or trimmed whitespace,
        // both ASCII, so the value bounds are character boundaries
        assert(t[va - 1] < 0x80) by {
            if va == e_abs + 1 {
                assert(t[e_abs as int] == 61);
            } else {
                assert(is_ws(t[va - 1]));
            }
        }
        lemma_boundary_after_ascii(t, va as int);
        if vz < t.len() {
            assert(t[vz as int] < 0x80) by {
                if vz == z {
                    if (z as int) == seg_end {
                        assert(t[seg_end as int] == 59);
                    } else {
                        assert(is_ws(t[z as int]));
                    }
                } else {
                    assert(is_ws(t[vz as int]));
                }
            }
        }
        lemma_boundary_at_ascii(t, vz as int);
    }
    let value = substr(txt, va, vz);
    proof {
        assert(encode_utf8(value@) == mvalue);
        lemma_key_literal_bytes();
    }
    let ks = key.as_slice();
    if bytes_eq(ks, "v".as_bytes()) {
        if acc.v.is_some() {
            return Err(AidError::invalid_txt("Duplicate key"));
        }
        acc.v = Some(value);
    } else if bytes_eq(ks, "uri".as_bytes()) || bytes_eq(ks, "u".as_bytes()) {
        if acc.uri.is_some() {
            return Err(AidError::invalid_txt("Cannot specify both \"uri\" and \"u\""));
        }
        acc.uri = Some(value);
    } else if bytes_eq(ks, "proto".as_bytes()) {
        if acc.proto.is_some() {
            return Err(AidError::invalid_txt("Duplicate key"));
        }
        acc.proto = Some(value);
    } else if bytes_eq(ks, "p".as_bytes()) {
        if acc.p.is_some() {
            return Err(AidError::invalid_txt("Duplicate key"));
        }
        acc.p = Some(value);
    } else if bytes_eq(ks, "auth".as_bytes()) || bytes_eq(ks, "a".as_bytes()) {
        if acc.auth.is_some() {
            return Err(AidError::invalid_txt("Cannot specify both \"auth\" and \"a\""));
        }
        acc.auth = Some(value);
    } else if bytes_eq(ks, "desc".as_bytes()) || bytes_eq(ks, "s".as_bytes()) {
        if acc.desc.is_some() {
            return Err(AidError::invalid_txt("Cannot specify both \"desc\" and \"s\""));
        }
        acc.desc = Some(value);
    } else if bytes_eq(ks, "docs".as_bytes()) || bytes_eq(ks, "d".as_bytes()) {
        if acc.docs.is_some() {
            return Err(AidError::invalid_txt("Cannot specify both \"docs\" and \"d\""));
        }
        acc.docs = Some(value);
    } else if bytes_eq(ks, "dep".as_bytes()) || bytes_eq(ks, "e".as_bytes()) {
        if acc.dep.is_some() {
            return Err(AidError::invalid_txt("Cannot specify both \"dep\" and \"e\""));
        }
        acc.dep = Some(value);
    } else if bytes_eq(ks, "pka".as_bytes()) || bytes_eq(ks, "k".as_bytes()) {
        if acc.pka.is_some() {
            return Err(AidError::invalid_txt("Cannot specify both \"pka\" and \"k\""));
        }
        acc.pka = Some(value);
    } else if bytes_eq(ks, "kid".as_bytes()) || bytes_eq(ks, "i".as_bytes()) {
        if acc.kid.is_some() {
            return Err(AidError::invalid_txt("Cannot specify both \"kid\" and \"i\""));
        }
        acc.kid = Some(value);
    }
    proof {
        assert(st_of_acc(*acc) =~= step(st0, seg)->Ok_0);
    }
    Ok(())
}

/// Whether the `v` field equals the spec version token.
fn check_version(v: &String) -> (r: bool)
    ensures
        r == (encode_utf8(v@) == spec_version_bytes()),
{
    proof {
        lemma_token_literal_bytes();
    }
    bytes_eq(v.as_str().as_bytes(), "aid1".as_bytes())
}

/// Whether the `desc` field fits in 60 UTF-8 bytes.
fn check_desc(d: &String) -> (r: bool)
    ensures
        r == (encode_utf8(d@).len() <= 60),
{
    d.as_str().as_bytes().len() <= 60
}

/// Whether the `docs` field is an absolute https URL with a host separator.
fn check_docs(d: &String) -> (r: bool)
    ensures
        r == docs_ok(encode_utf8(d@)),
{
    proof {
        lemma_token_literal_bytes();
    }
    let db = d.as_str().as_bytes();
    if !starts_with_bytes(db, "https://".as_bytes()) {
        return false;
    }
    let slash = find_byte(db, 8, db.len(), 47);
    let colon = find_byte(db, 8, db.len(), 58);
    if slash == db.len() && colon == db.len() {
        proof {
            assert(forall|j: int| 8 <= j < db@.len() ==> db@[j] != 47 && db@[j] != 58);
        }
        return false;
    }
    proof {
        if slash < db.len() {
            assert(db@[slash as int] == 47);
        } else {
            assert(db@[colon as int] == 58);
        }
    }
    true
}

/// Whether the `dep` field ends with the literal `Z`.
fn check_dep(d: &String) -> (r: bool)
    ensures
        r == (encode_utf8(d@).len() > 0 && encode_utf8(d@).last() == 90),
{
    let db = d.as_str().as_bytes();
    db.len() > 0 && db[db.len() - 1] == 90
}

/// Whether the URI satisfies the scheme its protocol token requires.
fn check_uri_scheme(proto: &String, uri: &String) -> (r: bool)
    ensures
        r == uri_ok(encode_utf8(proto@), encode_utf8(uri@)),
{
    proof {
        lemma_token_literal_bytes();
    }
    let pb = proto.as_str().as_bytes();
    let ub = uri.as_str().as_bytes();
    if bytes_eq(pb, "local".as_bytes()) {
        true
    } else if bytes_eq(pb, "zeroconf".as_bytes()) {
        starts_with_bytes(ub, "zeroconf:".as_bytes())
    } else if bytes_eq(pb, "websocket".as_bytes()) {
        starts_with_bytes(ub, "wss://".as_bytes())
    } else {
        starts_with_bytes(ub, "https://".as_bytes())
    }
}

/// The required-field and value checks, mirroring `finalize`.
#[verifier::rlimit(60)]
fn finish(acc: Acc) -> (r: Result<AidRecord, AidError>)
    ensures
        ({
            let res = finalize(st_of_acc(acc));
            &&& (r is Ok <==> res is Ok)
            &&& (r is Ok ==> rec_models(r->Ok_0, res->Ok_0))
            &&& (r is Err ==> res is Err && r->Err_0.code == res->Err_0 && (res->Err_0
                == ERR_UNSUPPORTED_PROTO ==> r->Err_0.error_code@ == "ERR_UNSUPPORTED_PROTO"@) && (
            res->Err_0 == ERR_INVALID_TXT ==> r->Err_0.error_code@ == "ERR_INVALID_TXT"@))
        }),
{
    let ghost st = st_of_acc(acc);
    let v = match acc.v {
        Some(s) => s,
        None => {
            return Err(AidError::invalid_txt("Missing required field: v"));
        },
    };
    if !check_version(&v) {
        return Err(AidError::invalid_txt("Unsupported version"));
    }
    let uri = match acc.uri {
        Some(s) => s,
        None => {
            return Err(AidError::invalid_txt("Missing required field: uri"));
        },
    };
    if acc.proto.is_some() && acc.p.is_some() {
        return Err(AidError::invalid_txt("Cannot specify both \"proto\" and \"p\" fields"));
    }
    let proto_value = match acc.proto {
        Some(s) => s,
        None => match acc.p {
            Some(s) => s,
            None => {
                return Err(AidError::invalid_txt("Missing required field: proto (or p)"));
            },
        },
    };
    if !is_supported_proto(proto_value.as_str()) {
        return Err(AidError::unsupported_proto("Unsupported protocol"));
    }
    if let Some(a) = &acc.auth {
        if !is_supported_auth(a.as_str()) {
            return Err(AidError::invalid_txt("Invalid auth token"));
        }
    }
    if let Some(d) = &acc.desc {
        if !check_desc(d) {
            return Err(AidError::invalid_txt("Description field must be <= 60 UTF-8 bytes"));
        }
    }
    if let Some(d) = &acc.docs {
        if !check_docs(d) {
            return Err(AidError::invalid_txt("docs MUST be an absolute https:// URL"));
        }
    }
    if let Some(d) = &acc.dep {
        if !check_dep(d) {
            return Err(AidError::invalid_txt("dep MUST be an ISO 8601 UTC timestamp"));
        }
    }
    if !check_uri_scheme(&proto_value, &uri) {
        return Err(AidError::invalid_txt("Invalid URI scheme for protocol"));
    }
    Ok(
        AidRecord {
            v,
            uri,
            proto: proto_value,
            auth: acc.auth,
            desc: acc.desc,
            docs: acc.docs,
            dep: acc.dep,
            pka: acc.pka,
            kid: acc.kid,
        },
    )
}

/// Parses an AID record from its textual form.
///
/// The result is exactly `spec_parse` of the input bytes: on success every
/// field of the returned record realizes the model, and on failure the
/// error carries the model's numeric code with the matching symbolic code.
pub fn parse(txt: &str) -> (r: Result<AidRecord, AidError>)
    ensures
        (r is Ok <==> spec_parse(txt.spec_bytes()) is Ok),
        r matches Ok(rec) ==> rec_models(rec, spec_parse(txt.spec_bytes())->Ok_0),
        r matches Err(er) ==> {
            let c = spec_parse(txt.spec_bytes())->Err_0;
            &&& er.code == c
            &&& (c == ERR_UNSUPPORTED_PROTO ==> er.error_code@ == "ERR_UNSUPPORTED_PROTO"@)
            &&& (c == ERR_INVALID_TXT ==> er.error_code@ == "ERR_INVALID_TXT"@)
        },
{
    let ghost t = txt.spec_bytes();
    let bytes = txt.as_bytes();
    let n = bytes.len();
    let mut acc = Acc {
        v: None,
        uri: None,
        proto: None,
        p: None,
        auth: None,
        desc: None,
        docs: None,
        dep: None,
        pka: None,
        kid: None,
    };
    proof {
        assert(st_of_acc(acc) =~= empty_fields());
        assert(t.subrange(0, n as int) =~= t);
    }
    let mut pos: usize = 0;
    loop
        invariant_except_break
            run(empty_fields(), t) == run(st_of_acc(acc), t.subrange(pos as int, n as int)),
        invariant
            pos <= n,
            n == t.len(),
            t == txt.spec_bytes(),
            bytes@ == t,
        ensures
            run(empty_fields(), t) == Ok::<SpecFields, ()>(st_of_acc(acc)),
        decreases n - pos,
    {
        let e = find_byte(bytes, pos, n, 59);
        let ghost rest = t.subrange(pos as int, n as int);
        let ghost i = e - pos;
        proof {
            assert(i == find_from(rest, 0, 59));
            assert(rest.take(i) =~= t.subrange(pos as int, e as int));
        }
        let ghost st_before = st_of_acc(acc);
        match process_segment(txt, pos, e, &mut acc) {
            Ok(()) => {},
            Err(er) => {
                proof {
                    assert(step(st_before, rest.take(i)) is Err || (i == rest.len() && step(
                        st_before,
                        rest,
                    ) is Err));
                    assert(run(st_before, rest) is Err);
                    assert(spec_parse(t) == Err::<SpecRecord, u16>(ERR_INVALID_TXT));
                }
                return Err(er);
            },
        }
        if e == n {
            proof {
                assert(rest =~= rest.take(i));
                assert(run(st_before, rest) == step(st_before, rest));
                assert(run(empty_fields(), t) == Ok::<SpecFields, ()>(st_of_acc(acc)));
            }
            break ;
        }
        proof {
            assert(rest.skip(i + 1) =~= t.subrange(e + 1 as int, n as int));
            assert(run(st_before, rest) == run(st_of_acc(acc), rest.skip(i + 1)));
        }
        pos = e + 1;
    }
    finish(acc)
}

} // verus!

