//! The well-known canonicalizer: a pure function from the string fields of a
//! fetched JSON object to the canonical `key=value;…` text the parser
//! accepts.
//!
//! The caller (outside the library) turns the JSON object into a list of
//! string pairs; `canonicalize_to_txt` resolves aliases, drops empty or
//! whitespace-only values, and emits the fields in the fixed canonical
//! order. No validation happens here: the result is fed back to the parser.

use vstd::prelude::*;
use vstd::utf8::*;
use vstd::string::StringSliceAdditionalSpecFns;
use vstd::string::StringExecFns;
use crate::errors::AidError;
use crate::strutil::{
    ascii_seq, bytes_eq, is_ws, lemma_ascii_encode, lemma_boundary_after_ascii,
    lemma_boundary_at_ascii, lemma_encode_concat, lower_bytes, lower_copy, starts_with,
    starts_with_bytes, substr, trim_range, trim_spec,
};

verus! {

/// The guards a well-known response body must pass before it is read as
/// JSON: a JSON content type and at most 64 KiB of body.
pub open spec fn spec_well_known_guard(ct: Seq<u8>, body_len: int) -> bool {
    &&& starts_with(lower_bytes(ct), ascii_seq("application/json"@))
    &&& body_len <= 65536
}

/// Checks the content type (case-insensitively) and the body size of a
/// well-known response; every rejection is `ERR_FALLBACK_FAILED`.
pub fn check_well_known_response(content_type: &str, body_len: usize) -> (r: Result<(), AidError>)
    ensures
        (r is Ok <==> spec_well_known_guard(content_type.spec_bytes(), body_len as int)),
        (r matches Err(e) ==> e.error_code@ == "ERR_FALLBACK_FAILED"@),
{
    proof {
        reveal_strlit("application/json");
        lemma_ascii_encode("application/json"@);
    }
    let cb = content_type.as_bytes();
    let lc = lower_copy(cb, 0, cb.len());
    proof {
        assert(cb@.subrange(0, cb@.len() as int) =~= cb@);
    }
    if !starts_with_bytes(lc.as_slice(), "application/json".as_bytes()) {
        return Err(
            AidError::new(
                "ERR_FALLBACK_FAILED",
                "Invalid content-type for well-known (expected application/json)",
            ),
        );
    }
    if body_len > 65536 {
        return Err(AidError::new("ERR_FALLBACK_FAILED", "Well-known response too large (>64KB)"));
    }
    Ok(())
}

/// The value of the first pair whose key matches, if any.
pub open spec fn lookup_raw(pairs: Seq<(Seq<u8>, Seq<u8>)>, key: Seq<u8>) -> Option<Seq<u8>>
    decreases pairs.len(),
{
    if pairs.len() == 0 {
        None
    } else if pairs[0].0 == key {
        Some(pairs[0].1)
    } else {
        lookup_raw(pairs.drop_first(), key)
    }
}

/// A looked-up value, trimmed, with empty results dropped.
pub open spec fn get_clean_spec(pairs: Seq<(Seq<u8>, Seq<u8>)>, key: Seq<u8>) -> Option<Seq<u8>> {
    match lookup_raw(pairs, key) {
        None => None,
        Some(v) => {
            let t = trim_spec(v);
            if t.len() == 0 {
                None
            } else {
                Some(t)
            }
        },
    }
}

/// A semantic field: the long key, then its short alias.
pub open spec fn field_spec(pairs: Seq<(Seq<u8>, Seq<u8>)>, long: Seq<u8>, short: Seq<u8>) -> Option<
    Seq<u8>,
> {
    if get_clean_spec(pairs, long) is Some {
        get_clean_spec(pairs, long)
    } else {
        get_clean_spec(pairs, short)
    }
}

/// Appends one optional `key=value` part, preceded by `;` when something
/// already stands before it.
pub open spec fn append_part(cur: Seq<u8>, key: Seq<u8>, v: Option<Seq<u8>>) -> Seq<u8> {
    match v {
        None => cur,
        Some(val) => if cur.len() == 0 {
            key + seq![61u8] + val
        } else {
            cur + seq![59u8] + key + seq![61u8] + val
        },
    }
}

/// The canonical text the given pairs produce: fields in canonical order,
/// aliases resolved, empty values dropped.
pub open spec fn spec_canonicalize(pairs: Seq<(Seq<u8>, Seq<u8>)>) -> Seq<u8> {
    let c1 = append_part(Seq::empty(), ascii_seq("v"@), get_clean_spec(pairs, ascii_seq("v"@)));
    let c2 = append_part(c1, ascii_seq("uri"@), field_spec(pairs, ascii_seq("uri"@), ascii_seq("u"@)));
    let c3 = append_part(
        c2,
        ascii_seq("proto"@),
        field_spec(pairs, ascii_seq("proto"@), ascii_seq("p"@)),
    );
    let c4 = append_part(c3, ascii_seq("auth"@), field_spec(pairs, ascii_seq("auth"@), ascii_seq("a"@)));
    let c5 = append_part(c4, ascii_seq("desc"@), field_spec(pairs, ascii_seq("desc"@), ascii_seq("s"@)));
    let c6 = append_part(c5, ascii_seq("docs"@), field_spec(pairs, ascii_seq("docs"@), ascii_seq("d"@)));
    let c7 = append_part(c6, ascii_seq("dep"@), field_spec(pairs, ascii_seq("dep"@), ascii_seq("e"@)));
    let c8 = append_part(c7, ascii_seq("pka"@), field_spec(pairs, ascii_seq("pka"@), ascii_seq("k"@)));
    append_part(c8, ascii_seq("kid"@), field_spec(pairs, ascii_seq("kid"@), ascii_seq("i"@)))
}

/// The byte model of a list of owned string pairs.
pub open spec fn pairs_model(ps: Seq<(String, String)>) -> Seq<(Seq<u8>, Seq<u8>)> {
    ps.map_values(|p: (String, String)| (encode_utf8(p.0@), encode_utf8(p.1@)))
}

/// A UTF-8 encoding is empty exactly when the character sequence is.
proof fn lemma_encode_empty(s: Seq<char>)
    ensures
        (encode_utf8(s).len() == 0) == (s.len() == 0),
{
    if s.len() > 0 {
        encode_utf8_first_scalar(s);
        char_is_scalar(s[0]);
    }
}

/// Finds the trimmed value of the first pair whose key matches, dropping
/// values that trim to nothing.
fn get_clean(pairs: &Vec<(String, String)>, key: &str) -> (r: Option<String>)
    ensures
        ({
            let m = get_clean_spec(pairs_model(pairs@), key.spec_bytes());
            &&& (r is Some <==> m is Some)
            &&& (r matches Some(s) ==> m == Some(encode_utf8(s@)))
        }),
{
    let ghost pm = pairs_model(pairs@);
    proof {
        assert(pm.skip(0) =~= pm);
    }
    let n = pairs.len();
    let mut i: usize = 0;
    while i < n
        invariant
            0 <= i <= n == pairs@.len(),
            pm == pairs_model(pairs@),
            lookup_raw(pm, key.spec_bytes()) == lookup_raw(pm.skip(i as int), key.spec_bytes()),
        decreases n - i,
    {
        proof {
            assert(pm.skip(i as int)[0] == pm[i as int]);
            assert(pm.skip(i as int).drop_first() =~= pm.skip(i + 1));
        }
        if bytes_eq(pairs[i].0.as_str().as_bytes(), key.as_bytes()) {
            let value = &pairs[i].1;
            let ghost vb = encode_utf8(value@);
            proof {
                assert(lookup_raw(pm, key.spec_bytes()) == Some(vb));
                broadcast use group_utf8_lib;

                assert(valid_utf8(vb));
            }
            let bytes = value.as_str().as_bytes();
            let (a, z) = trim_range(bytes, 0, bytes.len());
            proof {
                assert(vb.subrange(0, vb.len() as int) =~= vb);
            }
            if a == z {
                proof {
                    assert(trim_spec(vb).len() == 0);
                }
                return None;
            }
            proof {
                if a == 0 {
                    lemma_boundary_at_ascii(vb, 0);
                } else {
                    assert(is_ws(vb[a - 1]));
                    lemma_boundary_after_ascii(vb, a as int);
                }
                if (z as int) < vb.len() {
                    assert(is_ws(vb[z as int]));
                }
                lemma_boundary_at_ascii(vb, z as int);
            }
            let t = substr(value.as_str(), a, z);
            proof {
                assert(encode_utf8(t@) == trim_spec(vb));
            }
            return Some(t);
        }
        i = i + 1;
    }
    proof {
        assert(pm.skip(n as int) =~= Seq::<(Seq<u8>, Seq<u8>)>::empty());
    }
    None
}

/// One semantic field: the long key first, then the short alias.
fn field_of(pairs: &Vec<(String, String)>, long: &str, short: &str) -> (r: Option<String>)
    ensures
        ({
            let m = field_spec(pairs_model(pairs@), long.spec_bytes(), short.spec_bytes());
            &&& (r is Some <==> m is Some)
            &&& (r matches Some(s) ==> m == Some(encode_utf8(s@)))
        }),
{
    match get_clean(pairs, long) {
        Some(v) => Some(v),
        None => get_clean(pairs, short),
    }
}

/// Appends one optional part to the text under construction, mirroring
/// `append_part`.
fn push_part(out: &mut String, key: &str, v: Option<String>)
    ensures
        encode_utf8(final(out)@) == append_part(
            encode_utf8(old(out)@),
            key.spec_bytes(),
            match v {
                Option::None => None,
                Option::Some(s) => Some(encode_utf8(s@)),
            },
        ),
{
    let val = match v {
        Some(s) => s,
        None => {
            return ;
        },
    };
    let ghost cur = encode_utf8(old(out)@);
    proof {
        lemma_encode_empty(old(out)@);
    }
    if out.as_str().is_empty() {
        proof {
            assert(cur.len() == 0);
        }
        out.append(key);
        out.append("=");
        out.append(val.as_str());
        proof {
            reveal_strlit("=");
            lemma_encode_concat(old(out)@ + key@, "="@);
            lemma_encode_concat(old(out)@, key@);
            lemma_encode_concat(old(out)@ + key@ + "="@, val@);
            assert(encode_utf8("="@) =~= seq![61u8]) by {
                crate::strutil::lemma_ascii_encode("="@);
            }
            assert(encode_utf8(old(out)@) + encode_utf8(key@) =~= encode_utf8(key@));
            assert(encode_utf8(out@) =~= key.spec_bytes() + seq![61u8] + encode_utf8(val@));
        }
    } else {
        proof {
            assert(cur.len() != 0);
        }
        out.append(";");
        out.append(key);
        out.append("=");
        out.append(val.as_str());
        proof {
            reveal_strlit(";");
            reveal_strlit("=");
            lemma_encode_concat(old(out)@, ";"@);
            lemma_encode_concat(old(out)@ + ";"@, key@);
            lemma_encode_concat(old(out)@ + ";"@ + key@, "="@);
            lemma_encode_concat(old(out)@ + ";"@ + key@ + "="@, val@);
            assert(encode_utf8(";"@) =~= seq![59u8]) by {
                crate::strutil::lemma_ascii_encode(";"@);
            }
            assert(encode_utf8("="@) =~= seq![61u8]) by {
                crate::strutil::lemma_ascii_encode("="@);
            }
            assert(encode_utf8(out@) =~= cur + seq![59u8] + key.spec_bytes() + seq![61u8]
                + encode_utf8(val@));
        }
    }
}

/// Emits the canonical `key=value;…` text for the given string pairs: the
/// nine fields in canonical order, long names in the output, aliases
/// resolved, empty and whitespace-only values dropped.
pub fn canonicalize_to_txt(pairs: &Vec<(String, String)>) -> (r: String)
    ensures
        encode_utf8(r@) == spec_canonicalize(pairs_model(pairs@)),
{
    proof {
        crate::parser::lemma_key_literal_bytes();
    }
    let mut out = String::new();
    let f_v = get_clean(pairs, "v");
    push_part(&mut out, "v", f_v);
    let f_uri = field_of(pairs, "uri", "u");
    push_part(&mut out, "uri", f_uri);
    let f_proto = field_of(pairs, "proto", "p");
    push_part(&mut out, "proto", f_proto);
    let f_auth = field_of(pairs, "auth", "a");
    push_part(&mut out, "auth", f_auth);
    let f_desc = field_of(pairs, "desc", "s");
    push_part(&mut out, "desc", f_desc);
    let f_docs = field_of(pairs, "docs", "d");
    push_part(&mut out, "docs", f_docs);
    let f_dep = field_of(pairs, "dep", "e");
    push_part(&mut out, "dep", f_dep);
    let f_pka = field_of(pairs, "pka", "k");
    push_part(&mut out, "pka", f_pka);
    let f_kid = field_of(pairs, "kid", "i");
    push_part(&mut out, "kid", f_kid);
    out
}

} // verus!
