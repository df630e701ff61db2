//! The PKA handshake verifier: given the response headers of the signed
//! handshake, it reconstructs the HTTP Message Signatures base, enforces
//! freshness and key binding, and verifies the ed25519 signature against the
//! key the record advertised.
//!
//! Everything here is pure: the caller performs the single HTTP request and
//! hands in the header values, the challenge and date it sent, and the
//! current unix time. The cryptographic and date primitives of outside
//! crates stand behind trusted wrappers; all parsing and gating logic is
//! verified against the model functions in this module.

use vstd::prelude::*;
use vstd::utf8::*;
use vstd::string::StringSliceAdditionalSpecFns;
use vstd::string::StringExecFns;
use crate::constants::ERR_SECURITY;
use crate::errors::AidError;
use crate::strutil::{
    ascii_seq, bytes_eq, find_byte, find_from, find_sub, find_sub_bytes,
    lemma_boundary_after_ascii,
    lower_bytes, qtrim_range, qtrim_spec, starts_with, starts_with_bytes,
    substr, trim_range, trim_spec,
};

verus! {

/// What `bs58` decodes the given characters to, when they are valid
/// base58btc.
pub uninterp spec fn base58_decoding(s: Seq<char>) -> Option<Seq<u8>>;

/// Relies on `bs58::decode(..).into_vec()`: base58btc decoding, a function
/// of the input characters alone; the crate reports an error exactly for
/// inputs that are not valid base58btc.
#[verifier::external_body]
fn bs58_decode(s: &str) -> (r: Option<Vec<u8>>)
    ensures
        (r is Some <==> base58_decoding(s@) is Some),
        (r matches Some(v) ==> base58_decoding(s@) == Some(v@)),
{
    match bs58::decode(s).into_vec() {
        Ok(v) => Some(v),
        Err(_) => None,
    }
}

/// What base64 (standard alphabet, padded) decodes the given characters to,
/// when they are well-formed.
pub uninterp spec fn base64_decoding(s: Seq<char>) -> Option<Seq<u8>>;

/// Relies on `base64`'s `STANDARD` engine: standard-alphabet base64
/// decoding, a function of the input characters alone; the crate reports an
/// error exactly for malformed input.
#[verifier::external_body]
fn b64_decode(s: &str) -> (r: Option<Vec<u8>>)
    ensures
        (r is Some <==> base64_decoding(s@) is Some),
        (r matches Some(v) ==> base64_decoding(s@) == Some(v@)),
{
    match base64::Engine::decode(&base64::engine::general_purpose::STANDARD, s) {
        Ok(v) => Some(v),
        Err(_) => None,
    }
}

/// Whether `sig` is a valid ed25519 signature over `msg` under the 32-byte
/// public key `pk`; false also when the key fails point decompression or
/// the signature is not 64 bytes long.
pub uninterp spec fn ed25519_verifies(pk: Seq<u8>, msg: Seq<u8>, sig: Seq<u8>) -> bool;

/// Relies on `ed25519_dalek::VerifyingKey::{from_bytes, verify}` and
/// `ed25519::Signature::from_slice`: signature verification is a function
/// of key, message and signature bytes alone.
#[verifier::external_body]
fn ed25519_verify(pk: &[u8], msg: &[u8], sig: &[u8]) -> (r: bool)
    requires
        pk@.len() == 32,
    ensures
        r == ed25519_verifies(pk@, msg@, sig@),
{
    let arr: [u8; 32] = match pk.try_into() {
        Ok(a) => a,
        Err(_) => return false,
    };
    let parsed = (ed25519_dalek::VerifyingKey::from_bytes(&arr), ed25519_dalek::Signature::from_slice(sig));
    match parsed {
        (Ok(vk), Ok(s)) => ed25519_dalek::Verifier::verify(&vk, msg, &s).is_ok(),
        _ => false,
    }
}

/// The unix time an RFC 7231 date names, when the text parses and does not
/// precede the epoch.
pub uninterp spec fn http_date_epoch(s: Seq<char>) -> Option<u64>;

/// Relies on `httpdate::parse_http_date`: RFC 7231 date parsing, a function
/// of the input characters alone. `None` when the text does not parse, and
/// for the parse results the crate could produce before the unix epoch.
#[verifier::external_body]
fn parse_http_date_secs(s: &str) -> (r: Option<u64>)
    ensures
        r == http_date_epoch(s@),
{
    match httpdate::parse_http_date(s) {
        Ok(t) => match t.duration_since(std::time::UNIX_EPOCH) {
            Ok(d) => Some(d.as_secs()),
            Err(_) => None,
        },
        Err(_) => None,
    }
}

/// The multibase decoding the record's `pka` field must satisfy: a literal
/// `z` followed by base58btc.
pub open spec fn spec_multibase(s: Seq<char>) -> Option<Seq<u8>> {
    if s.len() == 0 {
        None
    } else if s[0] != 'z' {
        None
    } else {
        base58_decoding(s.skip(1))
    }
}

/// Decodes a multibase-encoded key: the `z` prefix (base58btc) is the only
/// accepted one.
pub fn multibase_decode(input: &str) -> (r: Result<Vec<u8>, AidError>)
    ensures
        (r is Ok <==> spec_multibase(input@) is Some),
        (r matches Ok(v) ==> spec_multibase(input@) == Some(v@)),
        (r matches Err(e) ==> e.code == ERR_SECURITY && e.error_code@ == "ERR_SECURITY"@),
{
    if input.is_empty() {
        return Err(AidError::security("Empty PKA"));
    }
    let bytes = input.as_bytes();
    let ghost s = input@;
    let ghost enc = input.spec_bytes();
    proof {
        broadcast use group_utf8_lib;

        encode_utf8_first_scalar(s);
        char_is_scalar(s[0]);
        assert('z' as u32 == 122);
        assert(122u32 & 0x7F == 122u32) by (bit_vector);
        assert(122u8 & 0x7F == 122u8) by (bit_vector);
        // the first byte is `z` exactly when the first character is
        if s[0] == 'z' {
            assert(has_width_1_encoding(s[0] as u32));
            assert(encode_scalar(s[0] as u32) =~= seq![122u8]);
            assert(enc == encode_scalar(s[0] as u32) + encode_utf8(s.drop_first()));
            assert(enc[0] == 122);
        }
        if enc[0] == 122 {
            assert(is_leading_byte_width_1(enc[0]));
            assert(decode_first_codepoint(enc) == codepoint_width_1(enc[0]));
            assert(codepoint_width_1(122u8) == 122u32);
            assert(s[0] as u32 == 122);
            char_u32_cast(s[0], 122);
            char_u32_cast('z', 122);
            assert(s[0] == 'z');
        }
    }
    if bytes[0] != 122 {
        return Err(AidError::security("Unsupported multibase prefix"));
    }
    proof {
        broadcast use group_utf8_lib;

        lemma_boundary_after_ascii(enc, 1);
    }
    let (_, rest) = input.split_at(1);
    proof {
        broadcast use group_utf8_lib;

        valid_utf8_split(enc, 1);
        decode_utf8_split(enc, 1);
        let head = enc.subrange(0, 1);
        assert(head =~= seq![122u8]);
        assert(valid_first_scalar(head));
        assert(length_of_first_scalar(head) == 1);
        assert(pop_first_scalar(head) =~= Seq::<u8>::empty());
        assert(decode_utf8(head) =~= seq!['z']);
        assert(rest.spec_bytes() == enc.subrange(1, enc.len() as int));
        assert(decode_utf8(rest.spec_bytes()) == rest@);
        assert(s == seq!['z'] + rest@);
        assert(rest@ =~= s.skip(1));
    }
    match bs58_decode(rest) {
        Some(v) => Ok(v),
        None => Err(AidError::security("Invalid base58")),
    }
}

/// Whether every byte is an ASCII digit.
pub open spec fn all_digits(s: Seq<u8>) -> bool {
    forall|i: int| 0 <= i < s.len() ==> 48 <= #[trigger] s[i] <= 57
}

/// The integer the digit string names, most significant digit first.
pub open spec fn digits_val(s: Seq<u8>) -> int
    decreases s.len(),
{
    if s.len() == 0 {
        0
    } else {
        digits_val(s.drop_last()) * 10 + (s.last() - 48)
    }
}

/// Signed decimal parsing as `i64::from_str` behaves: an optional sign,
/// one or more digits, no other characters, and the value within range.
pub open spec fn spec_parse_i64(s: Seq<u8>) -> Option<i64> {
    let neg = s.len() > 0 && s[0] == 45;
    let ds = if s.len() > 0 && (s[0] == 43 || s[0] == 45) {
        s.skip(1)
    } else {
        s
    };
    if ds.len() == 0 || !all_digits(ds) {
        None
    } else {
        let v = if neg {
            -digits_val(ds)
        } else {
            digits_val(ds)
        };
        if i64::MIN <= v <= i64::MAX {
            Some(v as i64)
        } else {
            None
        }
    }
}

/// The value of a digit string never goes down as digits are appended.
proof fn lemma_digits_val_bounds(s: Seq<u8>, k: int)
    requires
        all_digits(s),
        0 <= k <= s.len(),
    ensures
        0 <= digits_val(s.take(k)) <= digits_val(s),
    decreases s.len() - k,
{
    if k == s.len() {
        assert(s.take(k) =~= s);
        lemma_digits_val_nonneg(s);
    } else {
        lemma_digits_val_bounds(s, k + 1);
        assert(s.take(k + 1).drop_last() =~= s.take(k));
        assert(digits_val(s.take(k + 1)) == digits_val(s.take(k)) * 10 + (s[k] - 48));
        lemma_digits_val_nonneg(s.take(k));
    }
}

/// Digit strings name nonnegative values.
proof fn lemma_digits_val_nonneg(s: Seq<u8>)
    requires
        all_digits(s),
    ensures
        digits_val(s) >= 0,
    decreases s.len(),
{
    if s.len() > 0 {
        assert(all_digits(s.drop_last())) by {
            assert(forall|i: int| 0 <= i < s.len() - 1 ==> s.drop_last()[i] == s[i]);
        }
        lemma_digits_val_nonneg(s.drop_last());
    }
}

/// Parses `bytes[start..end]` as a signed decimal integer, exactly as
/// `spec_parse_i64` describes.
#[verifier::loop_isolation(false)]
fn parse_i64_range(bytes: &[u8], start: usize, end: usize) -> (r: Option<i64>)
    requires
        start <= end <= bytes@.len(),
    ensures
        r == spec_parse_i64(bytes@.subrange(start as int, end as int)),
{
    let ghost s = bytes@.subrange(start as int, end as int);
    if start == end {
        return None;
    }
    let first = bytes[start];
    proof {
        assert(s[0] == bytes@[start as int]);
    }
    let neg = first == 45;
    let dstart: usize = if first == 43 || first == 45 {
        start + 1
    } else {
        start
    };
    let ghost ds = if first == 43 || first == 45 {
        s.skip(1)
    } else {
        s
    };
    proof {
        assert(ds =~= bytes@.subrange(dstart as int, end as int));
    }
    if dstart == end {
        return None;
    }
    let mut acc: u64 = 0;
    let mut i: usize = dstart;
    while i < end
        invariant
            dstart <= i <= end <= bytes@.len(),
            ds == bytes@.subrange(dstart as int, end as int),
            forall|m: int| 0 <= m < i - dstart ==> 48 <= #[trigger] ds[m] <= 57,
            acc == digits_val(ds.take(i - dstart)),
        decreases end - i,
    {
        let b = bytes[i];
        proof {
            assert(ds[i - dstart] == bytes@[i as int]);
        }
        if b < 48 || b > 57 {
            proof {
                assert(!all_digits(ds));
            }
            return None;
        }
        let d: u64 = (b - 48) as u64;
        if acc > (u64::MAX - d) / 10 {
            // the value is already past any i64: if the rest are digits the
            // magnitude only grows, and if not the parse fails anyway
            proof {
                if all_digits(ds) {
                    assert(acc * 10 + d > u64::MAX) by (nonlinear_arith)
                        requires
                            acc > (u64::MAX - d) / 10,
                            0 <= d <= 9,
                    ;
                    assert(ds.take(i - dstart + 1).drop_last() =~= ds.take(i - dstart));
                    assert(digits_val(ds.take(i - dstart + 1)) == acc * 10 + (ds[i - dstart]
                        - 48));
                    lemma_digits_val_bounds(ds, i - dstart + 1);
                    assert(digits_val(ds) > u64::MAX);
                }
            }
            return None;
        }
        proof {
            assert(acc * 10 + d <= u64::MAX) by (nonlinear_arith)
                requires
                    acc <= (u64::MAX - d) / 10,
                    0 <= d <= 9,
            ;
            assert(ds.take(i - dstart + 1).drop_last() =~= ds.take(i - dstart));
        }
        acc = acc * 10 + d;
        i = i + 1;
    }
    proof {
        assert(ds.take(end - dstart) =~= ds);
        assert(all_digits(ds));
        assert(acc == digits_val(ds));
    }
    if neg {
        if acc <= 9223372036854775807u64 {
            Some(-(acc as i64))
        } else if acc == 9223372036854775808u64 {
            Some(i64::MIN)
        } else {
            None
        }
    } else {
        if acc <= 9223372036854775807u64 {
            Some(acc as i64)
        } else {
            None
        }
    }
}

/// The decimal digits of a nonnegative integer, most significant first.
pub open spec fn dec_u64(n: int) -> Seq<u8>
    decreases n,
{
    if n < 10 {
        seq![(48 + if n >= 0 { n } else { 0 }) as u8]
    } else {
        dec_u64(n / 10) + seq![(48 + n % 10) as u8]
    }
}

/// The decimal form of a signed integer.
pub open spec fn dec_i64(n: int) -> Seq<u8> {
    if n >= 0 {
        dec_u64(n)
    } else {
        seq![45u8] + dec_u64(-n)
    }
}

/// The one-character string of a decimal digit.
fn digit_str(d: u64) -> (r: &'static str)
    requires
        d < 10,
    ensures
        r@.len() == 1,
        encode_utf8(r@) == seq![(48 + d) as u8],
{
    proof {
        reveal_strlit("0");
        reveal_strlit("1");
        reveal_strlit("2");
        reveal_strlit("3");
        reveal_strlit("4");
        reveal_strlit("5");
        reveal_strlit("6");
        reveal_strlit("7");
        reveal_strlit("8");
        reveal_strlit("9");
        crate::strutil::lemma_ascii_encode("0"@);
        crate::strutil::lemma_ascii_encode("1"@);
        crate::strutil::lemma_ascii_encode("2"@);
        crate::strutil::lemma_ascii_encode("3"@);
        crate::strutil::lemma_ascii_encode("4"@);
        crate::strutil::lemma_ascii_encode("5"@);
        crate::strutil::lemma_ascii_encode("6"@);
        crate::strutil::lemma_ascii_encode("7"@);
        crate::strutil::lemma_ascii_encode("8"@);
        crate::strutil::lemma_ascii_encode("9"@);
        assert(ascii_seq("0"@) =~= seq![48u8]);
        assert(ascii_seq("1"@) =~= seq![49u8]);
        assert(ascii_seq("2"@) =~= seq![50u8]);
        assert(ascii_seq("3"@) =~= seq![51u8]);
        assert(ascii_seq("4"@) =~= seq![52u8]);
        assert(ascii_seq("5"@) =~= seq![53u8]);
        assert(ascii_seq("6"@) =~= seq![54u8]);
        assert(ascii_seq("7"@) =~= seq![55u8]);
        assert(ascii_seq("8"@) =~= seq![56u8]);
        assert(ascii_seq("9"@) =~= seq![57u8]);
    }
    if d == 0 {
        "0"
    } else if d == 1 {
        "1"
    } else if d == 2 {
        "2"
    } else if d == 3 {
        "3"
    } else if d == 4 {
        "4"
    } else if d == 5 {
        "5"
    } else if d == 6 {
        "6"
    } else if d == 7 {
        "7"
    } else if d == 8 {
        "8"
    } else {
        "9"
    }
}

/// Appends the decimal form of `n` to the string under construction.
fn push_u64_dec(out: &mut String, n: u64)
    ensures
        encode_utf8(final(out)@) == encode_utf8(old(out)@) + dec_u64(n as int),
    decreases n,
{
    if n < 10 {
        let d = digit_str(n);
        out.append(d);
        proof {
            crate::strutil::lemma_encode_concat(old(out)@, d@);
        }
    } else {
        push_u64_dec(out, n / 10);
        let ghost mid = out@;
        let d = digit_str(n % 10);
        out.append(d);
        proof {
            crate::strutil::lemma_encode_concat(mid, d@);
            assert(encode_utf8(out@) =~= encode_utf8(old(out)@) + dec_u64(n as int));
        }
    }
}

/// Appends the signed decimal form of `n`.
fn push_i64_dec(out: &mut String, n: i64)
    ensures
        encode_utf8(final(out)@) == encode_utf8(old(out)@) + dec_i64(n as int),
{
    if n >= 0 {
        push_u64_dec(out, n as u64);
    } else {
        out.append("-");
        let ghost mid = out@;
        proof {
            reveal_strlit("-");
            crate::strutil::lemma_ascii_encode("-"@);
            crate::strutil::lemma_encode_concat(old(out)@, "-"@);
            assert(ascii_seq("-"@) =~= seq![45u8]);
        }
        let mag: u64 = if n == i64::MIN {
            9223372036854775808u64
        } else {
            (-n) as u64
        };
        push_u64_dec(out, mag);
        proof {
            assert(encode_utf8(out@) =~= encode_utf8(old(out)@) + dec_i64(n as int));
        }
    }
}

/// The quoted component names inside the parenthesized list, scanning for
/// `"`-delimited pieces from `from`; a missing closing quote ends the scan.
pub open spec fn scan_quoted_from(s: Seq<u8>, from: int) -> Seq<Seq<u8>>
    decreases s.len() - from,
    via scan_quoted_decreases
{
    if from < 0 || from > s.len() {
        seq![]
    } else {
        let i = find_from(s, from, 34);
        if i == s.len() {
            seq![]
        } else {
            let j = find_from(s, i + 1, 34);
            if j == s.len() {
                seq![]
            } else {
                seq![s.subrange(i + 1, j)] + scan_quoted_from(s, j + 1)
            }
        }
    }
}

#[via_fn]
proof fn scan_quoted_decreases(s: Seq<u8>, from: int) {
    if 0 <= from <= s.len() {
        crate::strutil::lemma_find_from_props(s, from, 34);
        let i = find_from(s, from, 34);
        if i < s.len() {
            crate::strutil::lemma_find_from_props(s, i + 1, 34);
        }
    }
}

/// Whether one covered component, lowercased, is among the five the
/// handshake requires.
pub open spec fn covered_item_ok(c: Seq<u8>) -> bool {
    let l = lower_bytes(c);
    ||| l == ascii_seq("aid-challenge"@)
    ||| l == ascii_seq("@method"@)
    ||| l == ascii_seq("@target-uri"@)
    ||| l == ascii_seq("host"@)
    ||| l == ascii_seq("date"@)
}

/// Whether some covered component lowercases to `x`.
pub open spec fn covered_contains(cs: Seq<Seq<u8>>, x: Seq<u8>) -> bool {
    exists|i: int| 0 <= i < cs.len() && lower_bytes(#[trigger] cs[i]) == x
}

/// The strict covered-set equality: every component is required, and every
/// required component is covered.
pub open spec fn covered_set_ok(cs: Seq<Seq<u8>>) -> bool {
    &&& forall|i: int| 0 <= i < cs.len() ==> covered_item_ok(#[trigger] cs[i])
    &&& covered_contains(cs, ascii_seq("aid-challenge"@))
    &&& covered_contains(cs, ascii_seq("@method"@))
    &&& covered_contains(cs, ascii_seq("@target-uri"@))
    &&& covered_contains(cs, ascii_seq("host"@))
    &&& covered_contains(cs, ascii_seq("date"@))
}

/// The signature parameters as the fold over `;`-separated parts leaves
/// them; later occurrences overwrite earlier ones. `created` records
/// presence apart from its value: whether the timestamp is fresh is judged
/// by the freshness gate, not here.
pub struct SpecParams {
    pub created: Option<i64>,
    pub keyid: Seq<u8>,
    pub alg: Seq<u8>,
}

/// Reads one `;`-separated part: a case-insensitive `created=`, `keyid=` or
/// `alg=` prefix selects the parameter, anything else is ignored.
pub open spec fn params_step(p: SpecParams, part_raw: Seq<u8>) -> SpecParams {
    let part = trim_spec(part_raw);
    let lp = lower_bytes(part);
    if starts_with(lp, ascii_seq("created="@)) {
        match spec_parse_i64(part.skip(8)) {
            Some(c) => SpecParams { created: Some(c), ..p },
            None => p,
        }
    } else if starts_with(lp, ascii_seq("keyid="@)) {
        SpecParams { keyid: trim_spec(part.skip(6)), ..p }
    } else if starts_with(lp, ascii_seq("alg="@)) {
        SpecParams { alg: qtrim_spec(trim_spec(part.skip(4))), ..p }
    } else {
        p
    }
}

/// Folds `params_step` over the `;`-separated parts of the header.
pub open spec fn params_run(p: SpecParams, s: Seq<u8>) -> SpecParams
    decreases s.len(),
    via params_run_decreases
{
    let i = find_from(s, 0, 59);
    if i == s.len() {
        params_step(p, s)
    } else {
        params_run(params_step(p, s.take(i)), s.skip(i + 1))
    }
}

#[via_fn]
proof fn params_run_decreases(p: SpecParams, s: Seq<u8>) {
    crate::strutil::lemma_find_from_bounds(s, 0, 59);
}

/// The model of successfully parsed signature headers.
#[verifier::ext_equal]
pub struct SpecSigInfo {
    pub covered: Seq<Seq<u8>>,
    pub created: i64,
    pub keyid: Seq<u8>,
    pub alg: Seq<u8>,
    pub signature: Seq<u8>,
}

/// Parses the `Signature-Input` and `Signature` headers: the covered
/// component list after `sig=(`, the strict covered-set check, the three
/// required parameters (`created` must be present and integral; its value
/// is judged later by the freshness gate), and the base64 signature between
/// colons after `sig=`.
pub open spec fn spec_parse_sig_headers(si: Seq<u8>, sg: Seq<u8>) -> Option<SpecSigInfo> {
    let p = find_sub(si, ascii_seq("sig=("@), 0);
    if p == si.len() {
        None
    } else {
        let close = find_from(si, p + 5, 41);
        if close == si.len() {
            None
        } else {
            let covered = scan_quoted_from(si.subrange(p + 5, close), 0);
            if covered.len() == 0 || !covered_set_ok(covered) {
                None
            } else {
                let prm = params_run(
                    SpecParams { created: None, keyid: Seq::empty(), alg: Seq::empty() },
                    si,
                );
                if prm.created is None || prm.keyid.len() == 0 || prm.alg.len() == 0 {
                    None
                } else {
                    let q = find_sub(lower_bytes(sg), ascii_seq("sig="@), 0);
                    if q == sg.len() {
                        None
                    } else if q + 4 >= sg.len() || sg[q + 4] != 58 {
                        None
                    } else {
                        let e = find_from(sg, q + 5, 58);
                        if e == sg.len() {
                            None
                        } else {
                            match base64_decoding(decode_utf8(sg.subrange(q + 5, e))) {
                                None => None,
                                Some(sigbytes) => Some(
                                    SpecSigInfo {
                                        covered,
                                        created: prm.created->0,
                                        keyid: prm.keyid,
                                        alg: prm.alg,
                                        signature: sigbytes,
                                    },
                                ),
                            }
                        }
                    }
                }
            }
        }
    }
}

/// The parsed signature headers handed to the gates.
pub struct SigInfo {
    pub covered: Vec<String>,
    pub created: i64,
    pub keyid: String,
    pub alg: String,
    pub signature: Vec<u8>,
}

/// How an owned component list realizes its model.
pub open spec fn covered_models(cs: Seq<String>, m: Seq<Seq<u8>>) -> bool {
    cs.len() == m.len() && forall|i: int| 0 <= i < cs.len() ==> encode_utf8(#[trigger] cs[i]@)
        == m[i]
}

/// How a parsed header value realizes its model.
pub open spec fn info_models(info: SigInfo, m: SpecSigInfo) -> bool {
    &&& covered_models(info.covered@, m.covered)
    &&& info.created == m.created
    &&& encode_utf8(info.keyid@) == m.keyid
    &&& encode_utf8(info.alg@) == m.alg
    &&& info.signature@ == m.signature
}

/// The ASCII encodings of the parsing literals.
proof fn lemma_pka_literals()
    ensures
        encode_utf8("sig=("@) == ascii_seq("sig=("@) && "sig=("@.len() == 5,
        encode_utf8("sig="@) == ascii_seq("sig="@) && "sig="@.len() == 4,
        encode_utf8("created="@) == ascii_seq("created="@) && "created="@.len() == 8,
        encode_utf8("keyid="@) == ascii_seq("keyid="@) && "keyid="@.len() == 6,
        encode_utf8("alg="@) == ascii_seq("alg="@) && "alg="@.len() == 4,
        encode_utf8("aid-challenge"@) == ascii_seq("aid-challenge"@),
        encode_utf8("@method"@) == ascii_seq("@method"@),
        encode_utf8("@target-uri"@) == ascii_seq("@target-uri"@),
        encode_utf8("host"@) == ascii_seq("host"@),
        encode_utf8("date"@) == ascii_seq("date"@),
        encode_utf8("ed25519"@) == ascii_seq("ed25519"@),
        "aid-challenge"@.len() == 13,
        "@method"@.len() == 7,
        "@target-uri"@.len() == 11,
        "host"@.len() == 4,
        "date"@.len() == 4,
        "ed25519"@.len() == 7,
        ascii_seq("host"@)[0] == 104,
        ascii_seq("date"@)[0] == 100,
        ascii_seq("ed25519"@)[0] == 101,
        ascii_seq("@method"@)[0] == 64,
        ascii_seq("created="@)[7] == 61,
        ascii_seq("keyid="@)[5] == 61,
        ascii_seq("alg="@)[3] == 61,
{
    reveal_strlit("sig=(");
    reveal_strlit("sig=");
    reveal_strlit("created=");
    reveal_strlit("keyid=");
    reveal_strlit("alg=");
    reveal_strlit("aid-challenge");
    reveal_strlit("@method");
    reveal_strlit("@target-uri");
    reveal_strlit("host");
    reveal_strlit("date");
    reveal_strlit("ed25519");
    crate::strutil::lemma_ascii_encode("sig=("@);
    crate::strutil::lemma_ascii_encode("sig="@);
    crate::strutil::lemma_ascii_encode("created="@);
    crate::strutil::lemma_ascii_encode("keyid="@);
    crate::strutil::lemma_ascii_encode("alg="@);
    crate::strutil::lemma_ascii_encode("aid-challenge"@);
    crate::strutil::lemma_ascii_encode("@method"@);
    crate::strutil::lemma_ascii_encode("@target-uri"@);
    crate::strutil::lemma_ascii_encode("host"@);
    crate::strutil::lemma_ascii_encode("date"@);
    crate::strutil::lemma_ascii_encode("ed25519"@);
}

/// ASCII lowercasing leaves `=`, `:`, quotes and separators alone, and maps
/// only ASCII letters; a byte whose lowered form is ASCII was ASCII.
proof fn lemma_lower_ascii(s: Seq<u8>, i: int)
    requires
        0 <= i < s.len(),
    ensures
        lower_bytes(s).len() == s.len(),
        lower_bytes(s)[i] < 0x80 ==> s[i] < 0x80,
        lower_bytes(s)[i] == 58 ==> s[i] == 58,
        lower_bytes(s)[i] == 61 ==> s[i] == 61,
{
}

/// Scans the quoted component names in `txt[start..end]`, mirroring
/// `scan_quoted_from` on the subrange.
#[verifier::loop_isolation(false)]
fn scan_covered(txt: &str, start: usize, end: usize) -> (r: Vec<String>)
    requires
        start <= end <= txt.spec_bytes().len(),
    ensures
        ({
            let m = scan_quoted_from(txt.spec_bytes().subrange(start as int, end as int), 0);
            covered_models(r@, m)
        }),
{
    let ghost t = txt.spec_bytes();
    let ghost inside = t.subrange(start as int, end as int);
    proof {
        broadcast use group_utf8_lib;

        assert(valid_utf8(t));
    }
    let bytes = txt.as_bytes();
    let mut out: Vec<String> = Vec::new();
    let mut cur: usize = start;
    loop
        invariant
            start <= cur <= end,
            scan_quoted_from(inside, 0) == out@.map_values(|x: String| encode_utf8(x@))
                + scan_quoted_from(inside, cur - start),
            forall|k: int|
                0 <= k < out@.len() ==> encode_utf8(#[trigger] out@[k]@) == out@.map_values(
                    |x: String| encode_utf8(x@),
                )[k],
        decreases end - cur,
    {
        let i = find_byte(bytes, cur, end, 34);
        proof {
            crate::strutil::lemma_find_from_offset(inside, cur - start, 34);
            assert(inside.skip(cur - start) =~= bytes@.subrange(cur as int, end as int));
            assert(find_from(inside, cur - start, 34) == i - start);
        }
        if i == end {
            proof {
                assert(scan_quoted_from(inside, cur - start) =~= Seq::<Seq<u8>>::empty());
                assert(out@.map_values(|x: String| encode_utf8(x@)) + Seq::<Seq<u8>>::empty()
                    =~= out@.map_values(|x: String| encode_utf8(x@)));
            }
            break ;
        }
        let j = find_byte(bytes, i + 1, end, 34);
        proof {
            crate::strutil::lemma_find_from_offset(inside, i + 1 - start, 34);
            assert(inside.skip(i + 1 - start) =~= bytes@.subrange(i + 1 as int, end as int));
            assert(find_from(inside, i + 1 - start, 34) == j - start);
        }
        if j == end {
            proof {
                assert(scan_quoted_from(inside, cur - start) =~= Seq::<Seq<u8>>::empty());
                assert(out@.map_values(|x: String| encode_utf8(x@)) + Seq::<Seq<u8>>::empty()
                    =~= out@.map_values(|x: String| encode_utf8(x@)));
            }
            break ;
        }
        proof {
            lemma_boundary_after_ascii(t, i + 1 as int);
            crate::strutil::lemma_boundary_at_ascii(t, j as int);
        }
        let piece = substr(txt, i + 1, j);
        let ghost old_out = out@;
        out.push(piece);
        proof {
            assert(encode_utf8(piece@) == t.subrange(i + 1 as int, j as int));
            assert(inside.subrange(i + 1 - start, j - start) =~= t.subrange(
                i + 1 as int,
                j as int,
            ));
            assert(scan_quoted_from(inside, cur - start) == seq![
                inside.subrange(i + 1 - start, j - start),
            ] + scan_quoted_from(inside, j + 1 - start));
            assert(out@.map_values(|x: String| encode_utf8(x@)) =~= old_out.map_values(
                |x: String| encode_utf8(x@),
            ).push(encode_utf8(piece@)));
            assert(scan_quoted_from(inside, 0) =~= out@.map_values(|x: String| encode_utf8(x@))
                + scan_quoted_from(inside, j + 1 - start));
        }
        cur = j + 1;
    }
    proof {
        assert(covered_models(out@, scan_quoted_from(inside, 0)));
    }
    out
}

/// The strict set check over the parsed component list, mirroring
/// `covered_set_ok`.
#[verifier::loop_isolation(false)]
fn check_covered(covered: &Vec<String>) -> (r: bool)
    ensures
        r == covered_set_ok(covered@.map_values(|x: String| encode_utf8(x@))),
{
    proof {
        lemma_pka_literals();
    }
    let ghost m = covered@.map_values(|x: String| encode_utf8(x@));
    let mut has_challenge = false;
    let mut has_method = false;
    let mut has_target = false;
    let mut has_host = false;
    let mut has_date = false;
    let n = covered.len();
    let mut i: usize = 0;
    while i < n
        invariant
            0 <= i <= n == covered@.len(),
            m == covered@.map_values(|x: String| encode_utf8(x@)),
            forall|k: int| 0 <= k < i ==> covered_item_ok(#[trigger] m[k]),
            has_challenge == exists|k: int|
                0 <= k < i && lower_bytes(#[trigger] m[k]) == ascii_seq("aid-challenge"@),
            has_method == exists|k: int|
                0 <= k < i && lower_bytes(#[trigger] m[k]) == ascii_seq("@method"@),
            has_target == exists|k: int|
                0 <= k < i && lower_bytes(#[trigger] m[k]) == ascii_seq("@target-uri"@),
            has_host == exists|k: int|
                0 <= k < i && lower_bytes(#[trigger] m[k]) == ascii_seq("host"@),
            has_date == exists|k: int|
                0 <= k < i && lower_bytes(#[trigger] m[k]) == ascii_seq("date"@),
        decreases n - i,
    {
        let cb = covered[i].as_str().as_bytes();
        let lb = crate::strutil::lower_copy(cb, 0, cb.len());
        proof {
            assert(cb@.subrange(0, cb@.len() as int) =~= cb@);
            assert(lb@ == lower_bytes(m[i as int]));
        }
        if bytes_eq(lb.as_slice(), "aid-challenge".as_bytes()) {
            has_challenge = true;
        } else if bytes_eq(lb.as_slice(), "@method".as_bytes()) {
            has_method = true;
        } else if bytes_eq(lb.as_slice(), "@target-uri".as_bytes()) {
            has_target = true;
        } else if bytes_eq(lb.as_slice(), "host".as_bytes()) {
            has_host = true;
        } else if bytes_eq(lb.as_slice(), "date".as_bytes()) {
            has_date = true;
        } else {
            proof {
                assert(!covered_item_ok(m[i as int]));
            }
            return false;
        }
        i = i + 1;
    }
    has_challenge && has_method && has_target && has_host && has_date
}

/// Appends a string slice, tracked at the byte level.
fn push_str(out: &mut String, s: &str)
    ensures
        encode_utf8(final(out)@) == encode_utf8(old(out)@) + s.spec_bytes(),
{
    out.append(s);
    proof {
        crate::strutil::lemma_encode_concat(old(out)@, s@);
    }
}

/// Reads the `created`, `keyid` and `alg` parameters from the
/// `Signature-Input` header, mirroring `params_run` over the whole header.
#[verifier::rlimit(100)]
fn parse_params(txt: &str) -> (r: (Option<i64>, String, String))
    ensures
        ({
            let prm = params_run(
                SpecParams { created: None, keyid: Seq::empty(), alg: Seq::empty() },
                txt.spec_bytes(),
            );
            &&& r.0 == prm.created
            &&& encode_utf8(r.1@) == prm.keyid
            &&& encode_utf8(r.2@) == prm.alg
        }),
{
    let ghost t = txt.spec_bytes();
    proof {
        broadcast use group_utf8_lib;

        lemma_pka_literals();
        assert(valid_utf8(t));
        assert(encode_utf8(Seq::<char>::empty()) =~= Seq::<u8>::empty());
    }
    let bytes = txt.as_bytes();
    let n = bytes.len();
    let mut created: Option<i64> = None;
    let mut keyid: String = String::new();
    let mut alg: String = String::new();
    let ghost init = SpecParams { created: None, keyid: Seq::empty(), alg: Seq::empty() };
    let ghost mut gp = init;
    proof {
        assert(t.subrange(0, n as int) =~= t);
    }
    let mut pos: usize = 0;
    loop
        invariant_except_break
            params_run(init, t) == params_run(gp, t.subrange(pos as int, n as int)),
        invariant
            pos <= n,
            n == t.len(),
            t == txt.spec_bytes(),
            bytes@ == t,
            init == (SpecParams {
                created: None::<i64>,
                keyid: Seq::<u8>::empty(),
                alg: Seq::<u8>::empty(),
            }),
            gp.created == created,
            gp.keyid == encode_utf8(keyid@),
            gp.alg == encode_utf8(alg@),
        ensures
            params_run(init, t) == gp,
            gp.created == created,
            gp.keyid == encode_utf8(keyid@),
            gp.alg == encode_utf8(alg@),
        decreases n - pos,
    {
        let e = find_byte(bytes, pos, n, 59);
        let ghost rest = t.subrange(pos as int, n as int);
        let ghost raw_part = t.subrange(pos as int, e as int);
        proof {
            broadcast use group_utf8_lib;

            lemma_pka_literals();
            assert(valid_utf8(t));
            assert(e - pos == find_from(rest, 0, 59));
            assert(rest.take(e - pos) =~= raw_part);
        }
        let (a, z) = trim_range(bytes, pos, e);
        let ghost part = trim_spec(raw_part);
        proof {
            assert(t.subrange(a as int, z as int) == part);
        }
        let lp = crate::strutil::lower_copy(bytes, a, z);
        proof {
            assert(lp@ == lower_bytes(part));
        }
        let ghost gp0 = gp;
        if starts_with_bytes(lp.as_slice(), "created=".as_bytes()) {
            proof {
                assert(part.skip(8) =~= t.subrange(a + 8, z as int));
            }
            match parse_i64_range(bytes, a + 8, z) {
                Some(c) => {
                    created = Some(c);
                },
                None => {},
            }
        } else if starts_with_bytes(lp.as_slice(), "keyid=".as_bytes()) {
            proof {
                assert(part.skip(6) =~= t.subrange(a + 6, z as int));
                assert(trim_spec(part.skip(6)) == trim_spec(t.subrange(a + 6, z as int)));
            }
            let (ka, kz) = trim_range(bytes, a + 6, z);
            proof {
                assert(t.subrange(ka as int, kz as int) == trim_spec(part.skip(6)));
                lemma_lower_ascii(part, 5);
                assert(lower_bytes(part).take(6)[5] == lower_bytes(part)[5]);
                assert(lower_bytes(part)[5] == 61);
                assert(t[a + 5] == part[5]);
                assert(t[a + 5] == 61);
                if ka > a + 6 {
                    assert(crate::strutil::is_ws(t[ka - 1]));
                }
                lemma_boundary_after_ascii(t, ka as int);
                if (kz as int) < t.len() {
                    assert(t[kz as int] < 0x80) by {
                        if kz < z {
                            assert(crate::strutil::is_ws(t[kz as int]));
                        } else if z < e {
                            assert(crate::strutil::is_ws(t[z as int]));
                        } else {
                            assert(t[e as int] == 59);
                        }
                    }
                }
                crate::strutil::lemma_boundary_at_ascii(t, kz as int);
            }
            keyid = substr(txt, ka, kz);
        } else if starts_with_bytes(lp.as_slice(), "alg=".as_bytes()) {
            proof {
                assert(part.skip(4) =~= t.subrange(a + 4, z as int));
                assert(trim_spec(part.skip(4)) == trim_spec(t.subrange(a + 4, z as int)));
            }
            let (ta, tz) = trim_range(bytes, a + 4, z);
            proof {
                assert(t.subrange(ta as int, tz as int) == trim_spec(part.skip(4)));
            }
            let (qa, qz) = qtrim_range(bytes, ta, tz);
            proof {
                assert(t.subrange(qa as int, qz as int) == qtrim_spec(trim_spec(part.skip(4))));
                lemma_lower_ascii(part, 3);
                assert(lower_bytes(part).take(4)[3] == lower_bytes(part)[3]);
                assert(lower_bytes(part)[3] == 61);
                assert(t[a + 3] == 61);
                assert(qa > 0);
                assert(t[qa - 1] < 0x80) by {
                    if qa > ta {
                        assert(t[qa - 1] == 34);
                    } else if ta > a + 4 {
                        assert(crate::strutil::is_ws(t[ta - 1]));
                    } else {
                        assert(t[a + 3] == 61);
                    }
                }
                lemma_boundary_after_ascii(t, qa as int);
                if (qz as int) < t.len() {
                    assert(t[qz as int] < 0x80) by {
                        if qz < tz {
                            assert(t[qz as int] == 34);
                        } else if tz < z {
                            assert(crate::strutil::is_ws(t[tz as int]));
                        } else if z < e {
                            assert(crate::strutil::is_ws(t[z as int]));
                        } else {
                            assert(t[e as int] == 59);
                        }
                    }
                }
                crate::strutil::lemma_boundary_at_ascii(t, qz as int);
            }
            alg = substr(txt, qa, qz);
        }
        proof {
            gp = params_step(gp0, raw_part);
        }
        if e == n {
            proof {
                assert(rest =~= rest.take(e - pos));
                assert(params_run(gp0, rest) == params_step(gp0, rest));
                assert(params_run(init, t) == gp);
            }
            break ;
        }
        proof {
            assert(rest.skip(e - pos + 1) =~= t.subrange(e + 1 as int, n as int));
            assert(params_run(gp0, rest) == params_run(gp, rest.skip(e - pos + 1)));
        }
        pos = e + 1;
    }
    (created, keyid, alg)
}

/// Parses the two signature headers into their components, mirroring
/// `spec_parse_sig_headers`.
pub fn parse_signature_headers(sig_input: &str, sig: &str) -> (r: Result<SigInfo, AidError>)
    ensures
        (r is Ok <==> spec_parse_sig_headers(sig_input.spec_bytes(), sig.spec_bytes()) is Some),
        (r matches Ok(info) ==> info_models(
            info,
            spec_parse_sig_headers(sig_input.spec_bytes(), sig.spec_bytes())->0,
        )),
        (r matches Err(e) ==> e.code == ERR_SECURITY && e.error_code@ == "ERR_SECURITY"@),
{
    let ghost si = sig_input.spec_bytes();
    let ghost sg = sig.spec_bytes();
    proof {
        broadcast use group_utf8_lib;

        lemma_pka_literals();
        assert(valid_utf8(sg));
    }
    let sib = sig_input.as_bytes();
    let p = find_sub_bytes(sib, 0, sib.len(), "sig=(".as_bytes());
    proof {
        assert(si.subrange(0, si.len() as int) =~= si);
    }
    if p == sib.len() {
        return Err(AidError::security("Invalid Signature-Input"));
    }
    let close = find_byte(sib, p + 5, sib.len(), 41);
    proof {
        crate::strutil::lemma_find_from_offset(si, p + 5, 41);
        assert(si.skip(p + 5) =~= sib@.subrange(p + 5, sib@.len() as int));
        assert(find_from(si, p + 5, 41) == close);
    }
    if close == sib.len() {
        return Err(AidError::security("Invalid Signature-Input"));
    }
    let covered = scan_covered(sig_input, p + 5, close);
    let ghost mcov = scan_quoted_from(si.subrange(p + 5, close as int), 0);
    if covered.is_empty() {
        proof {
            assert(mcov.len() == 0);
        }
        return Err(AidError::security("Invalid Signature-Input"));
    }
    if !check_covered(&covered) {
        proof {
            assert(covered@.map_values(|x: String| encode_utf8(x@)) =~= mcov);
        }
        return Err(AidError::security("Signature-Input must cover required fields"));
    }
    proof {
        assert(covered@.map_values(|x: String| encode_utf8(x@)) =~= mcov);
    }
    let (created, keyid, alg) = parse_params(sig_input);
    let created = match created {
        Some(c) => c,
        None => {
            return Err(AidError::security("Invalid Signature-Input"));
        },
    };
    if keyid.as_str().as_bytes().len() == 0 || alg.as_str().as_bytes().len() == 0 {
        return Err(AidError::security("Invalid Signature-Input"));
    }
    let sgb = sig.as_bytes();
    let lsg = crate::strutil::lower_copy(sgb, 0, sgb.len());
    proof {
        assert(sgb@.subrange(0, sgb@.len() as int) =~= sgb@);
        assert(lsg@ == lower_bytes(sg));
    }
    let q = find_sub_bytes(lsg.as_slice(), 0, lsg.len(), "sig=".as_bytes());
    proof {
        assert(lsg@.subrange(0, lsg@.len() as int) =~= lsg@);
        assert(lsg@.len() == sg.len());
    }
    if q == lsg.len() {
        return Err(AidError::security("Invalid Signature header"));
    }
    if q + 4 >= sgb.len() {
        return Err(AidError::security("Invalid Signature header"));
    }
    if sgb[q + 4] != 58 {
        return Err(AidError::security("Invalid Signature header"));
    }
    let e = find_byte(sgb, q + 5, sgb.len(), 58);
    proof {
        crate::strutil::lemma_find_from_offset(sg, q + 5, 58);
        assert(sg.skip(q + 5) =~= sgb@.subrange(q + 5, sgb@.len() as int));
        assert(find_from(sg, q + 5, 58) == e);
    }
    if e == sgb.len() {
        return Err(AidError::security("Invalid Signature header"));
    }
    proof {
        lemma_boundary_after_ascii(sg, q + 5);
        crate::strutil::lemma_boundary_at_ascii(sg, e as int);
    }
    let b64s = substr(sig, q + 5, e);
    proof {
        assert(decode_utf8(sg.subrange(q + 5, e as int)) == b64s@) by {
            broadcast use group_utf8_lib;

            assert(encode_utf8(b64s@) == sg.subrange(q + 5, e as int));
        }
    }
    match b64_decode(b64s.as_str()) {
        Some(sigbytes) => Ok(
            SigInfo { covered, created, keyid, alg, signature: sigbytes },
        ),
        None => Err(AidError::security("Invalid Signature header")),
    }
}

/// One reconstructed line of the signature base, with canonical identifier
/// case; `None` for a component outside the covered set.
pub open spec fn component_line(
    item: Seq<u8>,
    method: Seq<u8>,
    target: Seq<u8>,
    host: Seq<u8>,
    date: Seq<u8>,
    challenge: Seq<u8>,
) -> Option<Seq<u8>> {
    let l = lower_bytes(item);
    if l == ascii_seq("aid-challenge"@) {
        Some(ascii_seq("\"AID-Challenge\": "@) + challenge)
    } else if l == ascii_seq("@method"@) {
        Some(ascii_seq("\"@method\": "@) + method)
    } else if l == ascii_seq("@target-uri"@) {
        Some(ascii_seq("\"@target-uri\": "@) + target)
    } else if l == ascii_seq("host"@) {
        Some(ascii_seq("\"host\": "@) + host)
    } else if l == ascii_seq("date"@) {
        Some(ascii_seq("\"date\": "@) + date)
    } else {
        None
    }
}

/// Whether every listed component has a line.
pub open spec fn all_components_known(
    items: Seq<Seq<u8>>,
    method: Seq<u8>,
    target: Seq<u8>,
    host: Seq<u8>,
    date: Seq<u8>,
    challenge: Seq<u8>,
) -> bool {
    forall|i: int|
        0 <= i < items.len() ==> component_line(
            #[trigger] items[i],
            method,
            target,
            host,
            date,
            challenge,
        ) is Some
}

/// The component lines in listed order, each followed by a line feed.
pub open spec fn cat_lines(
    items: Seq<Seq<u8>>,
    method: Seq<u8>,
    target: Seq<u8>,
    host: Seq<u8>,
    date: Seq<u8>,
    challenge: Seq<u8>,
) -> Seq<u8>
    decreases items.len(),
{
    if items.len() == 0 {
        Seq::empty()
    } else {
        cat_lines(items.drop_last(), method, target, host, date, challenge) + component_line(
            items.last(),
            method,
            target,
            host,
            date,
            challenge,
        )->0 + seq![10u8]
    }
}

/// A component name wrapped in double quotes.
pub open spec fn quoted_item(it: Seq<u8>) -> Seq<u8> {
    seq![34u8] + it + seq![34u8]
}

/// The quoted component names, space-separated, in listed order.
pub open spec fn quoted_list(items: Seq<Seq<u8>>) -> Seq<u8>
    decreases items.len(),
{
    if items.len() == 0 {
        Seq::empty()
    } else if items.len() == 1 {
        quoted_item(items[0])
    } else {
        quoted_list(items.drop_last()) + seq![32u8] + quoted_item(items.last())
    }
}

/// The final `@signature-params` line of the base.
pub open spec fn params_suffix(items: Seq<Seq<u8>>, created: i64, keyid: Seq<u8>, alg: Seq<u8>) -> Seq<
    u8,
> {
    ascii_seq("\"@signature-params\": ("@) + quoted_list(items) + ascii_seq(");created="@)
        + dec_i64(created as int) + ascii_seq(";keyid="@) + keyid + ascii_seq(";alg=\""@) + alg
        + seq![34u8]
}

/// The whole signature base: one line per covered component in listed
/// order, then the parameters line; empty when a component is unknown.
pub open spec fn spec_signature_base(
    items: Seq<Seq<u8>>,
    created: i64,
    keyid: Seq<u8>,
    alg: Seq<u8>,
    method: Seq<u8>,
    target: Seq<u8>,
    host: Seq<u8>,
    date: Seq<u8>,
    challenge: Seq<u8>,
) -> Seq<u8> {
    if !all_components_known(items, method, target, host, date, challenge) {
        Seq::empty()
    } else {
        cat_lines(items, method, target, host, date, challenge) + params_suffix(
            items,
            created,
            keyid,
            alg,
        )
    }
}

/// The ASCII encodings of the base-construction literals.
proof fn lemma_base_literals()
    ensures
        encode_utf8("\"AID-Challenge\": "@) == ascii_seq("\"AID-Challenge\": "@),
        encode_utf8("\"@method\": "@) == ascii_seq("\"@method\": "@),
        encode_utf8("\"@target-uri\": "@) == ascii_seq("\"@target-uri\": "@),
        encode_utf8("\"host\": "@) == ascii_seq("\"host\": "@),
        encode_utf8("\"date\": "@) == ascii_seq("\"date\": "@),
        encode_utf8("\n"@) == seq![10u8],
        encode_utf8("\""@) == seq![34u8],
        encode_utf8(" "@) == seq![32u8],
        encode_utf8("\"@signature-params\": ("@) == ascii_seq("\"@signature-params\": ("@),
        encode_utf8(");created="@) == ascii_seq(");created="@),
        encode_utf8(";keyid="@) == ascii_seq(";keyid="@),
        encode_utf8(";alg=\""@) == ascii_seq(";alg=\""@),
        encode_utf8("GET"@) == ascii_seq("GET"@),
{
    reveal_strlit("\"AID-Challenge\": ");
    reveal_strlit("\"@method\": ");
    reveal_strlit("\"@target-uri\": ");
    reveal_strlit("\"host\": ");
    reveal_strlit("\"date\": ");
    reveal_strlit("\n");
    reveal_strlit("\"");
    reveal_strlit(" ");
    reveal_strlit("\"@signature-params\": (");
    reveal_strlit(");created=");
    reveal_strlit(";keyid=");
    reveal_strlit(";alg=\"");
    reveal_strlit("GET");
    crate::strutil::lemma_ascii_encode("\"AID-Challenge\": "@);
    crate::strutil::lemma_ascii_encode("\"@method\": "@);
    crate::strutil::lemma_ascii_encode("\"@target-uri\": "@);
    crate::strutil::lemma_ascii_encode("\"host\": "@);
    crate::strutil::lemma_ascii_encode("\"date\": "@);
    crate::strutil::lemma_ascii_encode("\n"@);
    crate::strutil::lemma_ascii_encode("\""@);
    crate::strutil::lemma_ascii_encode(" "@);
    crate::strutil::lemma_ascii_encode("\"@signature-params\": ("@);
    crate::strutil::lemma_ascii_encode(");created="@);
    crate::strutil::lemma_ascii_encode(";keyid="@);
    crate::strutil::lemma_ascii_encode(";alg=\""@);
    crate::strutil::lemma_ascii_encode("GET"@);
    assert(encode_utf8("\n"@) =~= seq![10u8]);
    assert(encode_utf8("\""@) =~= seq![34u8]);
    assert(encode_utf8(" "@) =~= seq![32u8]);
}

/// Reconstructs the signature base over the covered components, exactly as
/// `spec_signature_base` describes; an unknown component yields the empty
/// base, under which no signature verifies.
#[verifier::rlimit(100)]
#[verifier::loop_isolation(false)]
pub fn build_signature_base(
    covered: &Vec<String>,
    created: i64,
    keyid: &str,
    alg: &str,
    method: &str,
    target_uri: &str,
    host: &str,
    date: &str,
    challenge: &str,
) -> (r: String)
    ensures
        encode_utf8(r@) == spec_signature_base(
            covered@.map_values(|x: String| encode_utf8(x@)),
            created,
            keyid.spec_bytes(),
            alg.spec_bytes(),
            method.spec_bytes(),
            target_uri.spec_bytes(),
            host.spec_bytes(),
            date.spec_bytes(),
            challenge.spec_bytes(),
        ),
{
    proof {
        lemma_pka_literals();
        lemma_base_literals();
    }
    let ghost items = covered@.map_values(|x: String| encode_utf8(x@));
    let ghost mb = method.spec_bytes();
    let ghost tb = target_uri.spec_bytes();
    let ghost hb = host.spec_bytes();
    let ghost db = date.spec_bytes();
    let ghost chb = challenge.spec_bytes();
    let mut out = String::new();
    proof {
        assert(encode_utf8(out@) =~= Seq::<u8>::empty());
        assert(items.take(0) =~= Seq::<Seq<u8>>::empty());
    }
    let n = covered.len();
    let mut i: usize = 0;
    while i < n
        invariant
            0 <= i <= n,
            all_components_known(items.take(i as int), mb, tb, hb, db, chb),
            encode_utf8(out@) == cat_lines(items.take(i as int), mb, tb, hb, db, chb),
        decreases n - i,
    {
        let cb = covered[i].as_str().as_bytes();
        let lb = crate::strutil::lower_copy(cb, 0, cb.len());
        proof {
            assert(cb@.subrange(0, cb@.len() as int) =~= cb@);
            assert(lb@ == lower_bytes(items[i as int]));
        }
        let ghost pre = encode_utf8(out@);
        let ghost line: Seq<u8>;
        if bytes_eq(lb.as_slice(), "aid-challenge".as_bytes()) {
            push_str(&mut out, "\"AID-Challenge\": ");
            push_str(&mut out, challenge);
            proof {
                line = ascii_seq("\"AID-Challenge\": "@) + chb;
            }
        } else if bytes_eq(lb.as_slice(), "@method".as_bytes()) {
            push_str(&mut out, "\"@method\": ");
            push_str(&mut out, method);
            proof {
                line = ascii_seq("\"@method\": "@) + mb;
            }
        } else if bytes_eq(lb.as_slice(), "@target-uri".as_bytes()) {
            push_str(&mut out, "\"@target-uri\": ");
            push_str(&mut out, target_uri);
            proof {
                line = ascii_seq("\"@target-uri\": "@) + tb;
            }
        } else if bytes_eq(lb.as_slice(), "host".as_bytes()) {
            push_str(&mut out, "\"host\": ");
            push_str(&mut out, host);
            proof {
                line = ascii_seq("\"host\": "@) + hb;
            }
        } else if bytes_eq(lb.as_slice(), "date".as_bytes()) {
            push_str(&mut out, "\"date\": ");
            push_str(&mut out, date);
            proof {
                line = ascii_seq("\"date\": "@) + db;
            }
        } else {
            proof {
                assert(component_line(items[i as int], mb, tb, hb, db, chb) is None);
                assert(!all_components_known(items, mb, tb, hb, db, chb));
            }
            let empty_base = String::new();
            proof {
                assert(encode_utf8(empty_base@) =~= Seq::<u8>::empty());
            }
            return empty_base;
        }
        push_str(&mut out, "\n");
        proof {
            assert(component_line(items[i as int], mb, tb, hb, db, chb) == Some(line));
            assert(encode_utf8(out@) =~= pre + line + seq![10u8]);
            assert(items.take(i + 1).drop_last() =~= items.take(i as int));
            assert(items.take(i + 1).last() == items[i as int]);
            assert(cat_lines(items.take(i + 1), mb, tb, hb, db, chb) == cat_lines(
                items.take(i as int),
                mb,
                tb,
                hb,
                db,
                chb,
            ) + line + seq![10u8]);
            assert(encode_utf8(out@) == cat_lines(items.take(i + 1), mb, tb, hb, db, chb));
        }
        i = i + 1;
    }
    proof {
        assert(items.take(n as int) =~= items);
    }
    push_str(&mut out, "\"@signature-params\": (");
    let ghost head = cat_lines(items, mb, tb, hb, db, chb) + ascii_seq(
        "\"@signature-params\": ("@,
    );
    proof {
        assert(encode_utf8(out@) =~= head);
        assert(quoted_list(items.take(0)) =~= Seq::<u8>::empty());
        assert(head + quoted_list(items.take(0)) =~= head);
    }
    let mut j: usize = 0;
    while j < n
        invariant
            0 <= j <= n,
            encode_utf8(out@) == head + quoted_list(items.take(j as int)),
        decreases n - j,
    {
        let ghost pre = encode_utf8(out@);
        if j > 0 {
            push_str(&mut out, " ");
        }
        push_str(&mut out, "\"");
        push_str(&mut out, covered[j].as_str());
        push_str(&mut out, "\"");
        proof {
            assert(items.take(j + 1).drop_last() =~= items.take(j as int));
            assert(items.take(j + 1).last() == items[j as int]);
            if j == 0 {
                assert(quoted_list(items.take(1)) == quoted_item(items[0]));
                assert(encode_utf8(out@) =~= head + quoted_list(items.take(1)));
            } else {
                assert(quoted_list(items.take(j + 1)) == quoted_list(items.take(j as int)) + seq![
                    32u8,
                ] + quoted_item(items[j as int]));
                assert(encode_utf8(out@) =~= head + quoted_list(items.take(j + 1)));
            }
        }
        j = j + 1;
    }
    proof {
        assert(items.take(n as int) =~= items);
    }
    push_str(&mut out, ");created=");
    push_i64_dec(&mut out, created);
    push_str(&mut out, ";keyid=");
    push_str(&mut out, keyid);
    push_str(&mut out, ";alg=\"");
    push_str(&mut out, alg);
    push_str(&mut out, "\"");
    proof {
        assert(encode_utf8(out@) =~= cat_lines(items, mb, tb, hb, db, chb) + params_suffix(
            items,
            created,
            keyid.spec_bytes(),
            alg.spec_bytes(),
        ));
    }
    out
}

/// The model a parsed header value realizes.
pub open spec fn info_model(info: SigInfo) -> SpecSigInfo {
    SpecSigInfo {
        covered: info.covered@.map_values(|x: String| encode_utf8(x@)),
        created: info.created,
        keyid: encode_utf8(info.keyid@),
        alg: encode_utf8(info.alg@),
        signature: info.signature@,
    }
}

/// The freshness and binding gates over parsed headers: `created` within
/// the window, the response date (when present) parseable and within the
/// window, the quote-stripped keyid equal to the record's kid, and the
/// algorithm ed25519 (case-insensitively).
pub open spec fn spec_gates(m: SpecSigInfo, kid: Seq<char>, rd: Option<Seq<char>>, now: i64) -> bool {
    &&& within_window(now as int, m.created as int)
    &&& (match rd {
        None => true,
        Some(d) => http_date_epoch(d) is Some && within_window(
            now as int,
            http_date_epoch(d)->0 as int,
        ),
    })
    &&& stripped_keyid(m.keyid) == encode_utf8(kid)
    &&& lower_bytes(m.alg) == ascii_seq("ed25519"@)
}

/// Enforces the freshness and binding gates, mirroring `spec_gates`.
fn check_gates(info: &SigInfo, kid: &str, response_date: &Option<String>, now: i64) -> (r: Result<
    (),
    AidError,
>)
    ensures
        (r is Ok <==> spec_gates(
            info_model(*info),
            kid@,
            (match *response_date {
                Option::Some(ref d) => Some(d@),
                Option::None => None,
            }),
            now,
        )),
        (r matches Err(e) ==> e.code == ERR_SECURITY && e.error_code@ == "ERR_SECURITY"@),
        (!within_window(now as int, info.created as int) ==> r is Err),
{
    let diff: i128 = now as i128 - info.created as i128;
    if diff > 300 || diff < -300 {
        return Err(AidError::security("Signature created timestamp outside acceptance window"));
    }
    match response_date {
        Some(d) => {
            match parse_http_date_secs(d.as_str()) {
                Some(epoch) => {
                    let dd: i128 = now as i128 - epoch as i128;
                    if dd > 300 || dd < -300 {
                        return Err(
                            AidError::security("HTTP Date header outside acceptance window"),
                        );
                    }
                },
                None => {
                    return Err(AidError::security("Invalid Date header"));
                },
            }
        },
        None => {},
    }
    let kb = info.keyid.as_str().as_bytes();
    let ghost mkeyid = encode_utf8(info.keyid@);
    proof {
        broadcast use group_utf8_lib;

        assert(valid_utf8(mkeyid));
    }
    let stripped: String = if kb.len() >= 2 && kb[0] == 34 && kb[kb.len() - 1] == 34 {
        let (qa, qz) = qtrim_range(kb, 0, kb.len());
        proof {
            assert(kb@.subrange(0, kb@.len() as int) =~= kb@);
            if qa > 0 {
                assert(kb@[qa - 1] == 34);
                lemma_boundary_after_ascii(mkeyid, qa as int);
            } else {
                crate::strutil::lemma_boundary_at_ascii(mkeyid, 0);
            }
            if (qz as int) < kb@.len() {
                assert(kb@[qz as int] == 34);
            }
            crate::strutil::lemma_boundary_at_ascii(mkeyid, qz as int);
        }
        let st = substr(info.keyid.as_str(), qa, qz);
        proof {
            assert(encode_utf8(st@) == stripped_keyid(mkeyid));
        }
        st
    } else {
        let st = info.keyid.clone();
        proof {
            assert(encode_utf8(st@) == stripped_keyid(mkeyid));
        }
        st
    };
    if !bytes_eq(stripped.as_str().as_bytes(), kid.as_bytes()) {
        return Err(AidError::security("Signature keyid mismatch"));
    }
    let ab = info.alg.as_str().as_bytes();
    let la = crate::strutil::lower_copy(ab, 0, ab.len());
    proof {
        assert(ab@.subrange(0, ab@.len() as int) =~= ab@);
        lemma_pka_literals();
    }
    if !bytes_eq(la.as_slice(), "ed25519".as_bytes()) {
        return Err(AidError::security("Unsupported signature algorithm"));
    }
    Ok(())
}

/// The keyid with its surrounding quotes removed, when it has them on both
/// ends.
pub open spec fn stripped_keyid(k: Seq<u8>) -> Seq<u8> {
    if k.len() >= 2 && k[0] == 34 && k.last() == 34 {
        qtrim_spec(k)
    } else {
        k
    }
}

/// Whether a timestamp lies within the freshness window around `now`.
pub open spec fn within_window(now: int, t: int) -> bool {
    -300 <= now - t && now - t <= 300
}

/// The whole verification decision over the handshake response: header
/// parsing, the freshness gates, the key and algorithm binding, and the
/// ed25519 check over the reconstructed base.
pub open spec fn spec_verify_handshake(
    uri: Seq<char>,
    host: Seq<char>,
    pka: Seq<char>,
    kid: Seq<char>,
    challenge: Seq<char>,
    request_date: Seq<char>,
    si: Seq<u8>,
    sg: Seq<u8>,
    rd: Option<Seq<char>>,
    now: i64,
) -> bool {
    &&& kid.len() > 0
    &&& match spec_parse_sig_headers(si, sg) {
        None => false,
        Some(info) => {
            &&& spec_gates(info, kid, rd, now)
            &&& (match spec_multibase(pka) {
                None => false,
                Some(pk) => pk.len() == 32 && ed25519_verifies(
                    pk,
                    spec_signature_base(
                        info.covered,
                        info.created,
                        info.keyid,
                        info.alg,
                        ascii_seq("GET"@),
                        encode_utf8(uri),
                        encode_utf8(host),
                        (match rd {
                            Some(d) => encode_utf8(d),
                            None => encode_utf8(request_date),
                        }),
                        encode_utf8(challenge),
                    ),
                    info.signature,
                ),
            })
        },
    }
}

/// Verifies one handshake response against the advertised key.
///
/// `uri` and `host` are the request target as sent; `challenge` and
/// `request_date` are the header values the request carried; `sig_input`,
/// `sig` and `response_date` come from the response; `now` is the current
/// unix time in seconds. Succeeds exactly when `spec_verify_handshake`
/// holds; in particular a `created` timestamp outside the freshness window
/// never verifies, whatever the signature.
#[verifier::rlimit(100)]
pub fn verify_handshake_headers(
    uri: &str,
    host: &str,
    pka: &str,
    kid: &str,
    challenge: &str,
    request_date: &str,
    sig_input: &str,
    sig: &str,
    response_date: &Option<String>,
    now: i64,
) -> (r: Result<(), AidError>)
    ensures
        (r is Ok <==> spec_verify_handshake(
            uri@,
            host@,
            pka@,
            kid@,
            challenge@,
            request_date@,
            sig_input.spec_bytes(),
            sig.spec_bytes(),
            (match *response_date {
                Option::Some(ref d) => Some(d@),
                Option::None => None,
            }),
            now,
        )),
        (r matches Err(e) ==> e.code == ERR_SECURITY && e.error_code@ == "ERR_SECURITY"@),
        (spec_parse_sig_headers(sig_input.spec_bytes(), sig.spec_bytes()) matches Some(info)
            && !within_window(now as int, info.created as int) ==> r is Err),
{
    proof {
        lemma_base_literals();
    }
    if kid.is_empty() {
        return Err(AidError::security("Missing kid for PKA"));
    }
    let info = match parse_signature_headers(sig_input, sig) {
        Ok(i) => i,
        Err(e) => {
            return Err(e);
        },
    };
    proof {
        assert(info_model(info) =~= spec_parse_sig_headers(
            sig_input.spec_bytes(),
            sig.spec_bytes(),
        )->0);
    }
    match check_gates(&info, kid, response_date, now) {
        Ok(()) => {},
        Err(e) => {
            return Err(e);
        },
    }
    let date_used: &str = match response_date {
        Some(d) => d.as_str(),
        None => request_date,
    };
    let base = build_signature_base(
        &info.covered,
        info.created,
        info.keyid.as_str(),
        info.alg.as_str(),
        "GET",
        uri,
        host,
        date_used,
        challenge,
    );
    let pubkey = match multibase_decode(pka) {
        Ok(v) => v,
        Err(e) => {
            return Err(e);
        },
    };
    if pubkey.len() != 32 {
        return Err(AidError::security("Invalid PKA length"));
    }
    if !ed25519_verify(pubkey.as_slice(), base.as_str().as_bytes(), info.signature.as_slice()) {
        return Err(AidError::security("PKA signature verification failed"));
    }
    Ok(())
}

} // verus!
