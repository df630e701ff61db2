//! The laws of the parser and canonicalizer, proved over their models:
//! determinism, round-tripping of canonical text, alias equivalence,
//! forward compatibility with unknown keys, and the duplicate guard.

use vstd::prelude::*;
use vstd::utf8::*;
use crate::constants::{
    ERR_INVALID_TXT, spec_is_supported_auth, spec_is_supported_proto, spec_version_bytes,
};
use crate::parser::{
    assign, docs_ok, empty_fields, finalize, rec_models, run, spec_parse, step, uri_ok, SpecFields,
    SpecRecord,
};
use crate::record::AidRecord;
use crate::well_known::{append_part, field_spec, lookup_raw, spec_canonicalize};
use crate::strutil::{
    ascii_seq, find_from, is_ws, lemma_encode_injective, lemma_find_from_char,
    lemma_find_from_props, lemma_trim_id, lemma_trim_props, lemma_ws_prefix_nonneg,
    lemma_ws_suffix_nonneg, lower_byte, lower_bytes, trim_spec,
};

verus! {

/// Two records that cannot be told apart by any caller: every field holds
/// the same text.
pub open spec fn same_observable(a: AidRecord, b: AidRecord) -> bool {
    &&& a.v@ == b.v@
    &&& a.uri@ == b.uri@
    &&& a.proto@ == b.proto@
    &&& opt_same(a.auth, b.auth)
    &&& opt_same(a.desc, b.desc)
    &&& opt_same(a.docs, b.docs)
    &&& opt_same(a.dep, b.dep)
    &&& opt_same(a.pka, b.pka)
    &&& opt_same(a.kid, b.kid)
}

/// Optional fields that hold the same text.
pub open spec fn opt_same(a: Option<String>, b: Option<String>) -> bool {
    match (a, b) {
        (Option::None, Option::None) => true,
        (Option::Some(x), Option::Some(y)) => x@ == y@,
        _ => false,
    }
}

/// Law: parsing is deterministic. The parser's contract pins the result to
/// `spec_parse` of the input, so any two records realizing the same model
/// are observably identical.
pub proof fn lemma_parse_deterministic(rec1: AidRecord, rec2: AidRecord, m: SpecRecord)
    requires
        rec_models(rec1, m),
        rec_models(rec2, m),
    ensures
        same_observable(rec1, rec2),
{
    lemma_encode_injective(rec1.v@, rec2.v@);
    lemma_encode_injective(rec1.uri@, rec2.uri@);
    lemma_encode_injective(rec1.proto@, rec2.proto@);
    if rec1.auth is Some {
        lemma_encode_injective(rec1.auth->0@, rec2.auth->0@);
    }
    if rec1.desc is Some {
        lemma_encode_injective(rec1.desc->0@, rec2.desc->0@);
    }
    if rec1.docs is Some {
        lemma_encode_injective(rec1.docs->0@, rec2.docs->0@);
    }
    if rec1.dep is Some {
        lemma_encode_injective(rec1.dep->0@, rec2.dep->0@);
    }
    if rec1.pka is Some {
        lemma_encode_injective(rec1.pka->0@, rec2.pka->0@);
    }
    if rec1.kid is Some {
        lemma_encode_injective(rec1.kid->0@, rec2.kid->0@);
    }
}

/// A byte sequence free of segment separators.
pub open spec fn no_semicolon(s: Seq<u8>) -> bool {
    forall|j: int| 0 <= j < s.len() ==> s[j] != 59
}

/// Whether a trimmed segment splits into a key and a value at some `=`.
pub open spec fn segment_has_pair(seg: Seq<u8>) -> bool {
    let tseg = trim_spec(seg);
    tseg.len() > 0 && find_from(tseg, 0, 61) < tseg.len()
}

/// The lowercased, trimmed key of a segment.
pub open spec fn segment_key(seg: Seq<u8>) -> Seq<u8> {
    let tseg = trim_spec(seg);
    lower_bytes(trim_spec(tseg.take(find_from(tseg, 0, 61))))
}

/// The trimmed value of a segment.
pub open spec fn segment_value(seg: Seq<u8>) -> Seq<u8> {
    let tseg = trim_spec(seg);
    trim_spec(tseg.skip(find_from(tseg, 0, 61) + 1))
}

/// The keys the parser recognizes, across all aliases.
pub open spec fn known_key(key: Seq<u8>) -> bool {
    ||| key == ascii_seq("v"@)
    ||| key == ascii_seq("uri"@)
    ||| key == ascii_seq("u"@)
    ||| key == ascii_seq("proto"@)
    ||| key == ascii_seq("p"@)
    ||| key == ascii_seq("auth"@)
    ||| key == ascii_seq("a"@)
    ||| key == ascii_seq("desc"@)
    ||| key == ascii_seq("s"@)
    ||| key == ascii_seq("docs"@)
    ||| key == ascii_seq("d"@)
    ||| key == ascii_seq("dep"@)
    ||| key == ascii_seq("e"@)
    ||| key == ascii_seq("pka"@)
    ||| key == ascii_seq("k"@)
    ||| key == ascii_seq("kid"@)
    ||| key == ascii_seq("i"@)
}

/// Appending one separator-free segment runs the fold one step further.
pub proof fn lemma_run_append(st: SpecFields, t: Seq<u8>, seg: Seq<u8>)
    requires
        no_semicolon(seg),
    ensures
        run(st, t + seq![59u8] + seg) == (match run(st, t) {
            Ok(st2) => step(st2, seg),
            Err(e) => Err::<SpecFields, ()>(e),
        }),
    decreases t.len(),
{
    let c = t + seq![59u8] + seg;
    let i = find_from(t, 0, 59);
    lemma_find_from_props(t, 0, 59);
    if i == t.len() {
        assert(c[t.len() as int] == 59);
        assert(forall|m: int| 0 <= m < t.len() ==> c[m] == t[m] && c[m] != 59);
        lemma_find_from_char(c, 0, 59, t.len() as int);
        assert(c.take(t.len() as int) =~= t);
        assert(c.skip(t.len() as int + 1) =~= seg);
        match step(st, t) {
            Ok(st2) => {
                lemma_find_from_char(seg, 0, 59, seg.len() as int);
                assert(run(st2, seg) == step(st2, seg));
            },
            Err(_) => {},
        }
    } else {
        assert(c[i] == t[i] && t[i] == 59);
        assert(forall|m: int| 0 <= m < i ==> c[m] == t[m] && c[m] != 59);
        lemma_find_from_char(c, 0, 59, i);
        assert(c.take(i) =~= t.take(i));
        match step(st, t.take(i)) {
            Ok(st2) => {
                assert(c.skip(i + 1) =~= t.skip(i + 1) + seq![59u8] + seg);
                lemma_run_append(st2, t.skip(i + 1), seg);
            },
            Err(_) => {},
        }
    }
}

/// A segment with a well-formed pair steps the state exactly as `assign`
/// does on its key and value.
pub proof fn lemma_step_as_assign(st: SpecFields, seg: Seq<u8>)
    requires
        segment_has_pair(seg),
        segment_key(seg).len() > 0,
        segment_value(seg).len() > 0,
    ensures
        step(st, seg) == assign(st, segment_key(seg), segment_value(seg)),
{
}

/// Law (forward compatibility): appending an unknown `key=value` segment to
/// text that parses leaves the result unchanged.
pub proof fn lemma_forward_compatible(t: Seq<u8>, seg: Seq<u8>)
    requires
        spec_parse(t) is Ok,
        no_semicolon(seg),
        segment_has_pair(seg),
        segment_key(seg).len() > 0,
        segment_value(seg).len() > 0,
        !known_key(segment_key(seg)),
    ensures
        spec_parse(t + seq![59u8] + seg) == spec_parse(t),
{
    let st = run(empty_fields(), t)->Ok_0;
    lemma_run_append(empty_fields(), t, seg);
    lemma_step_as_assign(st, seg);
    assert(assign(st, segment_key(seg), segment_value(seg)) == Ok::<SpecFields, ()>(st));
}

/// Lengths and leading bytes of the recognized keys, enough to tell any
/// two of them apart.
pub proof fn lemma_keys_bytes()
    ensures
        ascii_seq("v"@).len() == 1 && ascii_seq("v"@)[0] == 118,
        ascii_seq("uri"@).len() == 3 && ascii_seq("uri"@)[0] == 117,
        ascii_seq("u"@).len() == 1 && ascii_seq("u"@)[0] == 117,
        ascii_seq("proto"@).len() == 5 && ascii_seq("proto"@)[0] == 112,
        ascii_seq("p"@).len() == 1 && ascii_seq("p"@)[0] == 112,
        ascii_seq("auth"@).len() == 4 && ascii_seq("auth"@)[0] == 97,
        ascii_seq("a"@).len() == 1 && ascii_seq("a"@)[0] == 97,
        ascii_seq("desc"@).len() == 4 && ascii_seq("desc"@)[0] == 100,
        ascii_seq("desc"@)[1] == 101,
        ascii_seq("s"@).len() == 1 && ascii_seq("s"@)[0] == 115,
        ascii_seq("docs"@).len() == 4 && ascii_seq("docs"@)[0] == 100,
        ascii_seq("docs"@)[1] == 111,
        ascii_seq("d"@).len() == 1 && ascii_seq("d"@)[0] == 100,
        ascii_seq("dep"@).len() == 3 && ascii_seq("dep"@)[0] == 100,
        ascii_seq("dep"@)[1] == 101,
        ascii_seq("e"@).len() == 1 && ascii_seq("e"@)[0] == 101,
        ascii_seq("pka"@).len() == 3 && ascii_seq("pka"@)[0] == 112,
        ascii_seq("pka"@)[1] == 107,
        ascii_seq("k"@).len() == 1 && ascii_seq("k"@)[0] == 107,
        ascii_seq("kid"@).len() == 3 && ascii_seq("kid"@)[0] == 107,
        ascii_seq("i"@).len() == 1 && ascii_seq("i"@)[0] == 105,
        ascii_seq("uri"@)[1] == 114,
        ascii_seq("kid"@)[1] == 105,
{
    reveal_strlit("v");
    reveal_strlit("uri");
    reveal_strlit("u");
    reveal_strlit("proto");
    reveal_strlit("p");
    reveal_strlit("auth");
    reveal_strlit("a");
    reveal_strlit("desc");
    reveal_strlit("s");
    reveal_strlit("docs");
    reveal_strlit("d");
    reveal_strlit("dep");
    reveal_strlit("e");
    reveal_strlit("pka");
    reveal_strlit("k");
    reveal_strlit("kid");
    reveal_strlit("i");
}

/// Which duplicate keys the guard speaks of: any alias of a field that the
/// parsed record already carries (the required fields always count).
pub open spec fn duplicate_key_for(key: Seq<u8>, m: SpecRecord) -> bool {
    ||| key == ascii_seq("v"@)
    ||| key == ascii_seq("uri"@)
    ||| key == ascii_seq("u"@)
    ||| key == ascii_seq("proto"@)
    ||| key == ascii_seq("p"@)
    ||| ((key == ascii_seq("auth"@) || key == ascii_seq("a"@)) && m.auth is Some)
    ||| ((key == ascii_seq("desc"@) || key == ascii_seq("s"@)) && m.desc is Some)
    ||| ((key == ascii_seq("docs"@) || key == ascii_seq("d"@)) && m.docs is Some)
    ||| ((key == ascii_seq("dep"@) || key == ascii_seq("e"@)) && m.dep is Some)
    ||| ((key == ascii_seq("pka"@) || key == ascii_seq("k"@)) && m.pka is Some)
    ||| ((key == ascii_seq("kid"@) || key == ascii_seq("i"@)) && m.kid is Some)
}

/// Law (duplicate guard): appending a segment whose key is an alias of a
/// field the record already carries makes the whole text invalid.
pub proof fn lemma_duplicate_guard(t: Seq<u8>, seg: Seq<u8>)
    requires
        spec_parse(t) is Ok,
        no_semicolon(seg),
        segment_has_pair(seg),
        segment_key(seg).len() > 0,
        segment_value(seg).len() > 0,
        duplicate_key_for(segment_key(seg), spec_parse(t)->Ok_0),
    ensures
        spec_parse(t + seq![59u8] + seg) == Err::<SpecRecord, u16>(ERR_INVALID_TXT),
{
    lemma_keys_bytes();
    let st = run(empty_fields(), t)->Ok_0;
    let m = spec_parse(t)->Ok_0;
    let key = segment_key(seg);
    let value = segment_value(seg);
    lemma_run_append(empty_fields(), t, seg);
    lemma_step_as_assign(st, seg);
    assert(finalize(st) == Ok::<SpecRecord, u16>(m));
    assert(st.v is Some && st.uri is Some);
    assert(st.proto is Some || st.p is Some);
    if key == ascii_seq("proto"@) && st.proto is None {
        let st2 = assign(st, key, value)->Ok_0;
        assert(st2 == SpecFields { proto: Some(value), ..st });
        assert(finalize(st2) == Err::<SpecRecord, u16>(ERR_INVALID_TXT));
    } else if key == ascii_seq("p"@) && st.p is None {
        let st2 = assign(st, key, value)->Ok_0;
        assert(st2 == SpecFields { p: Some(value), ..st });
        assert(finalize(st2) == Err::<SpecRecord, u16>(ERR_INVALID_TXT));
    } else {
        assert(assign(st, key, value) is Err);
    }
}

/// A field value that can stand in record text unchanged: nonempty, no
/// whitespace at either end, and no segment separator inside.
pub open spec fn txt_value_ok(v: Seq<u8>) -> bool {
    v.len() > 0 && !is_ws(v[0]) && !is_ws(v.last()) && no_semicolon(v)
}

/// An optional field whose value, when present, is text-safe.
pub open spec fn clean_opt(o: Option<Seq<u8>>) -> bool {
    o matches Some(v) ==> txt_value_ok(v)
}

/// An accumulator state all of whose stored values are text-safe.
pub open spec fn clean_st(st: SpecFields) -> bool {
    &&& clean_opt(st.v)
    &&& clean_opt(st.uri)
    &&& clean_opt(st.proto)
    &&& clean_opt(st.p)
    &&& clean_opt(st.auth)
    &&& clean_opt(st.desc)
    &&& clean_opt(st.docs)
    &&& clean_opt(st.dep)
    &&& clean_opt(st.pka)
    &&& clean_opt(st.kid)
}

/// A valid record: text-safe field values satisfying every check the
/// parser enforces.
pub open spec fn wf_record(m: SpecRecord) -> bool {
    &&& m.v == spec_version_bytes()
    &&& txt_value_ok(m.v)
    &&& txt_value_ok(m.uri)
    &&& txt_value_ok(m.proto)
    &&& clean_opt(m.auth)
    &&& clean_opt(m.desc)
    &&& clean_opt(m.docs)
    &&& clean_opt(m.dep)
    &&& clean_opt(m.pka)
    &&& clean_opt(m.kid)
    &&& spec_is_supported_proto(m.proto)
    &&& (m.auth matches Some(a) ==> spec_is_supported_auth(a))
    &&& (m.desc matches Some(d) ==> d.len() <= 60)
    &&& (m.docs matches Some(d) ==> docs_ok(d))
    &&& (m.dep matches Some(d) ==> d.len() > 0 && d.last() == 90)
    &&& uri_ok(m.proto, m.uri)
}

/// A separator-free segment only ever stores text-safe values.
proof fn lemma_step_clean(st: SpecFields, seg: Seq<u8>)
    requires
        clean_st(st),
        no_semicolon(seg),
        step(st, seg) is Ok,
    ensures
        clean_st(step(st, seg)->Ok_0),
{
    let tseg = trim_spec(seg);
    lemma_trim_props(seg);
    lemma_ws_prefix_nonneg(seg);
    lemma_ws_suffix_nonneg(seg);
    if tseg.len() > 0 {
        let e = find_from(tseg, 0, 61);
        lemma_find_from_props(tseg, 0, 61);
        if e < tseg.len() {
            assert(no_semicolon(tseg));
            let raw = tseg.skip(e + 1);
            let value = trim_spec(raw);
            lemma_find_from_props(tseg, 0, 61);
            assert(forall|j: int| 0 <= j < raw.len() ==> raw[j] == tseg[e + 1 + j]);
            assert(no_semicolon(raw));
            lemma_trim_props(raw);
            lemma_ws_prefix_nonneg(raw);
            lemma_ws_suffix_nonneg(raw);
            if value.len() > 0 {
                assert(no_semicolon(value));
                assert(txt_value_ok(value));
                let key = lower_bytes(trim_spec(tseg.take(e)));
                if key.len() > 0 {
                    assert(step(st, seg) == assign(st, key, value));
                    assert(assign(st, key, value) is Ok ==> clean_st(assign(st, key, value)->Ok_0));
                } else {
                    assert(step(st, seg) is Err);
                }
            } else {
                assert(step(st, seg) is Err || step(st, seg) == Ok::<SpecFields, ()>(st));
            }
        } else {
            assert(step(st, seg) is Err);
        }
    } else {
        assert(step(st, seg) == Ok::<SpecFields, ()>(st));
    }
}

/// The fold preserves text-safety of everything it stores.
proof fn lemma_run_clean(st: SpecFields, s: Seq<u8>)
    requires
        clean_st(st),
        run(st, s) is Ok,
    ensures
        clean_st(run(st, s)->Ok_0),
    decreases s.len(),
{
    let i = find_from(s, 0, 59);
    lemma_find_from_props(s, 0, 59);
    if i == s.len() {
        assert(no_semicolon(s));
        lemma_step_clean(st, s);
    } else {
        let head = s.take(i);
        assert(forall|j: int| 0 <= j < i ==> head[j] == s[j]);
        assert(no_semicolon(head));
        lemma_step_clean(st, head);
        lemma_run_clean(step(st, head)->Ok_0, s.skip(i + 1));
    }
}

/// Law (parser output validity): every record the parser accepts is
/// well-formed, with text-safe field values.
pub proof fn lemma_parse_wf(t: Seq<u8>)
    requires
        spec_parse(t) is Ok,
    ensures
        wf_record(spec_parse(t)->Ok_0),
{
    lemma_run_clean(empty_fields(), t);
}

/// A key literal as it appears in canonical text: nonempty, lowercase,
/// and free of whitespace, `=`, and `;`.
pub open spec fn key_lit_ok(key: Seq<u8>) -> bool {
    key.len() > 0 && forall|j: int|
        0 <= j < key.len() ==> (!is_ws(#[trigger] key[j]) && key[j] != 61 && key[j] != 59
            && lower_byte(key[j]) == key[j])
}

/// The nine long keys are fit for canonical text.
pub proof fn lemma_canonical_keys()
    ensures
        key_lit_ok(ascii_seq("v"@)),
        key_lit_ok(ascii_seq("uri"@)),
        key_lit_ok(ascii_seq("proto"@)),
        key_lit_ok(ascii_seq("auth"@)),
        key_lit_ok(ascii_seq("desc"@)),
        key_lit_ok(ascii_seq("docs"@)),
        key_lit_ok(ascii_seq("dep"@)),
        key_lit_ok(ascii_seq("pka"@)),
        key_lit_ok(ascii_seq("kid"@)),
{
    reveal_strlit("v");
    reveal_strlit("uri");
    reveal_strlit("proto");
    reveal_strlit("auth");
    reveal_strlit("desc");
    reveal_strlit("docs");
    reveal_strlit("dep");
    reveal_strlit("pka");
    reveal_strlit("kid");
}

/// A `key=value` segment with a canonical key and a text-safe value steps
/// the state exactly as `assign` does.
proof fn lemma_step_known(st: SpecFields, key: Seq<u8>, value: Seq<u8>)
    requires
        key_lit_ok(key),
        txt_value_ok(value),
    ensures
        step(st, key + seq![61u8] + value) == assign(st, key, value),
{
    let seg = key + seq![61u8] + value;
    assert(seg[0] == key[0]);
    assert(seg.last() == value.last());
    lemma_trim_id(seg);
    assert(forall|m: int| 0 <= m < key.len() ==> seg[m] == key[m] && seg[m] != 61);
    assert(seg[key.len() as int] == 61);
    lemma_find_from_char(seg, 0, 61, key.len() as int);
    assert(seg.take(key.len() as int) =~= key);
    lemma_trim_id(key);
    assert(lower_bytes(key) =~= key);
    assert(seg.skip(key.len() as int + 1) =~= value);
    lemma_trim_id(value);
}

/// The canonical text of a record: its fields in canonical order under
/// their long keys, exactly as the canonicalizer emits them.
pub open spec fn canonical_txt(m: SpecRecord) -> Seq<u8> {
    let c1 = append_part(Seq::empty(), ascii_seq("v"@), Some(m.v));
    let c2 = append_part(c1, ascii_seq("uri"@), Some(m.uri));
    let c3 = append_part(c2, ascii_seq("proto"@), Some(m.proto));
    let c4 = append_part(c3, ascii_seq("auth"@), m.auth);
    let c5 = append_part(c4, ascii_seq("desc"@), m.desc);
    let c6 = append_part(c5, ascii_seq("docs"@), m.docs);
    let c7 = append_part(c6, ascii_seq("dep"@), m.dep);
    let c8 = append_part(c7, ascii_seq("pka"@), m.pka);
    append_part(c8, ascii_seq("kid"@), m.kid)
}

/// Extending canonical text by one optional field runs the fold one
/// `assign` further.
proof fn lemma_extend_opt(st: SpecFields, t: Seq<u8>, key: Seq<u8>, v: Option<Seq<u8>>)
    requires
        t.len() > 0,
        run(empty_fields(), t) == Ok::<SpecFields, ()>(st),
        key_lit_ok(key),
        clean_opt(v),
    ensures
        run(empty_fields(), append_part(t, key, v)) == (match v {
            Option::None => Ok::<SpecFields, ()>(st),
            Option::Some(val) => assign(st, key, val),
        }),
{
    match v {
        Option::None => {},
        Option::Some(val) => {
            let seg = key + seq![61u8] + val;
            assert(no_semicolon(seg));
            lemma_run_append(empty_fields(), t, seg);
            lemma_step_known(st, key, val);
            assert(append_part(t, key, v) =~= t + seq![59u8] + seg);
        },
    }
}

/// Law (round trip): parsing the canonical text of any valid record gives
/// back exactly that record.
pub proof fn lemma_round_trip(m: SpecRecord)
    requires
        wf_record(m),
    ensures
        spec_parse(canonical_txt(m)) == Ok::<SpecRecord, u16>(m),
{
    lemma_canonical_keys();
    lemma_keys_bytes();
    let k_v = ascii_seq("v"@);
    let k_uri = ascii_seq("uri"@);
    let k_proto = ascii_seq("proto"@);
    let k_auth = ascii_seq("auth"@);
    let k_desc = ascii_seq("desc"@);
    let k_docs = ascii_seq("docs"@);
    let k_dep = ascii_seq("dep"@);
    let k_pka = ascii_seq("pka"@);
    let k_kid = ascii_seq("kid"@);
    let st0 = empty_fields();
    // the first segment: no separator anywhere in `key=value`
    let c1 = append_part(Seq::empty(), k_v, Some(m.v));
    let seg1 = k_v + seq![61u8] + m.v;
    assert(c1 =~= seg1);
    assert(no_semicolon(seg1));
    lemma_find_from_char(seg1, 0, 59, seg1.len() as int);
    lemma_step_known(st0, k_v, m.v);
    let st1 = SpecFields { v: Some(m.v), ..st0 };
    assert(run(st0, c1) == Ok::<SpecFields, ()>(st1));
    assert(c1.len() > 0);
    // uri
    let c2 = append_part(c1, k_uri, Some(m.uri));
    lemma_extend_opt(st1, c1, k_uri, Some(m.uri));
    let st2 = SpecFields { uri: Some(m.uri), ..st1 };
    assert(run(st0, c2) == Ok::<SpecFields, ()>(st2));
    assert(c2.len() > 0);
    // proto
    let c3 = append_part(c2, k_proto, Some(m.proto));
    lemma_extend_opt(st2, c2, k_proto, Some(m.proto));
    let st3 = SpecFields { proto: Some(m.proto), ..st2 };
    assert(run(st0, c3) == Ok::<SpecFields, ()>(st3));
    assert(c3.len() > 0);
    // auth
    let c4 = append_part(c3, k_auth, m.auth);
    lemma_extend_opt(st3, c3, k_auth, m.auth);
    let st4 = SpecFields { auth: m.auth, ..st3 };
    assert(run(st0, c4) == Ok::<SpecFields, ()>(st4));
    assert(c4.len() > 0);
    // desc
    let c5 = append_part(c4, k_desc, m.desc);
    lemma_extend_opt(st4, c4, k_desc, m.desc);
    let st5 = SpecFields { desc: m.desc, ..st4 };
    assert(run(st0, c5) == Ok::<SpecFields, ()>(st5));
    assert(c5.len() > 0);
    // docs
    let c6 = append_part(c5, k_docs, m.docs);
    lemma_extend_opt(st5, c5, k_docs, m.docs);
    let st6 = SpecFields { docs: m.docs, ..st5 };
    assert(run(st0, c6) == Ok::<SpecFields, ()>(st6));
    assert(c6.len() > 0);
    // dep
    let c7 = append_part(c6, k_dep, m.dep);
    lemma_extend_opt(st6, c6, k_dep, m.dep);
    let st7 = SpecFields { dep: m.dep, ..st6 };
    assert(run(st0, c7) == Ok::<SpecFields, ()>(st7));
    assert(c7.len() > 0);
    // pka
    let c8 = append_part(c7, k_pka, m.pka);
    lemma_extend_opt(st7, c7, k_pka, m.pka);
    let st8 = SpecFields { pka: m.pka, ..st7 };
    assert(run(st0, c8) == Ok::<SpecFields, ()>(st8));
    assert(c8.len() > 0);
    // kid
    let c9 = append_part(c8, k_kid, m.kid);
    lemma_extend_opt(st8, c8, k_kid, m.kid);
    let st9 = SpecFields { kid: m.kid, ..st8 };
    assert(run(st0, c9) == Ok::<SpecFields, ()>(st9));
    assert(c9 == canonical_txt(m));
    assert(finalize(st9) == Ok::<SpecRecord, u16>(m)) by {
        assert(finalize(st9)->Ok_0 =~= m);
    }
}

/// The value a field contributes to its JSON form: its bytes, or nothing.
pub open spec fn opt_bytes(o: Option<Seq<u8>>) -> Seq<u8> {
    match o {
        Option::None => Seq::empty(),
        Option::Some(v) => v,
    }
}

/// The record's fields as JSON string pairs under their long keys; absent
/// fields carry the empty string, which the canonicalizer drops.
pub open spec fn long_pairs(m: SpecRecord) -> Seq<(Seq<u8>, Seq<u8>)> {
    seq![
        (ascii_seq("v"@), m.v),
        (ascii_seq("uri"@), m.uri),
        (ascii_seq("proto"@), m.proto),
        (ascii_seq("auth"@), opt_bytes(m.auth)),
        (ascii_seq("desc"@), opt_bytes(m.desc)),
        (ascii_seq("docs"@), opt_bytes(m.docs)),
        (ascii_seq("dep"@), opt_bytes(m.dep)),
        (ascii_seq("pka"@), opt_bytes(m.pka)),
        (ascii_seq("kid"@), opt_bytes(m.kid)),
    ]
}

/// The same fields under their short aliases.
pub open spec fn short_pairs(m: SpecRecord) -> Seq<(Seq<u8>, Seq<u8>)> {
    seq![
        (ascii_seq("v"@), m.v),
        (ascii_seq("u"@), m.uri),
        (ascii_seq("p"@), m.proto),
        (ascii_seq("a"@), opt_bytes(m.auth)),
        (ascii_seq("s"@), opt_bytes(m.desc)),
        (ascii_seq("d"@), opt_bytes(m.docs)),
        (ascii_seq("e"@), opt_bytes(m.dep)),
        (ascii_seq("k"@), opt_bytes(m.pka)),
        (ascii_seq("i"@), opt_bytes(m.kid)),
    ]
}

/// The same fields, each under its long key or its short alias as
/// `use_short` chooses, position by position (`v` has no alias).
pub open spec fn alias_pairs(m: SpecRecord, use_short: Seq<bool>) -> Seq<(Seq<u8>, Seq<u8>)> {
    seq![
        (ascii_seq("v"@), m.v),
        ((if use_short[1] {
            ascii_seq("u"@)
        } else {
            ascii_seq("uri"@)
        }), m.uri),
        ((if use_short[2] {
            ascii_seq("p"@)
        } else {
            ascii_seq("proto"@)
        }), m.proto),
        ((if use_short[3] {
            ascii_seq("a"@)
        } else {
            ascii_seq("auth"@)
        }), opt_bytes(m.auth)),
        ((if use_short[4] {
            ascii_seq("s"@)
        } else {
            ascii_seq("desc"@)
        }), opt_bytes(m.desc)),
        ((if use_short[5] {
            ascii_seq("d"@)
        } else {
            ascii_seq("docs"@)
        }), opt_bytes(m.docs)),
        ((if use_short[6] {
            ascii_seq("e"@)
        } else {
            ascii_seq("dep"@)
        }), opt_bytes(m.dep)),
        ((if use_short[7] {
            ascii_seq("k"@)
        } else {
            ascii_seq("pka"@)
        }), opt_bytes(m.pka)),
        ((if use_short[8] {
            ascii_seq("i"@)
        } else {
            ascii_seq("kid"@)
        }), opt_bytes(m.kid)),
    ]
}

/// Lookup lands on position `k` when nothing before it matches.
proof fn lemma_lookup_at(pairs: Seq<(Seq<u8>, Seq<u8>)>, key: Seq<u8>, k: int)
    requires
        0 <= k < pairs.len(),
        forall|j: int| 0 <= j < k ==> (#[trigger] pairs[j]).0 != key,
        pairs[k].0 == key,
    ensures
        lookup_raw(pairs, key) == Some(pairs[k].1),
    decreases k,
{
    if k > 0 {
        let t = pairs.drop_first();
        assert(forall|j: int| 0 <= j < k - 1 ==> (#[trigger] t[j]).0 != key);
        lemma_lookup_at(t, key, k - 1);
    }
}

/// Lookup misses when no key matches.
proof fn lemma_lookup_none(pairs: Seq<(Seq<u8>, Seq<u8>)>, key: Seq<u8>)
    requires
        forall|j: int| 0 <= j < pairs.len() ==> (#[trigger] pairs[j]).0 != key,
    ensures
        lookup_raw(pairs, key) is None,
    decreases pairs.len(),
{
    if pairs.len() > 0 {
        let t = pairs.drop_first();
        assert(forall|j: int| 0 <= j < t.len() ==> (#[trigger] t[j]).0 != key);
        lemma_lookup_none(t, key);
    }
}

/// A present field survives the canonicalizer's lookup and trim unchanged;
/// a missing one (the empty string) is dropped.
proof fn lemma_clean_value(o: Option<Seq<u8>>)
    requires
        clean_opt(o),
    ensures
        ({
            let t = trim_spec(opt_bytes(o));
            &&& (o is Some ==> t == o->0 && t.len() > 0)
            &&& (o is None ==> t.len() == 0)
        }),
{
    match o {
        Option::Some(v) => {
            lemma_trim_id(v);
        },
        Option::None => {
            assert(trim_spec(Seq::<u8>::empty()) =~= Seq::<u8>::empty());
        },
    }
}

/// The canonicalizer resolves the long-key pairs of a valid record to its
/// canonical text.
proof fn lemma_canonicalize_long(m: SpecRecord)
    requires
        wf_record(m),
    ensures
        spec_canonicalize(long_pairs(m)) == canonical_txt(m),
{
    let choice = Seq::new(9, |i: int| false);
    lemma_canonicalize_mixed(m, choice);
    assert(long_pairs(m) =~= alias_pairs(m, choice));
}

/// The canonicalizer resolves the short-alias pairs of a valid record to
/// the same canonical text.
proof fn lemma_canonicalize_short(m: SpecRecord)
    requires
        wf_record(m),
    ensures
        spec_canonicalize(short_pairs(m)) == canonical_txt(m),
{
    let choice = Seq::new(9, |i: int| true);
    lemma_canonicalize_mixed(m, choice);
    assert(short_pairs(m) =~= alias_pairs(m, choice));
}

/// One field of a nine-pair JSON form resolves to its value, whichever of
/// its two keys the form uses, provided no other pair carries either key.
proof fn lemma_mixed_field(
    ps: Seq<(Seq<u8>, Seq<u8>)>,
    i: int,
    long: Seq<u8>,
    short: Seq<u8>,
    v: Option<Seq<u8>>,
    use_s: bool,
)
    requires
        ps.len() == 9,
        0 <= i < 9,
        ps[i].0 == (if use_s {
            short
        } else {
            long
        }),
        ps[i].1 == opt_bytes(v),
        clean_opt(v),
        long != short,
        forall|j: int| 0 <= j < 9 && j != i ==> (#[trigger] ps[j]).0 != long && ps[j].0 != short,
    ensures
        field_spec(ps, long, short) == v,
{
    lemma_clean_value(v);
    if use_s {
        lemma_lookup_none(ps, long);
        lemma_lookup_at(ps, short, i);
    } else {
        lemma_lookup_at(ps, long, i);
        if v is None {
            lemma_lookup_none(ps, short);
        }
    }
}

/// The canonicalizer resolves any per-field mix of long keys and short
/// aliases of a valid record to its canonical text.
#[verifier::rlimit(100)]
proof fn lemma_canonicalize_mixed(m: SpecRecord, use_short: Seq<bool>)
    requires
        wf_record(m),
        use_short.len() == 9,
    ensures
        spec_canonicalize(alias_pairs(m, use_short)) == canonical_txt(m),
{
    lemma_keys_bytes();
    let ps = alias_pairs(m, use_short);
    lemma_lookup_at(ps, ascii_seq("v"@), 0);
    lemma_trim_id(m.v);
    lemma_mixed_field(ps, 1, ascii_seq("uri"@), ascii_seq("u"@), Some(m.uri), use_short[1]);
    lemma_mixed_field(ps, 2, ascii_seq("proto"@), ascii_seq("p"@), Some(m.proto), use_short[2]);
    lemma_mixed_field(ps, 3, ascii_seq("auth"@), ascii_seq("a"@), m.auth, use_short[3]);
    lemma_mixed_field(ps, 4, ascii_seq("desc"@), ascii_seq("s"@), m.desc, use_short[4]);
    lemma_mixed_field(ps, 5, ascii_seq("docs"@), ascii_seq("d"@), m.docs, use_short[5]);
    lemma_mixed_field(ps, 6, ascii_seq("dep"@), ascii_seq("e"@), m.dep, use_short[6]);
    lemma_mixed_field(ps, 7, ascii_seq("pka"@), ascii_seq("k"@), m.pka, use_short[7]);
    lemma_mixed_field(ps, 8, ascii_seq("kid"@), ascii_seq("i"@), m.kid, use_short[8]);
}

/// Law (alias equivalence, general form): for any text that parses and any
/// per-field choice of long key or short alias, canonicalizing the
/// record's JSON form and parsing again gives back the same record.
pub proof fn lemma_alias_equivalence_mixed(t: Seq<u8>, use_short: Seq<bool>)
    requires
        spec_parse(t) is Ok,
        use_short.len() == 9,
    ensures
        spec_parse(spec_canonicalize(alias_pairs(spec_parse(t)->Ok_0, use_short))) == spec_parse(
            t,
        ),
{
    let m = spec_parse(t)->Ok_0;
    lemma_parse_wf(t);
    lemma_canonicalize_mixed(m, use_short);
    lemma_round_trip(m);
}

/// Law (alias equivalence): for any text that parses, canonicalizing its
/// record's JSON form — under the long keys or under the short aliases —
/// and parsing again gives back the same record.
pub proof fn lemma_alias_equivalence(t: Seq<u8>)
    requires
        spec_parse(t) is Ok,
    ensures
        spec_parse(spec_canonicalize(long_pairs(spec_parse(t)->Ok_0))) == spec_parse(t),
        spec_parse(spec_canonicalize(short_pairs(spec_parse(t)->Ok_0))) == spec_parse(t),
{
    let m = spec_parse(t)->Ok_0;
    lemma_parse_wf(t);
    lemma_canonicalize_long(m);
    lemma_canonicalize_short(m);
    lemma_round_trip(m);
}

} // verus!
