//! Byte-level string utilities shared by the parser, the canonicalizer and
//! the handshake verifier.
//!
//! All text handling in this crate is modelled over the UTF-8 bytes of the
//! input (`Seq<u8>`); these helpers connect executable scanning over byte
//! slices to that model, and prove the UTF-8 boundary facts needed to slice
//! `&str` values safely.

use vstd::prelude::*;
use vstd::utf8::*;
use vstd::string::StringSliceAdditionalSpecFns;

verus! {

/// The bytes of an ASCII character sequence, one byte per character.
pub open spec fn ascii_seq(s: Seq<char>) -> Seq<u8> {
    Seq::new(s.len(), |i: int| s[i] as u8)
}

/// ASCII whitespace, as trimmed from keys and values: space, tab, line feed,
/// vertical tab, form feed, carriage return.
pub open spec fn is_ws(b: u8) -> bool {
    b == 32 || (9 <= b && b <= 13)
}

/// ASCII lowercasing of one byte.
pub open spec fn lower_byte(b: u8) -> u8 {
    if 65 <= b && b <= 90 {
        (b + 32) as u8
    } else {
        b
    }
}

/// ASCII lowercasing of a byte sequence.
pub open spec fn lower_bytes(s: Seq<u8>) -> Seq<u8> {
    s.map_values(|b: u8| lower_byte(b))
}

/// Number of leading whitespace bytes of `s`.
pub open spec fn ws_prefix_len(s: Seq<u8>) -> int
    decreases s.len(),
{
    if s.len() == 0 || !is_ws(s[0]) {
        0
    } else {
        1 + ws_prefix_len(s.drop_first())
    }
}

/// Number of trailing whitespace bytes of `s`.
pub open spec fn ws_suffix_len(s: Seq<u8>) -> int
    decreases s.len(),
{
    if s.len() == 0 || !is_ws(s.last()) {
        0
    } else {
        1 + ws_suffix_len(s.drop_last())
    }
}

/// `s` with leading and trailing whitespace removed.
pub open spec fn trim_spec(s: Seq<u8>) -> Seq<u8> {
    if ws_prefix_len(s) <= s.len() - ws_suffix_len(s) {
        s.subrange(ws_prefix_len(s), s.len() - ws_suffix_len(s))
    } else {
        Seq::empty()
    }
}

/// Index of the first occurrence of `b` in `s` at or after `from`;
/// `s.len()` when there is none.
pub open spec fn find_from(s: Seq<u8>, from: int, b: u8) -> int
    decreases s.len() - from,
{
    if from < 0 || from >= s.len() {
        s.len() as int
    } else if s[from] == b {
        from
    } else {
        find_from(s, from + 1, b)
    }
}

/// `find_from` stays between its starting point and the end.
pub proof fn lemma_find_from_bounds(s: Seq<u8>, from: int, b: u8)
    requires
        0 <= from <= s.len(),
    ensures
        from <= find_from(s, from, b) <= s.len(),
    decreases s.len() - from,
{
    if from < s.len() && s[from] != b {
        lemma_find_from_bounds(s, from + 1, b);
    }
}

/// Everything before the found index differs from `b`, and the found index
/// holds `b` when it is inside the sequence.
pub proof fn lemma_find_from_props(s: Seq<u8>, from: int, b: u8)
    requires
        0 <= from <= s.len(),
    ensures
        from <= find_from(s, from, b) <= s.len(),
        forall|m: int| from <= m < find_from(s, from, b) ==> s[m] != b,
        find_from(s, from, b) < s.len() ==> s[find_from(s, from, b)] == b,
    decreases s.len() - from,
{
    if from < s.len() && s[from] != b {
        lemma_find_from_props(s, from + 1, b);
    }
}

/// `find_from` is pinned by its characterization: nothing before `k`, and
/// `b` at `k` or `k` at the end.
pub proof fn lemma_find_from_char(s: Seq<u8>, from: int, b: u8, k: int)
    requires
        0 <= from <= k <= s.len(),
        forall|m: int| from <= m < k ==> s[m] != b,
        k == s.len() || s[k] == b,
    ensures
        find_from(s, from, b) == k,
    decreases s.len() - from,
{
    if from < s.len() && s[from] != b {
        lemma_find_from_char(s, from + 1, b, k);
    }
}

/// Searching from an offset is searching the suffix.
pub proof fn lemma_find_from_offset(s: Seq<u8>, from: int, b: u8)
    requires
        0 <= from <= s.len(),
    ensures
        find_from(s, from, b) == from + find_from(s.skip(from), 0, b),
{
    let t = s.skip(from);
    lemma_find_from_props(t, 0, b);
    let k = find_from(t, 0, b);
    assert(forall|m: int| from <= m < from + k ==> s[m] != b) by {
        assert(forall|m: int| from <= m < from + k ==> #[trigger] s[m] == t[m - from]);
    }
    if k < t.len() {
        assert(s[from + k] == t[k]);
    }
    lemma_find_from_char(s, from, b, from + k);
}

/// Trimming leaves a sequence without whitespace at either end unchanged.
pub proof fn lemma_trim_id(s: Seq<u8>)
    requires
        s.len() > 0 ==> !is_ws(s[0]) && !is_ws(s.last()),
    ensures
        trim_spec(s) == s,
{
    lemma_ws_prefix_char(s, 0);
    lemma_ws_suffix_char(s, s.len() as int);
    assert(trim_spec(s) =~= s);
}

/// A nonempty trimmed sequence has no whitespace at either end, and its
/// bytes are a contiguous piece of the original.
pub proof fn lemma_trim_props(s: Seq<u8>)
    ensures
        trim_spec(s).len() > 0 ==> !is_ws(trim_spec(s)[0]) && !is_ws(trim_spec(s).last()),
        forall|j: int|
            0 <= j < trim_spec(s).len() ==> trim_spec(s)[j] == s[ws_prefix_len(s) + j],
{
    lemma_ws_prefix_nonneg(s);
    lemma_ws_suffix_nonneg(s);
    lemma_ws_prefix_props(s);
    lemma_ws_suffix_props(s);
    let p = ws_prefix_len(s);
    let q = s.len() - ws_suffix_len(s);
    if p <= q {
        if trim_spec(s).len() > 0 {
            assert(trim_spec(s)[0] == s[p]);
            assert(trim_spec(s).last() == s[q - 1]);
            assert(p < s.len());
            assert(!is_ws(s[p]));
            assert(ws_suffix_len(s) < s.len());
            assert(!is_ws(s[q - 1]));
        }
    }
}

/// The bytes the whitespace prefix covers, and the byte it stops at.
pub proof fn lemma_ws_prefix_props(s: Seq<u8>)
    ensures
        forall|m: int| 0 <= m < ws_prefix_len(s) ==> is_ws(#[trigger] s[m]),
        ws_prefix_len(s) < s.len() ==> !is_ws(s[ws_prefix_len(s)]),
    decreases s.len(),
{
    lemma_ws_prefix_nonneg(s);
    if s.len() == 0 || !is_ws(s[0]) {
    } else {
        let t = s.drop_first();
        lemma_ws_prefix_nonneg(t);
        lemma_ws_prefix_props(t);
        assert(forall|m: int| 1 <= m < ws_prefix_len(s) ==> s[m] == t[m - 1]);
    }
}

/// The bytes the whitespace suffix covers, and the byte it stops at.
pub proof fn lemma_ws_suffix_props(s: Seq<u8>)
    ensures
        forall|m: int| s.len() - ws_suffix_len(s) <= m < s.len() ==> is_ws(#[trigger] s[m]),
        ws_suffix_len(s) < s.len() ==> !is_ws(s[s.len() - ws_suffix_len(s) - 1]),
    decreases s.len(),
{
    lemma_ws_suffix_nonneg(s);
    if s.len() == 0 || !is_ws(s.last()) {
    } else {
        let t = s.drop_last();
        lemma_ws_suffix_nonneg(t);
        lemma_ws_suffix_props(t);
        assert(forall|m: int| t.len() - ws_suffix_len(t) <= m < t.len() ==> s[m] == t[m]);
    }
}

/// `ws_prefix_len` is the unique cut: everything before it is whitespace and
/// it stops at the first non-whitespace byte (or the end).
pub proof fn lemma_ws_prefix_char(s: Seq<u8>, k: int)
    requires
        0 <= k <= s.len(),
        forall|m: int| 0 <= m < k ==> is_ws(#[trigger] s[m]),
        k == s.len() || !is_ws(s[k]),
    ensures
        ws_prefix_len(s) == k,
    decreases s.len(),
{
    if s.len() == 0 {
    } else if k == 0 {
    } else {
        assert(is_ws(s[0]));
        let t = s.drop_first();
        assert(forall|m: int| 0 <= m < k - 1 ==> is_ws(#[trigger] t[m]));
        lemma_ws_prefix_char(t, k - 1);
    }
}

/// `ws_suffix_len` is the unique cut from the right.
pub proof fn lemma_ws_suffix_char(s: Seq<u8>, k: int)
    requires
        0 <= k <= s.len(),
        forall|m: int| k <= m < s.len() ==> is_ws(#[trigger] s[m]),
        k == 0 || !is_ws(s[k - 1]),
    ensures
        ws_suffix_len(s) == s.len() - k,
    decreases s.len(),
{
    if s.len() == 0 {
    } else if k == s.len() {
    } else {
        assert(is_ws(s.last()));
        let t = s.drop_last();
        assert(forall|m: int| k <= m < t.len() ==> is_ws(#[trigger] t[m]));
        lemma_ws_suffix_char(t, k);
    }
}

/// In valid UTF-8, the position right after an ASCII byte is a character
/// boundary.
pub proof fn lemma_boundary_after_ascii(bytes: Seq<u8>, i: int)
    requires
        valid_utf8(bytes),
        0 < i <= bytes.len(),
        bytes[i - 1] < 0x80,
    ensures
        is_char_boundary(bytes, i),
{
    broadcast use group_utf8_lib;

    if i == bytes.len() {
    } else {
        assert(!is_continuation_byte(bytes[i - 1]));
        assert(is_char_boundary(bytes, i - 1));
        valid_utf8_split(bytes, i - 1);
        let tail = bytes.subrange(i - 1, bytes.len() as int);
        assert(valid_utf8(tail));
        assert(tail.len() > 0);
        assert(tail[0] == bytes[i - 1]);
        assert(is_leading_byte_width_1(tail[0]));
        assert(length_of_first_scalar(tail) == 1);
        assert(valid_utf8(pop_first_scalar(tail)));
        let tail2 = bytes.subrange(i, bytes.len() as int);
        assert(pop_first_scalar(tail) =~= tail2);
        assert(tail2.len() > 0);
        assert(valid_first_scalar(tail2));
        assert(!is_continuation_byte(tail2[0]));
        assert(bytes[i] == tail2[0]);
        assert(is_char_boundary(bytes, i));
    }
}

/// A position holding an ASCII byte, or the start or end of the sequence,
/// is a character boundary.
pub proof fn lemma_boundary_at_ascii(bytes: Seq<u8>, i: int)
    requires
        valid_utf8(bytes),
        0 <= i <= bytes.len(),
        i == 0 || i == bytes.len() || bytes[i] < 0x80,
    ensures
        is_char_boundary(bytes, i),
{
    broadcast use group_utf8_lib;

    if i == 0 || i == bytes.len() {
    } else {
        assert(!is_continuation_byte(bytes[i]));
    }
}

/// The UTF-8 encoding of an ASCII character sequence is its bytes, one byte
/// per character.
pub proof fn lemma_ascii_encode(s: Seq<char>)
    requires
        is_ascii_chars(s),
    ensures
        encode_utf8(s) == ascii_seq(s),
{
    is_ascii_chars_encode_utf8(s);
    assert(encode_utf8(s) =~= ascii_seq(s));
}

/// UTF-8 encoding distributes over concatenation.
pub proof fn lemma_encode_concat(a: Seq<char>, b: Seq<char>)
    ensures
        encode_utf8(a + b) == encode_utf8(a) + encode_utf8(b),
    decreases a.len(),
{
    if a.len() == 0 {
        assert(a + b =~= b);
        assert(encode_utf8(a) + encode_utf8(b) =~= encode_utf8(b));
    } else {
        assert((a + b).drop_first() =~= a.drop_first() + b);
        lemma_encode_concat(a.drop_first(), b);
        assert(encode_utf8(a + b) =~= encode_utf8(a) + encode_utf8(b));
    }
}

/// Equal UTF-8 encodings come from equal character sequences.
pub proof fn lemma_encode_injective(a: Seq<char>, b: Seq<char>)
    requires
        encode_utf8(a) == encode_utf8(b),
    ensures
        a == b,
{
    broadcast use group_utf8_lib;

    assert(decode_utf8(encode_utf8(a)) == a);
    assert(decode_utf8(encode_utf8(b)) == b);
}

/// Whether `s` begins with `p`.
pub open spec fn starts_with(s: Seq<u8>, p: Seq<u8>) -> bool {
    s.len() >= p.len() && s.take(p.len() as int) == p
}

/// Whether the slice begins with the given prefix, mirroring `starts_with`.
pub fn starts_with_bytes(a: &[u8], p: &[u8]) -> (r: bool)
    ensures
        r == starts_with(a@, p@),
{
    if a.len() < p.len() {
        return false;
    }
    let n = p.len();
    let mut i: usize = 0;
    while i < n
        invariant
            n == p@.len() <= a@.len(),
            0 <= i <= n,
            forall|m: int| 0 <= m < i ==> a@[m] == p@[m],
        decreases n - i,
    {
        if a[i] != p[i] {
            proof {
                assert(a@.take(n as int)[i as int] != p@[i as int]);
            }
            return false;
        }
        i = i + 1;
    }
    proof {
        assert(a@.take(n as int) =~= p@);
    }
    true
}

/// Byte-wise equality of two slices.
pub fn bytes_eq(a: &[u8], b: &[u8]) -> (r: bool)
    ensures
        r == (a@ == b@),
{
    if a.len() != b.len() {
        proof {
            assert(a@.len() != b@.len());
        }
        return false;
    }
    let n = a.len();
    let mut i: usize = 0;
    while i < n
        invariant
            n == a@.len() == b@.len(),
            0 <= i <= n,
            forall|m: int| 0 <= m < i ==> a@[m] == b@[m],
        decreases n - i,
    {
        if a[i] != b[i] {
            return false;
        }
        i = i + 1;
    }
    proof {
        assert(a@ =~= b@);
    }
    true
}

/// Textual equality of two string slices.
pub fn str_eq(a: &str, b: &str) -> (r: bool)
    ensures
        r == (a@ == b@),
{
    let r = bytes_eq(a.as_bytes(), b.as_bytes());
    proof {
        if a.spec_bytes() == b.spec_bytes() {
            lemma_encode_injective(a@, b@);
        }
    }
    r
}

/// First index of `b` in `bytes[start..end]`, scanning left to right;
/// `end` when absent. Mirrors `find_from` on the subrange.
pub fn find_byte(bytes: &[u8], start: usize, end: usize, b: u8) -> (r: usize)
    requires
        start <= end <= bytes@.len(),
    ensures
        start <= r <= end,
        r - start == find_from(bytes@.subrange(start as int, end as int), 0, b),
        r < end ==> bytes@[r as int] == b,
        forall|m: int| start <= m < r ==> bytes@[m] != b,
{
    let ghost s = bytes@.subrange(start as int, end as int);
    let mut i: usize = start;
    while i < end
        invariant
            start <= i <= end <= bytes@.len(),
            s == bytes@.subrange(start as int, end as int),
            forall|m: int| start <= m < i ==> bytes@[m] != b,
            find_from(s, 0, b) == find_from(s, i - start, b),
        decreases end - i,
    {
        if bytes[i] == b {
            proof {
                assert(s[i - start] == bytes@[i as int]);
            }
            return i;
        }
        proof {
            assert(s[i - start] == bytes@[i as int]);
        }
        i = i + 1;
    }
    proof {
        assert(find_from(s, end - start, b) == s.len());
    }
    end
}

/// Number of leading double-quote bytes of `s`.
pub open spec fn q_prefix_len(s: Seq<u8>) -> int
    decreases s.len(),
{
    if s.len() == 0 || s[0] != 34 {
        0
    } else {
        1 + q_prefix_len(s.drop_first())
    }
}

/// Number of trailing double-quote bytes of `s`.
pub open spec fn q_suffix_len(s: Seq<u8>) -> int
    decreases s.len(),
{
    if s.len() == 0 || s.last() != 34 {
        0
    } else {
        1 + q_suffix_len(s.drop_last())
    }
}

/// `s` with all leading and trailing double quotes removed.
pub open spec fn qtrim_spec(s: Seq<u8>) -> Seq<u8> {
    if q_prefix_len(s) <= s.len() - q_suffix_len(s) {
        s.subrange(q_prefix_len(s), s.len() - q_suffix_len(s))
    } else {
        Seq::empty()
    }
}

/// `q_prefix_len` is the unique cut from the left.
pub proof fn lemma_q_prefix_char(s: Seq<u8>, k: int)
    requires
        0 <= k <= s.len(),
        forall|m: int| 0 <= m < k ==> #[trigger] s[m] == 34,
        k == s.len() || s[k] != 34,
    ensures
        q_prefix_len(s) == k,
    decreases s.len(),
{
    if s.len() == 0 {
    } else if k == 0 {
    } else {
        let t = s.drop_first();
        assert(forall|m: int| 0 <= m < k - 1 ==> #[trigger] t[m] == 34);
        lemma_q_prefix_char(t, k - 1);
    }
}

/// `q_suffix_len` is the unique cut from the right.
pub proof fn lemma_q_suffix_char(s: Seq<u8>, k: int)
    requires
        0 <= k <= s.len(),
        forall|m: int| k <= m < s.len() ==> #[trigger] s[m] == 34,
        k == 0 || s[k - 1] != 34,
    ensures
        q_suffix_len(s) == s.len() - k,
    decreases s.len(),
{
    if s.len() == 0 {
    } else if k == s.len() {
    } else {
        assert(s.last() == 34);
        let t = s.drop_last();
        assert(forall|m: int| k <= m < t.len() ==> #[trigger] t[m] == 34);
        lemma_q_suffix_char(t, k);
    }
}

/// Quote-trim bounds of `bytes[start..end]`, mirroring `qtrim_spec` on the
/// subrange.
pub fn qtrim_range(bytes: &[u8], start: usize, end: usize) -> (r: (usize, usize))
    requires
        start <= end <= bytes@.len(),
    ensures
        start <= r.0 <= r.1 <= end,
        bytes@.subrange(r.0 as int, r.1 as int) == qtrim_spec(
            bytes@.subrange(start as int, end as int),
        ),
        forall|m: int| start <= m < r.0 ==> bytes@[m] == 34,
        forall|m: int| r.1 <= m < end ==> bytes@[m] == 34,
{
    let ghost s = bytes@.subrange(start as int, end as int);
    let mut a: usize = start;
    while a < end && bytes[a] == 34
        invariant
            start <= a <= end <= bytes@.len(),
            forall|m: int| start <= m < a ==> bytes@[m] == 34,
        decreases end - a,
    {
        a = a + 1;
    }
    let mut z: usize = end;
    while z > a && bytes[z - 1] == 34
        invariant
            start <= a <= z <= end <= bytes@.len(),
            forall|m: int| z <= m < end ==> bytes@[m] == 34,
        decreases z,
    {
        z = z - 1;
    }
    proof {
        assert(forall|m: int| 0 <= m < s.len() ==> s[m] == bytes@[start + m]);
        if a == end {
            lemma_q_prefix_char(s, s.len() as int);
            assert(z == a);
            lemma_q_suffix_nonneg(s);
            assert(qtrim_spec(s) =~= bytes@.subrange(a as int, z as int));
        } else {
            lemma_q_prefix_char(s, a - start);
            assert(z > a);
            lemma_q_suffix_char(s, z - start);
            assert(qtrim_spec(s) =~= bytes@.subrange(a as int, z as int));
        }
    }
    (a, z)
}

/// `q_suffix_len` stays within the sequence.
pub proof fn lemma_q_suffix_nonneg(s: Seq<u8>)
    ensures
        0 <= q_suffix_len(s) <= s.len(),
    decreases s.len(),
{
    if s.len() == 0 || s.last() != 34 {
    } else {
        lemma_q_suffix_nonneg(s.drop_last());
    }
}

/// Whether `pat` occurs in `s` at position `i`.
pub open spec fn matches_at(s: Seq<u8>, pat: Seq<u8>, i: int) -> bool {
    0 <= i && i + pat.len() <= s.len() && s.subrange(i, i + pat.len()) == pat
}

/// First position at or after `from` where `pat` occurs in `s`; `s.len()`
/// when there is none.
pub open spec fn find_sub(s: Seq<u8>, pat: Seq<u8>, from: int) -> int
    decreases s.len() - from,
{
    if from < 0 || from + pat.len() > s.len() || pat.len() == 0 {
        s.len() as int
    } else if matches_at(s, pat, from) {
        from
    } else {
        find_sub(s, pat, from + 1)
    }
}

/// `find_sub` stays within bounds, matches where it lands, and skips no
/// earlier match.
pub proof fn lemma_find_sub_props(s: Seq<u8>, pat: Seq<u8>, from: int)
    requires
        0 <= from <= s.len(),
    ensures
        from <= find_sub(s, pat, from) <= s.len(),
        find_sub(s, pat, from) < s.len() ==> matches_at(s, pat, find_sub(s, pat, from)),
        pat.len() > 0 ==> forall|m: int| from <= m < find_sub(s, pat, from) ==> !matches_at(
            s,
            pat,
            m,
        ),
    decreases s.len() - from,
{
    if from + pat.len() > s.len() || pat.len() == 0 {
        assert(pat.len() > 0 ==> forall|m: int| from <= m ==> !matches_at(s, pat, m));
    } else if !matches_at(s, pat, from) {
        lemma_find_sub_props(s, pat, from + 1);
    }
}

/// First occurrence of `pat` within `bytes[start..end]`, mirroring
/// `find_sub` on the subrange; `end` when absent.
pub fn find_sub_bytes(bytes: &[u8], start: usize, end: usize, pat: &[u8]) -> (r: usize)
    requires
        start <= end <= bytes@.len(),
        pat@.len() > 0,
    ensures
        start <= r <= end,
        r - start == find_sub(bytes@.subrange(start as int, end as int), pat@, 0),
        r < end ==> matches_at(bytes@.subrange(start as int, end as int), pat@, r - start),
        forall|m: int|
            0 <= m < r - start ==> !matches_at(bytes@.subrange(start as int, end as int), pat@, m),
{
    let ghost s = bytes@.subrange(start as int, end as int);
    let n = pat.len();
    if n > end - start {
        proof {
            lemma_find_sub_unfold_none(s, pat@, 0);
        }
        return end;
    }
    let last = end - n;
    let mut i: usize = start;
    while i <= last
        invariant
            start <= i <= last + 1,
            last == end - n,
            start <= end <= bytes@.len(),
            n == pat@.len() > 0,
            n <= end - start,
            s == bytes@.subrange(start as int, end as int),
            forall|m: int| 0 <= m < i - start ==> !matches_at(s, pat@, m),
            find_sub(s, pat@, 0) == find_sub(s, pat@, i - start),
        decreases end - i,
    {
        let mut k: usize = 0;
        let mut hit = true;
        while k < n
            invariant
                0 <= k <= n == pat@.len(),
                start <= i,
                i + n <= end <= bytes@.len(),
                s == bytes@.subrange(start as int, end as int),
                hit == (forall|m: int| 0 <= m < k ==> s[i - start + m] == pat@[m]),
                !hit ==> k == n,
            decreases n - k,
        {
            let same = bytes[i + k] == pat[k];
            proof {
                assert(s[i - start + k] == bytes@[i + k]);
            }
            if !same {
                hit = false;
                k = n;
            } else {
                proof {
                    assert(forall|m: int| 0 <= m < k + 1 ==> s[i - start + m] == pat@[m]);
                }
                k = k + 1;
            }
        }
        if hit {
            proof {
                assert(s.subrange(i - start, i - start + n as int) =~= pat@);
                assert(matches_at(s, pat@, i - start));
            }
            return i;
        }
        proof {
            assert(!matches_at(s, pat@, i - start)) by {
                if matches_at(s, pat@, i - start) {
                    assert(forall|m: int|
                        0 <= m < n ==> #[trigger] s.subrange(i - start, i - start + n as int)[m]
                            == s[i - start + m]);
                }
            }
        }
        i = i + 1;
    }
    proof {
        lemma_find_sub_unfold_none(s, pat@, i - start);
        lemma_find_sub_props(s, pat@, 0);
    }
    end
}

/// When fewer than `pat.len()` bytes remain, nothing matches.
pub proof fn lemma_find_sub_unfold_none(s: Seq<u8>, pat: Seq<u8>, from: int)
    requires
        0 <= from,
        from + pat.len() > s.len() || pat.len() == 0,
    ensures
        find_sub(s, pat, from) == s.len(),
{
}

/// Whether the byte is ASCII whitespace, mirroring `is_ws`.
pub fn is_ws_byte(b: u8) -> (r: bool)
    ensures
        r == is_ws(b),
{
    b == 32 || (9 <= b && b <= 13)
}

/// Trim bounds of `bytes[start..end]`: the returned pair `(a, z)` brackets
/// the content with surrounding whitespace removed.
pub fn trim_range(bytes: &[u8], start: usize, end: usize) -> (r: (usize, usize))
    requires
        start <= end <= bytes@.len(),
    ensures
        start <= r.0 <= r.1 <= end,
        bytes@.subrange(r.0 as int, r.1 as int) == trim_spec(
            bytes@.subrange(start as int, end as int),
        ),
        forall|m: int| start <= m < r.0 ==> is_ws(#[trigger] bytes@[m]),
        forall|m: int| r.1 <= m < end ==> is_ws(#[trigger] bytes@[m]),
        r.0 < r.1 ==> !is_ws(bytes@[r.0 as int]) && !is_ws(bytes@[r.1 - 1]),
{
    let ghost s = bytes@.subrange(start as int, end as int);
    let mut a: usize = start;
    while a < end && is_ws_byte(bytes[a])
        invariant
            start <= a <= end <= bytes@.len(),
            forall|m: int| start <= m < a ==> is_ws(#[trigger] bytes@[m]),
        decreases end - a,
    {
        a = a + 1;
    }
    let mut z: usize = end;
    while z > a && is_ws_byte(bytes[z - 1])
        invariant
            start <= a <= z <= end <= bytes@.len(),
            forall|m: int| z <= m < end ==> is_ws(#[trigger] bytes@[m]),
        decreases z,
    {
        z = z - 1;
    }
    proof {
        assert(forall|m: int| 0 <= m < s.len() ==> s[m] == bytes@[start + m]);
        if a == end {
            // all whitespace: prefix length is the whole sequence
            lemma_ws_prefix_char(s, s.len() as int);
            assert(ws_prefix_len(s) == s.len());
            assert(z == a);
            if ws_prefix_len(s) <= s.len() - ws_suffix_len(s) {
                assert(ws_suffix_len(s) >= 0) by {
                    lemma_ws_suffix_nonneg(s);
                }
                assert(trim_spec(s) =~= bytes@.subrange(a as int, z as int));
            } else {
                assert(trim_spec(s) =~= bytes@.subrange(a as int, z as int));
            }
        } else {
            lemma_ws_prefix_char(s, a - start);
            assert(ws_prefix_len(s) == a - start);
            assert(!is_ws(bytes@[a as int]));
            assert(z > a);
            assert(!is_ws(bytes@[z - 1]));
            lemma_ws_suffix_char(s, z - start);
            assert(ws_suffix_len(s) == end - z);
            assert(trim_spec(s) =~= bytes@.subrange(a as int, z as int));
        }
    }
    (a, z)
}

/// `ws_suffix_len` is never negative.
pub proof fn lemma_ws_suffix_nonneg(s: Seq<u8>)
    ensures
        0 <= ws_suffix_len(s) <= s.len(),
    decreases s.len(),
{
    if s.len() == 0 || !is_ws(s.last()) {
    } else {
        lemma_ws_suffix_nonneg(s.drop_last());
    }
}

/// `ws_prefix_len` stays within the sequence.
pub proof fn lemma_ws_prefix_nonneg(s: Seq<u8>)
    ensures
        0 <= ws_prefix_len(s) <= s.len(),
    decreases s.len(),
{
    if s.len() == 0 || !is_ws(s[0]) {
    } else {
        lemma_ws_prefix_nonneg(s.drop_first());
    }
}

/// Copy of `bytes[start..end]` with ASCII letters lowercased.
pub fn lower_copy(bytes: &[u8], start: usize, end: usize) -> (r: Vec<u8>)
    requires
        start <= end <= bytes@.len(),
    ensures
        r@ == lower_bytes(bytes@.subrange(start as int, end as int)),
{
    let ghost s = bytes@.subrange(start as int, end as int);
    let mut out: Vec<u8> = Vec::new();
    let mut i: usize = start;
    while i < end
        invariant
            start <= i <= end <= bytes@.len(),
            s == bytes@.subrange(start as int, end as int),
            out@ == lower_bytes(s.take(i - start)),
        decreases end - i,
    {
        let b = bytes[i];
        let lb: u8 = if 65 <= b && b <= 90 {
            b + 32
        } else {
            b
        };
        out.push(lb);
        proof {
            assert(s.take(i + 1 - start) =~= s.take(i - start).push(s[i - start]));
            assert(s[i - start] == bytes@[i as int]);
            assert(lower_bytes(s.take(i + 1 - start)) =~= lower_bytes(s.take(i - start)).push(
                lower_byte(bytes@[i as int]),
            ));
        }
        i = i + 1;
    }
    proof {
        assert(s.take(end - start) =~= s);
    }
    out
}

/// The substring of `s` covering bytes `start..end`, as an owned `String`.
pub fn substr(s: &str, start: usize, end: usize) -> (r: String)
    requires
        start <= end <= s.spec_bytes().len(),
        is_char_boundary(s.spec_bytes(), start as int),
        is_char_boundary(s.spec_bytes(), end as int),
    ensures
        encode_utf8(r@) == s.spec_bytes().subrange(start as int, end as int),
{
    proof {
        broadcast use group_utf8_lib;

        assert(valid_utf8(s.spec_bytes()));
    }
    let (_, tail) = s.split_at(start);
    proof {
        broadcast use group_utf8_lib;

        valid_utf8_split(s.spec_bytes(), start as int);
        assert(valid_utf8(tail.spec_bytes()));
        if end < s.spec_bytes().len() {
            if (end - start) < tail.spec_bytes().len() {
                assert(tail.spec_bytes()[end - start] == s.spec_bytes()[end as int]);
                assert(is_char_boundary(s.spec_bytes(), end as int) == !is_continuation_byte(
                    s.spec_bytes()[end as int],
                ));
                assert(is_char_boundary(tail.spec_bytes(), end - start));
            }
        } else {
            assert(end - start == tail.spec_bytes().len());
        }
    }
    let (mid, _) = tail.split_at(end - start);
    proof {
        assert(mid.spec_bytes() =~= s.spec_bytes().subrange(start as int, end as int));
    }
    let r = mid.to_owned();
    proof {
        assert(encode_utf8(r@) == mid.spec_bytes());
    }
    r
}

} // verus!
