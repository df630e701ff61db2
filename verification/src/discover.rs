//! The pure decision logic of the discovery pipeline: candidate DNS name
//! construction, DNS error classification, and selection of the first valid
//! record among the TXT values a lookup returned.
//!
//! The asynchronous loop that issues the lookups, the well-known fetch and
//! the handshake request lives outside the library; it consults these
//! functions for every decision.

use vstd::prelude::*;
use vstd::utf8::*;
use vstd::string::StringSliceAdditionalSpecFns;
use vstd::string::StringExecFns;
use crate::parser::{parse, rec_models, spec_parse, SpecRecord};
use crate::record::AidRecord;
use crate::strutil::{
    ascii_seq, find_sub, find_sub_bytes, is_ws, lemma_ascii_encode, lemma_boundary_after_ascii,
    lemma_boundary_at_ascii, lower_bytes, lower_copy, starts_with, starts_with_bytes, substr,
    trim_range, trim_spec,
};

verus! {

/// Options for one discovery run. Timeouts are in milliseconds; the caller
/// turns them into whatever its I/O layer expects.
pub struct DiscoveryOptions {
    pub protocol: Option<String>,
    pub timeout: u64,
    pub well_known_fallback: bool,
    pub well_known_timeout: u64,
}

/// The A-label form `idna` gives the domain, when conversion succeeds.
pub uninterp spec fn idna_to_ascii(d: Seq<char>) -> Option<Seq<char>>;

/// Relies on `idna::domain_to_ascii`: the ASCII-compatible form is a
/// function of the domain characters alone; on conversion failure the input
/// is used verbatim.
#[verifier::external_body]
fn domain_to_alabel(domain: &str) -> (r: String)
    ensures
        r@ == (match idna_to_ascii(domain@) {
            Option::Some(a) => a,
            Option::None => domain@,
        }),
{
    match idna::domain_to_ascii(domain) {
        Ok(a) => a,
        Err(_) => domain.to_string(),
    }
}

/// The domain as queried: its A-label form, or the input when conversion
/// fails.
pub open spec fn spec_alabel(domain: Seq<char>) -> Seq<char> {
    match idna_to_ascii(domain) {
        Option::Some(a) => a,
        Option::None => domain,
    }
}

/// The candidate DNS names, most specific first: the protocol-qualified
/// forms when a preferred protocol is given, then the plain `_agent` name.
pub open spec fn spec_candidates(domain: Seq<char>, protocol: Option<Seq<char>>) -> Seq<Seq<char>> {
    let alabel = spec_alabel(domain);
    match protocol {
        Option::Some(p) => seq![
            "_agent._"@ + p + "."@ + alabel,
            "_agent."@ + p + "."@ + alabel,
            "_agent."@ + alabel,
        ],
        Option::None => seq!["_agent."@ + alabel],
    }
}

/// Builds the candidate DNS names to probe, in order.
pub fn candidate_names(domain: &str, protocol: &Option<String>) -> (r: Vec<String>)
    ensures
        r@.map_values(|s: String| s@) == spec_candidates(
            domain@,
            (match *protocol {
                Option::Some(ref p) => Some(p@),
                Option::None => None,
            }),
        ),
{
    let alabel = domain_to_alabel(domain);
    let mut out: Vec<String> = Vec::new();
    match protocol {
        Some(p) => {
            let mut n1 = String::new();
            n1.append("_agent._");
            n1.append(p.as_str());
            n1.append(".");
            n1.append(alabel.as_str());
            let mut n2 = String::new();
            n2.append("_agent.");
            n2.append(p.as_str());
            n2.append(".");
            n2.append(alabel.as_str());
            let mut n3 = String::new();
            n3.append("_agent.");
            n3.append(alabel.as_str());
            proof {
                assert(n1@ =~= "_agent._"@ + p@ + "."@ + spec_alabel(domain@));
                assert(n2@ =~= "_agent."@ + p@ + "."@ + spec_alabel(domain@));
                assert(n3@ =~= "_agent."@ + spec_alabel(domain@));
            }
            out.push(n1);
            out.push(n2);
            out.push(n3);
            proof {
                assert(out@.map_values(|s: String| s@) =~= spec_candidates(domain@, Some(p@)));
            }
        },
        None => {
            let mut n = String::new();
            n.append("_agent.");
            n.append(alabel.as_str());
            proof {
                assert(n@ =~= "_agent."@ + spec_alabel(domain@));
            }
            out.push(n);
            proof {
                assert(out@.map_values(|s: String| s@) =~= spec_candidates(
                    domain@,
                    None::<Seq<char>>,
                ));
            }
        },
    }
    out
}

/// Whether a lookup error message, lowercased, names a missing record
/// rather than a transport failure.
pub open spec fn spec_is_no_record_msg(m: Seq<u8>) -> bool {
    let lm = lower_bytes(m);
    ||| find_sub(lm, ascii_seq("nxdomain"@), 0) < lm.len()
    ||| find_sub(lm, ascii_seq("no record"@), 0) < lm.len()
    ||| find_sub(lm, ascii_seq("no data"@), 0) < lm.len()
}

/// Classifies a DNS lookup error message: `true` means the name simply has
/// no record (`ERR_NO_RECORD`, keep probing), `false` a transport failure
/// (`ERR_DNS_LOOKUP_FAILED`, stop).
pub fn is_no_record_error(msg: &str) -> (r: bool)
    ensures
        r == spec_is_no_record_msg(msg.spec_bytes()),
{
    proof {
        reveal_strlit("nxdomain");
        reveal_strlit("no record");
        reveal_strlit("no data");
        lemma_ascii_encode("nxdomain"@);
        lemma_ascii_encode("no record"@);
        lemma_ascii_encode("no data"@);
        assert("nxdomain"@.len() == 8);
        assert("no record"@.len() == 9);
        assert("no data"@.len() == 7);
    }
    let mb = msg.as_bytes();
    let lm = lower_copy(mb, 0, mb.len());
    proof {
        assert(mb@.subrange(0, mb@.len() as int) =~= mb@);
        assert(lm@ == lower_bytes(msg.spec_bytes()));
        assert(lm@.subrange(0, lm@.len() as int) =~= lm@);
    }
    let a = find_sub_bytes(lm.as_slice(), 0, lm.len(), "nxdomain".as_bytes());
    if a < lm.len() {
        return true;
    }
    let b = find_sub_bytes(lm.as_slice(), 0, lm.len(), "no record".as_bytes());
    if b < lm.len() {
        return true;
    }
    let c = find_sub_bytes(lm.as_slice(), 0, lm.len(), "no data".as_bytes());
    c < lm.len()
}

/// The first TXT value that, trimmed, carries the `v=aid1` prefix
/// (case-insensitively) and parses as a record.
pub open spec fn spec_first_valid(ts: Seq<Seq<u8>>) -> Option<SpecRecord>
    decreases ts.len(),
{
    if ts.len() == 0 {
        None
    } else {
        let raw = trim_spec(ts[0]);
        if starts_with(lower_bytes(raw), ascii_seq("v=aid1"@)) && spec_parse(raw) is Ok {
            Some(spec_parse(raw)->Ok_0)
        } else {
            spec_first_valid(ts.drop_first())
        }
    }
}

/// Scans the TXT values of one DNS answer in order and parses the first
/// candidate record, exactly as `spec_first_valid` describes.
#[verifier::loop_isolation(false)]
pub fn first_valid_record(txts: &Vec<String>) -> (r: Option<AidRecord>)
    ensures
        ({
            let m = spec_first_valid(txts@.map_values(|s: String| encode_utf8(s@)));
            &&& (r is Some <==> m is Some)
            &&& (r matches Some(rec) ==> rec_models(rec, m->0))
        }),
{
    let ghost ts = txts@.map_values(|s: String| encode_utf8(s@));
    proof {
        reveal_strlit("v=aid1");
        lemma_ascii_encode("v=aid1"@);
        assert("v=aid1"@.len() == 6);
    }
    let n = txts.len();
    proof {
        assert(ts.skip(0) =~= ts);
    }
    let mut i: usize = 0;
    while i < n
        invariant
            0 <= i <= n == ts.len(),
            ts == txts@.map_values(|s: String| encode_utf8(s@)),
            spec_first_valid(ts) == spec_first_valid(ts.skip(i as int)),
        decreases n - i,
    {
        let ghost cur = ts.skip(i as int);
        proof {
            broadcast use group_utf8_lib;

            assert(cur[0] == ts[i as int]);
            assert(cur.drop_first() =~= ts.skip(i + 1));
            assert(valid_utf8(ts[i as int]));
        }
        let bytes = txts[i].as_str().as_bytes();
        let (a, z) = trim_range(bytes, 0, bytes.len());
        proof {
            assert(bytes@.subrange(0, bytes@.len() as int) =~= bytes@);
        }
        let lb = lower_copy(bytes, a, z);
        if starts_with_bytes(lb.as_slice(), "v=aid1".as_bytes()) {
            proof {
                if a == 0 {
                    lemma_boundary_at_ascii(ts[i as int], 0);
                } else {
                    assert(is_ws(bytes@[a - 1]));
                    lemma_boundary_after_ascii(ts[i as int], a as int);
                }
                if (z as int) < bytes@.len() {
                    assert(is_ws(bytes@[z as int]));
                }
                lemma_boundary_at_ascii(ts[i as int], z as int);
            }
            let raw = substr(txts[i].as_str(), a, z);
            proof {
                assert(encode_utf8(raw@) == trim_spec(ts[i as int]));
            }
            match parse(raw.as_str()) {
                Ok(rec) => {
                    return Some(rec);
                },
                Err(_) => {},
            }
        }
        i = i + 1;
    }
    proof {
        assert(ts.skip(n as int) =~= Seq::<Seq<u8>>::empty());
    }
    None
}

} // verus!
