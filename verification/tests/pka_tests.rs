use aid_rs::pka::{
    build_signature_base, multibase_decode, parse_signature_headers, verify_handshake_headers,
};
use ed25519_dalek::{Signer, SigningKey};

fn keypair() -> (SigningKey, String) {
    let sk = SigningKey::from_bytes(&[7u8; 32]);
    let vk = sk.verifying_key();
    let pka = format!("z{}", bs58::encode(vk.to_bytes()).into_string());
    (sk, pka)
}

fn b64(bytes: &[u8]) -> String {
    base64::Engine::encode(&base64::engine::general_purpose::STANDARD, bytes)
}

fn build_base(
    order: &[&str],
    challenge: &str,
    method: &str,
    target: &str,
    host: &str,
    date: &str,
    created: i64,
    kid: &str,
    alg: &str,
) -> Vec<u8> {
    let mut lines = Vec::new();
    for item in order {
        match *item {
            "AID-Challenge" => lines.push(format!("\"AID-Challenge\": {}", challenge)),
            "@method" => lines.push(format!("\"@method\": {}", method)),
            "@target-uri" => lines.push(format!("\"@target-uri\": {}", target)),
            "host" => lines.push(format!("\"host\": {}", host)),
            "date" => lines.push(format!("\"date\": {}", date)),
            _ => {}
        }
    }
    let quoted = order.iter().map(|c| format!("\"{}\"", c)).collect::<Vec<_>>().join(" ");
    let params = format!("({});created={};keyid={};alg=\"{}\"", quoted, created, kid, alg);
    lines.push(format!("\"@signature-params\": {}", params));
    lines.join("\n").into_bytes()
}

const ORDER: [&str; 5] = ["AID-Challenge", "@method", "@target-uri", "host", "date"];
const URI: &str = "https://agent.example.com/mcp";
const HOST: &str = "agent.example.com";
const CHALLENGE: &str = "TESTCHAL";
const REQ_DATE: &str = "Thu, 01 Jan 2026 00:00:00 GMT";

fn sign_headers(
    sk: &SigningKey,
    order: &[&str],
    date: &str,
    created: i64,
    kid: &str,
) -> (String, String) {
    let base = build_base(order, CHALLENGE, "GET", URI, HOST, date, created, kid, "ed25519");
    let sig = sk.sign(&base);
    let sig_input = format!(
        "sig=(\"{}\");created={};keyid={};alg=\"ed25519\"",
        order.join("\" \""),
        created,
        kid
    );
    let sig_header = format!("sig=:{}:", b64(&sig.to_bytes()));
    (sig_input, sig_header)
}

#[test]
fn pka_valid_handshake_verifies() {
    let (sk, pka) = keypair();
    let created: i64 = 1700000000;
    let now: i64 = 1700000005;
    let (sig_input, sig_header) = sign_headers(&sk, &ORDER, REQ_DATE, created, "g1");
    let r = verify_handshake_headers(
        URI, HOST, &pka, "g1", CHALLENGE, REQ_DATE, &sig_input, &sig_header, &None, now,
    );
    assert!(r.is_ok());
}

#[test]
fn pka_fresh_response_date_verifies() {
    // "Thu, 01 Jan 2026 00:00:00 GMT" is unix time 1767225600
    let (sk, pka) = keypair();
    let now: i64 = 1767225600;
    let rd = "Thu, 01 Jan 2026 00:00:00 GMT".to_string();
    let (sig_input, sig_header) = sign_headers(&sk, &ORDER, &rd, now, "g1");
    let r = verify_handshake_headers(
        URI,
        HOST,
        &pka,
        "g1",
        CHALLENGE,
        "unused request date",
        &sig_input,
        &sig_header,
        &Some(rd),
        now,
    );
    assert!(r.is_ok());
}

#[test]
fn pka_kid_mismatch_fails() {
    let (sk, pka) = keypair();
    let now: i64 = 1700000000;
    let (sig_input, sig_header) = sign_headers(&sk, &ORDER, REQ_DATE, now, "g2");
    let r = verify_handshake_headers(
        URI, HOST, &pka, "g1", CHALLENGE, REQ_DATE, &sig_input, &sig_header, &None, now,
    );
    let err = r.unwrap_err();
    assert_eq!(err.error_code, "ERR_SECURITY");
    assert_eq!(err.code, 1003);
}

#[test]
fn pka_shrunk_covered_set_fails() {
    let (sk, pka) = keypair();
    let now: i64 = 1700000000;
    let order = ["AID-Challenge", "@method"];
    let (sig_input, sig_header) = sign_headers(&sk, &order, REQ_DATE, now, "g1");
    let r = verify_handshake_headers(
        URI, HOST, &pka, "g1", CHALLENGE, REQ_DATE, &sig_input, &sig_header, &None, now,
    );
    assert_eq!(r.unwrap_err().error_code, "ERR_SECURITY");
}

#[test]
fn pka_extra_covered_component_fails() {
    let (sk, pka) = keypair();
    let now: i64 = 1700000000;
    let order = ["AID-Challenge", "@method", "@target-uri", "host", "date", "extra"];
    let base = build_base(&order, CHALLENGE, "GET", URI, HOST, REQ_DATE, now, "g1", "ed25519");
    let sig = sk.sign(&base);
    let sig_input = format!(
        "sig=(\"{}\");created={};keyid=g1;alg=\"ed25519\"",
        order.join("\" \""),
        now
    );
    let sig_header = format!("sig=:{}:", b64(&sig.to_bytes()));
    let r = verify_handshake_headers(
        URI, HOST, &pka, "g1", CHALLENGE, REQ_DATE, &sig_input, &sig_header, &None, now,
    );
    assert_eq!(r.unwrap_err().error_code, "ERR_SECURITY");
}

#[test]
fn pka_stale_created_fails() {
    let (sk, pka) = keypair();
    let now: i64 = 1700000000;
    let created = now - 1000;
    let (sig_input, sig_header) = sign_headers(&sk, &ORDER, REQ_DATE, created, "g1");
    let r = verify_handshake_headers(
        URI, HOST, &pka, "g1", CHALLENGE, REQ_DATE, &sig_input, &sig_header, &None, now,
    );
    assert_eq!(r.unwrap_err().error_code, "ERR_SECURITY");
}

#[test]
fn pka_stale_response_date_fails() {
    let (sk, pka) = keypair();
    let now: i64 = 1767225600;
    let rd = "Wed, 01 Jan 2020 00:00:00 GMT".to_string();
    let (sig_input, sig_header) = sign_headers(&sk, &ORDER, &rd, now, "g1");
    let r = verify_handshake_headers(
        URI,
        HOST,
        &pka,
        "g1",
        CHALLENGE,
        REQ_DATE,
        &sig_input,
        &sig_header,
        &Some(rd),
        now,
    );
    assert_eq!(r.unwrap_err().error_code, "ERR_SECURITY");
}

#[test]
fn pka_unparseable_response_date_fails() {
    let (sk, pka) = keypair();
    let now: i64 = 1700000000;
    let rd = "not a date".to_string();
    let (sig_input, sig_header) = sign_headers(&sk, &ORDER, &rd, now, "g1");
    let r = verify_handshake_headers(
        URI,
        HOST,
        &pka,
        "g1",
        CHALLENGE,
        REQ_DATE,
        &sig_input,
        &sig_header,
        &Some(rd),
        now,
    );
    assert_eq!(r.unwrap_err().error_code, "ERR_SECURITY");
}

#[test]
fn pka_tampered_signature_fails() {
    let (sk, pka) = keypair();
    let now: i64 = 1700000000;
    let (sig_input, _) = sign_headers(&sk, &ORDER, REQ_DATE, now, "g1");
    let sig_header = format!("sig=:{}:", b64(&[0u8; 64]));
    let r = verify_handshake_headers(
        URI, HOST, &pka, "g1", CHALLENGE, REQ_DATE, &sig_input, &sig_header, &None, now,
    );
    assert_eq!(r.unwrap_err().error_code, "ERR_SECURITY");
}

#[test]
fn pka_wrong_key_length_fails() {
    let (sk, _) = keypair();
    let now: i64 = 1700000000;
    let short = format!("z{}", bs58::encode([1u8, 2, 3, 4, 5]).into_string());
    let (sig_input, sig_header) = sign_headers(&sk, &ORDER, REQ_DATE, now, "g1");
    let r = verify_handshake_headers(
        URI, HOST, &short, "g1", CHALLENGE, REQ_DATE, &sig_input, &sig_header, &None, now,
    );
    assert_eq!(r.unwrap_err().error_code, "ERR_SECURITY");
}

#[test]
fn pka_empty_kid_fails() {
    let (sk, pka) = keypair();
    let now: i64 = 1700000000;
    let (sig_input, sig_header) = sign_headers(&sk, &ORDER, REQ_DATE, now, "g1");
    let r = verify_handshake_headers(
        URI, HOST, &pka, "", CHALLENGE, REQ_DATE, &sig_input, &sig_header, &None, now,
    );
    assert_eq!(r.unwrap_err().error_code, "ERR_SECURITY");
}

#[test]
fn pka_quoted_keyid_verifies() {
    // a quoted keyid is compared with its quotes stripped, but enters the
    // signature base as received
    let (sk, pka) = keypair();
    let now: i64 = 1700000000;
    let base = build_base(&ORDER, CHALLENGE, "GET", URI, HOST, REQ_DATE, now, "\"g1\"", "ed25519");
    let sig = sk.sign(&base);
    let sig_input = format!(
        "sig=(\"{}\");created={};keyid=\"g1\";alg=\"ed25519\"",
        ORDER.join("\" \""),
        now
    );
    let sig_header = format!("sig=:{}:", b64(&sig.to_bytes()));
    let r = verify_handshake_headers(
        URI, HOST, &pka, "g1", CHALLENGE, REQ_DATE, &sig_input, &sig_header, &None, now,
    );
    assert!(r.is_ok());
}

#[test]
fn created_zero_parses_and_freshness_judges_it() {
    // `created=0` is a present, integral parameter: it parses, and the
    // freshness gate alone decides its fate
    let sig_header = format!("sig=:{}:", b64(&[1u8; 64]));
    let si = "sig=(\"AID-Challenge\" \"@method\" \"@target-uri\" \"host\" \"date\");created=0;keyid=g1;alg=\"ed25519\"";
    let info = parse_signature_headers(si, &sig_header).unwrap();
    assert_eq!(info.created, 0);

    // far from the created instant, the freshness gate rejects it
    let (sk, pka) = keypair();
    let (sig_input, sig_header) = sign_headers(&sk, &ORDER, REQ_DATE, 0, "g1");
    let r = verify_handshake_headers(
        URI, HOST, &pka, "g1", CHALLENGE, REQ_DATE, &sig_input, &sig_header, &None, 1700000000,
    );
    assert_eq!(r.unwrap_err().error_code, "ERR_SECURITY");

    // within the window it verifies: the value 0 itself is not a parse error
    let r = verify_handshake_headers(
        URI, HOST, &pka, "g1", CHALLENGE, REQ_DATE, &sig_input, &sig_header, &None, 100,
    );
    assert!(r.is_ok());
}

#[test]
fn missing_created_parameter_fails_parsing() {
    let sig_header = format!("sig=:{}:", b64(&[1u8; 64]));
    let si = "sig=(\"AID-Challenge\" \"@method\" \"@target-uri\" \"host\" \"date\");keyid=g1;alg=\"ed25519\"";
    assert!(parse_signature_headers(si, &sig_header).is_err());
    // an unparseable created value counts as absent
    let si = "sig=(\"AID-Challenge\" \"@method\" \"@target-uri\" \"host\" \"date\");created=soon;keyid=g1;alg=\"ed25519\"";
    assert!(parse_signature_headers(si, &sig_header).is_err());
}

#[test]
fn later_created_parameter_wins() {
    let sig_header = format!("sig=:{}:", b64(&[1u8; 64]));
    let si = "sig=(\"AID-Challenge\" \"@method\" \"@target-uri\" \"host\" \"date\");created=5;keyid=g1;alg=\"ed25519\";created=77";
    let info = parse_signature_headers(si, &sig_header).unwrap();
    assert_eq!(info.created, 77);
}

#[test]
fn multibase_decodes_z_prefix_only() {
    let bytes: Vec<u8> = (1u8..=32).collect();
    let encoded = format!("z{}", bs58::encode(&bytes).into_string());
    assert_eq!(multibase_decode(&encoded).unwrap(), bytes);

    let err = multibase_decode(&format!("m{}", bs58::encode(&bytes).into_string())).unwrap_err();
    assert_eq!(err.error_code, "ERR_SECURITY");
    assert_eq!(multibase_decode("").unwrap_err().error_code, "ERR_SECURITY");
    // 0, O, I and l are outside the base58 alphabet
    assert_eq!(multibase_decode("z0OIl").unwrap_err().error_code, "ERR_SECURITY");
}

#[test]
fn signature_headers_parsed_exactly() {
    let sig_bytes: Vec<u8> = (0u8..64).collect();
    let sig_input = format!(
        "sig=(\"AID-Challenge\" \"@method\" \"@target-uri\" \"host\" \"date\");created=1700000000;keyid=\"g1\";alg=\"Ed25519\""
    );
    let sig_header = format!("Sig=:{}:", b64(&sig_bytes));
    let info = parse_signature_headers(&sig_input, &sig_header).unwrap();
    assert_eq!(info.covered.len(), 5);
    assert_eq!(info.covered[0], "AID-Challenge");
    assert_eq!(info.covered[4], "date");
    assert_eq!(info.created, 1700000000);
    assert_eq!(info.keyid, "\"g1\"");
    assert_eq!(info.alg, "Ed25519");
    assert_eq!(info.signature, sig_bytes);
}

#[test]
fn signature_headers_missing_params_fail() {
    let sig_header = format!("sig=:{}:", b64(&[1u8; 64]));
    // no created
    let si = "sig=(\"AID-Challenge\" \"@method\" \"@target-uri\" \"host\" \"date\");keyid=g1;alg=\"ed25519\"";
    assert!(parse_signature_headers(si, &sig_header).is_err());
    // no keyid
    let si = "sig=(\"AID-Challenge\" \"@method\" \"@target-uri\" \"host\" \"date\");created=5;alg=\"ed25519\"";
    assert!(parse_signature_headers(si, &sig_header).is_err());
    // no alg
    let si = "sig=(\"AID-Challenge\" \"@method\" \"@target-uri\" \"host\" \"date\");created=5;keyid=g1";
    assert!(parse_signature_headers(si, &sig_header).is_err());
    // malformed signature value
    let si = "sig=(\"AID-Challenge\" \"@method\" \"@target-uri\" \"host\" \"date\");created=5;keyid=g1;alg=\"ed25519\"";
    assert!(parse_signature_headers(si, "sig=:???:").is_err());
    assert!(parse_signature_headers(si, "nothing here").is_err());
}

#[test]
fn base_reconstruction_is_canonical() {
    let covered: Vec<String> = ORDER.iter().map(|s| s.to_string()).collect();
    let built = build_signature_base(
        &covered,
        1700000000,
        "g1",
        "ed25519",
        "GET",
        URI,
        HOST,
        REQ_DATE,
        CHALLENGE,
    );
    let expected = String::from_utf8(build_base(
        &ORDER, CHALLENGE, "GET", URI, HOST, REQ_DATE, 1700000000, "g1", "ed25519",
    ))
    .unwrap();
    assert_eq!(built, expected);
}

#[test]
fn base_with_unknown_component_is_empty() {
    let covered: Vec<String> = vec!["AID-Challenge".to_string(), "mystery".to_string()];
    let built = build_signature_base(
        &covered, 1, "g1", "ed25519", "GET", URI, HOST, REQ_DATE, CHALLENGE,
    );
    assert_eq!(built, "");
}
