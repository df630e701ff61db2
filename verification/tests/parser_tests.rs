use aid_rs::parse;
use aid_rs::well_known::canonicalize_to_txt;

#[test]
fn invalid_cases_error_codes() {
    let err = parse("uri=https://x;p=mcp").unwrap_err();
    assert_eq!(err.error_code, "ERR_INVALID_TXT");

    let err = parse("v=aid1;uri=https://x;proto=mcp;p=mcp").unwrap_err();
    assert_eq!(err.error_code, "ERR_INVALID_TXT");

    let err = parse("v=aid1;uri=https://x;p=foo").unwrap_err();
    assert_eq!(err.error_code, "ERR_UNSUPPORTED_PROTO");

    let long_desc = "a".repeat(61);
    let err = parse(&format!("v=aid1;uri=https://x;p=mcp;desc={}", long_desc)).unwrap_err();
    assert_eq!(err.error_code, "ERR_INVALID_TXT");
}

#[test]
fn minimal_valid_record() {
    let rec = parse("v=aid1;uri=https://x;proto=mcp").unwrap();
    assert_eq!(rec.v, "aid1");
    assert_eq!(rec.uri, "https://x");
    assert_eq!(rec.proto, "mcp");
    assert_eq!(rec.auth, None);
    assert_eq!(rec.desc, None);
    assert_eq!(rec.docs, None);
    assert_eq!(rec.dep, None);
    assert_eq!(rec.pka, None);
    assert_eq!(rec.kid, None);
}

#[test]
fn aliases_and_whitespace() {
    let rec = parse(" v = aid1 ; u = https://x ; p = mcp ; a = pat ").unwrap();
    assert_eq!(rec.uri, "https://x");
    assert_eq!(rec.proto, "mcp");
    assert_eq!(rec.auth, Some("pat".to_string()));
}

#[test]
fn keys_case_insensitive_values_preserved() {
    let rec = parse("V=aid1;URI=https://X/Path;Proto=mcp;DESC=Hello World").unwrap();
    assert_eq!(rec.uri, "https://X/Path");
    assert_eq!(rec.desc, Some("Hello World".to_string()));
}

#[test]
fn unknown_keys_ignored() {
    let base = parse("v=aid1;uri=https://x;proto=mcp").unwrap();
    let extended = parse("v=aid1;uri=https://x;proto=mcp;future=thing").unwrap();
    assert_eq!(base, extended);
}

#[test]
fn duplicate_same_alias_rejected() {
    let err = parse("v=aid1;uri=https://x;p=mcp;uri=https://y").unwrap_err();
    assert_eq!(err.error_code, "ERR_INVALID_TXT");
    let err = parse("v=aid1;u=https://x;u=https://y;p=mcp").unwrap_err();
    assert_eq!(err.error_code, "ERR_INVALID_TXT");
}

#[test]
fn duplicate_alias_pairs_rejected() {
    for txt in [
        "v=aid1;uri=https://x;u=https://y;p=mcp",
        "v=aid1;uri=https://x;p=mcp;auth=pat;a=none",
        "v=aid1;uri=https://x;p=mcp;desc=a;s=b",
        "v=aid1;uri=https://x;p=mcp;docs=https://d/x;d=https://d/y",
        "v=aid1;uri=https://x;p=mcp;dep=2030-01-01T00:00:00Z;e=2031-01-01T00:00:00Z",
        "v=aid1;uri=https://x;p=mcp;pka=zabc;k=zdef;kid=g1",
        "v=aid1;uri=https://x;p=mcp;pka=zabc;kid=g1;i=g2",
    ] {
        let err = parse(txt).unwrap_err();
        assert_eq!(err.error_code, "ERR_INVALID_TXT", "input: {}", txt);
    }
}

#[test]
fn missing_required_fields() {
    assert_eq!(parse("uri=https://x;p=mcp").unwrap_err().error_code, "ERR_INVALID_TXT");
    assert_eq!(parse("v=aid1;p=mcp").unwrap_err().error_code, "ERR_INVALID_TXT");
    assert_eq!(parse("v=aid1;uri=https://x").unwrap_err().error_code, "ERR_INVALID_TXT");
    assert_eq!(parse("v=aid2;uri=https://x;p=mcp").unwrap_err().error_code, "ERR_INVALID_TXT");
}

#[test]
fn segment_shape_errors() {
    // a segment without `=`
    assert_eq!(parse("v=aid1;uri=https://x;p=mcp;junk").unwrap_err().error_code, "ERR_INVALID_TXT");
    // empty key and empty value
    assert_eq!(parse("v=aid1;=x;uri=https://x;p=mcp").unwrap_err().error_code, "ERR_INVALID_TXT");
    assert_eq!(parse("v=aid1;uri=;p=mcp").unwrap_err().error_code, "ERR_INVALID_TXT");
    // empty segments are skipped
    assert!(parse(";;v=aid1;;uri=https://x;p=mcp;;").is_ok());
}

#[test]
fn desc_byte_budget() {
    let desc60 = "a".repeat(60);
    assert!(parse(&format!("v=aid1;uri=https://x;p=mcp;desc={}", desc60)).is_ok());
    // multi-byte characters count in bytes: 31 two-byte characters exceed 60
    let wide = "\u{e9}".repeat(31);
    let err = parse(&format!("v=aid1;uri=https://x;p=mcp;desc={}", wide)).unwrap_err();
    assert_eq!(err.error_code, "ERR_INVALID_TXT");
    let wide30 = "\u{e9}".repeat(30);
    assert!(parse(&format!("v=aid1;uri=https://x;p=mcp;desc={}", wide30)).is_ok());
}

#[test]
fn docs_and_dep_checks() {
    assert!(parse("v=aid1;uri=https://x;p=mcp;docs=https://docs.example/a").is_ok());
    assert_eq!(
        parse("v=aid1;uri=https://x;p=mcp;docs=http://docs.example/a").unwrap_err().error_code,
        "ERR_INVALID_TXT"
    );
    // https:// but no host separator after the scheme
    assert_eq!(
        parse("v=aid1;uri=https://x;p=mcp;docs=https://nodots").unwrap_err().error_code,
        "ERR_INVALID_TXT"
    );
    assert!(parse("v=aid1;uri=https://x;p=mcp;dep=2030-01-01T00:00:00Z").is_ok());
    assert_eq!(
        parse("v=aid1;uri=https://x;p=mcp;dep=2030-01-01T00:00:00").unwrap_err().error_code,
        "ERR_INVALID_TXT"
    );
}

#[test]
fn uri_scheme_per_protocol() {
    // remote protocols need https
    assert_eq!(
        parse("v=aid1;uri=http://x;p=mcp").unwrap_err().error_code,
        "ERR_INVALID_TXT"
    );
    // local accepts other schemes
    assert!(parse("v=aid1;uri=docker:alpine;p=local").is_ok());
    // websocket needs wss, zeroconf its own scheme
    assert!(parse("v=aid1;uri=wss://x/socket;p=websocket").is_ok());
    assert_eq!(
        parse("v=aid1;uri=https://x;p=websocket").unwrap_err().error_code,
        "ERR_INVALID_TXT"
    );
    assert!(parse("v=aid1;uri=zeroconf:svc;p=zeroconf").is_ok());
    assert_eq!(
        parse("v=aid1;uri=https://x;p=zeroconf").unwrap_err().error_code,
        "ERR_INVALID_TXT"
    );
}

#[test]
fn auth_token_checked() {
    assert!(parse("v=aid1;uri=https://x;p=mcp;auth=oauth2_device").is_ok());
    assert_eq!(
        parse("v=aid1;uri=https://x;p=mcp;auth=password").unwrap_err().error_code,
        "ERR_INVALID_TXT"
    );
}

#[test]
fn all_protocol_tokens_accepted() {
    for p in ["mcp", "a2a", "openapi", "grpc", "graphql"] {
        let rec = parse(&format!("v=aid1;uri=https://x;p={}", p)).unwrap();
        assert_eq!(rec.proto, p);
    }
    assert!(parse("v=aid1;uri=docker:x;p=local").is_ok());
    assert!(parse("v=aid1;uri=wss://x;p=websocket").is_ok());
    assert!(parse("v=aid1;uri=zeroconf:x;p=zeroconf").is_ok());
}

#[test]
fn all_auth_tokens_accepted() {
    for a in ["none", "pat", "apikey", "basic", "oauth2_device", "oauth2_code", "mtls", "custom"] {
        let rec = parse(&format!("v=aid1;uri=https://x;p=mcp;a={}", a)).unwrap();
        assert_eq!(rec.auth.as_deref(), Some(a));
    }
}

#[test]
fn numeric_error_codes() {
    assert_eq!(parse("uri=https://x;p=mcp").unwrap_err().code, 1001);
    assert_eq!(parse("v=aid1;uri=https://x;p=foo").unwrap_err().code, 1002);
}

#[test]
fn parse_is_deterministic() {
    let a = parse("v=aid1;uri=https://x;proto=mcp;desc=twice").unwrap();
    let b = parse("v=aid1;uri=https://x;proto=mcp;desc=twice").unwrap();
    assert_eq!(a, b);
}

fn pairs(of: &[(&str, &str)]) -> Vec<(String, String)> {
    of.iter().map(|(k, v)| (k.to_string(), v.to_string())).collect()
}

#[test]
fn canonical_round_trip() {
    let rec = parse(
        "v=aid1;uri=https://api.example.com/mcp;proto=mcp;auth=pat;desc=An agent;docs=https://docs.example.com/a;dep=2030-01-01T00:00:00Z;pka=zFoo;kid=g1",
    )
    .unwrap();
    let p = pairs(&[
        ("v", "aid1"),
        ("uri", "https://api.example.com/mcp"),
        ("proto", "mcp"),
        ("auth", "pat"),
        ("desc", "An agent"),
        ("docs", "https://docs.example.com/a"),
        ("dep", "2030-01-01T00:00:00Z"),
        ("pka", "zFoo"),
        ("kid", "g1"),
    ]);
    let txt = canonicalize_to_txt(&p);
    let rec2 = parse(&txt).unwrap();
    assert_eq!(rec, rec2);
}

#[test]
fn canonicalize_resolves_aliases_and_drops_empties() {
    let p = pairs(&[
        ("u", "https://x"),
        ("v", "aid1"),
        ("p", "mcp"),
        ("s", "  "),
        ("a", " pat "),
        ("ignored", "zzz"),
    ]);
    let txt = canonicalize_to_txt(&p);
    assert_eq!(txt, "v=aid1;uri=https://x;proto=mcp;auth=pat");
    let rec = parse(&txt).unwrap();
    assert_eq!(rec.uri, "https://x");
    assert_eq!(rec.auth, Some("pat".to_string()));
    assert_eq!(rec.desc, None);
}

#[test]
fn canonicalize_mixed_aliases_round_trip() {
    // a JSON form mixing long keys and short aliases per field reparses to
    // the same record as the original text
    let rec = parse(
        "v=aid1;uri=https://api.example.com/a2a;proto=a2a;auth=mtls;desc=Mixed;kid=g7;pka=zKey",
    )
    .unwrap();
    let p = pairs(&[
        ("v", "aid1"),
        ("uri", "https://api.example.com/a2a"),
        ("p", "a2a"),
        ("auth", "mtls"),
        ("s", "Mixed"),
        ("i", "g7"),
        ("k", "zKey"),
    ]);
    let rec2 = parse(&canonicalize_to_txt(&p)).unwrap();
    assert_eq!(rec, rec2);
}

#[test]
fn canonicalize_prefers_long_names() {
    let p = pairs(&[("v", "aid1"), ("uri", "https://long"), ("u", "https://short"), ("p", "mcp")]);
    let txt = canonicalize_to_txt(&p);
    assert_eq!(txt, "v=aid1;uri=https://long;proto=mcp");
}
