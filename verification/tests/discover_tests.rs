use aid_rs::discover::{candidate_names, first_valid_record, is_no_record_error};
use aid_rs::well_known::check_well_known_response;

fn strings(of: &[&str]) -> Vec<String> {
    of.iter().map(|s| s.to_string()).collect()
}

#[test]
fn candidate_names_with_protocol() {
    let names = candidate_names("example.com", &Some("mcp".to_string()));
    assert_eq!(
        names,
        strings(&["_agent._mcp.example.com", "_agent.mcp.example.com", "_agent.example.com"])
    );
}

#[test]
fn candidate_names_without_protocol() {
    let names = candidate_names("example.com", &None);
    assert_eq!(names, strings(&["_agent.example.com"]));
}

#[test]
fn candidate_names_idna_converted() {
    let names = candidate_names("b\u{fc}cher.de", &None);
    assert_eq!(names, strings(&["_agent.xn--bcher-kva.de"]));
}

#[test]
fn dns_error_classification() {
    assert!(is_no_record_error("NXDOMAIN: name does not exist"));
    assert!(is_no_record_error("lookup returned No Record"));
    assert!(is_no_record_error("answer contained no data"));
    assert!(!is_no_record_error("connection timed out"));
    assert!(!is_no_record_error("server failure"));
}

#[test]
fn first_valid_record_scans_in_order() {
    let txts = strings(&[
        "spf=... unrelated txt",
        "v=aid2;uri=https://wrong-version;p=mcp",
        "  v=aid1;uri=https://first.example;p=mcp  ",
        "v=aid1;uri=https://second.example;p=mcp",
    ]);
    let rec = first_valid_record(&txts).unwrap();
    assert_eq!(rec.uri, "https://first.example");
}

#[test]
fn first_valid_record_prefix_case_insensitive() {
    let txts = strings(&["V=AID1;uri=https://x;p=mcp", "v=aid1;uri=https://y;p=mcp"]);
    // the first record matches the prefix but fails version validation,
    // so the scan moves on
    let rec = first_valid_record(&txts).unwrap();
    assert_eq!(rec.uri, "https://y");
}

#[test]
fn first_valid_record_none_when_nothing_parses() {
    let txts = strings(&["hello", "v=aid1;uri=https://x"]);
    assert!(first_valid_record(&txts).is_none());
}

#[test]
fn well_known_guards() {
    assert!(check_well_known_response("application/json", 100).is_ok());
    assert!(check_well_known_response("Application/JSON; charset=utf-8", 65536).is_ok());
    let err = check_well_known_response("text/plain", 100).unwrap_err();
    assert_eq!(err.error_code, "ERR_FALLBACK_FAILED");
    let err = check_well_known_response("application/json", 65537).unwrap_err();
    assert_eq!(err.error_code, "ERR_FALLBACK_FAILED");
    assert!(check_well_known_response("", 0).is_err());
}
