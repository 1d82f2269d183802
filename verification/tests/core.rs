use reqord::query::Parser;
use reqord::record::Rec;

fn mkline(parts: &[&str]) -> String {
    parts.join("\u{1}")
}

fn feed(p: &mut Parser, parts: &[&str]) {
    let line = mkline(parts);
    p.parse_line(&line, "", "");
}

fn feed_sgn(p: &mut Parser, parts: &[&str], log: &str, sgn: &str) {
    let line = mkline(parts);
    p.parse_line(&line, log, sgn);
}

/// A store with one request family `TA` (field `f`, session, kind,
/// broker/account fields) and one order family `TB` (fields `g`,
/// `OrdNo`, `OrderSt`, `ReqStep`).
fn sample_parser() -> Parser {
    let mut p = Parser::new();
    // header records: every token names the field at its position
    feed(&mut p, &["Req", "-", "TA", "Timestamp", "ReqKind", "f", "SorRID", "SesName", "BrkNo",
        "IvacNo", "FromUID", "User"]);
    feed(&mut p, &["Ord", "-", "TB", "Timestamp", "ReqKey", "g", "OrdNo", "OrderSt", "ReqStep"]);
    p
}

#[test]
fn schema_round_trip_resolves_by_name() {
    let mut p = Parser::new();
    feed(&mut p, &["Req", "-", "T", "A", "B", "C"]);
    let rec = Rec {
        toks: vec!["Req".to_string(), "r1".to_string(), "T".to_string(), "x".to_string(),
            "y".to_string(), "z".to_string()],
        line: String::new(),
        log: String::new(),
        linked: false,
        digsgn: String::new(),
    };
    assert_eq!(p.ord_rec.get_value(&rec, "B"), "y");
    assert_eq!(p.ord_rec.get_value(&rec, "A"), "x");
    assert_eq!(p.ord_rec.get_value(&rec, "C"), "z");
    // unknown field and unknown table read as empty, never fail
    assert_eq!(p.ord_rec.get_value(&rec, "D"), "");
    let stray = Rec {
        toks: vec!["Req".to_string(), "r2".to_string(), "U".to_string()],
        line: String::new(),
        log: String::new(),
        linked: false,
        digsgn: String::new(),
    };
    assert_eq!(p.ord_rec.get_value(&stray, "A"), "");
}

#[test]
fn header_overwrites_previous_schema() {
    let mut p = Parser::new();
    feed(&mut p, &["Req", "-", "T", "A", "B"]);
    feed(&mut p, &["Req", "-", "T", "C", "D"]);
    let rec = Rec {
        toks: vec!["Req".to_string(), "r1".to_string(), "T".to_string(), "x".to_string(),
            "y".to_string()],
        line: String::new(),
        log: String::new(),
        linked: false,
        digsgn: String::new(),
    };
    assert_eq!(p.ord_rec.get_value(&rec, "C"), "x");
    assert_eq!(p.ord_rec.get_value(&rec, "D"), "y");
    // the old name was dropped with the old schema, not merged
    assert_eq!(p.ord_rec.get_value(&rec, "A"), "");
}

#[test]
fn chain_interleaving() {
    let mut p = sample_parser();
    feed(&mut p, &["Req", "R1", "TA", "1.0", "1", "v"]);
    feed(&mut p, &["Ord", "K1", "TB", "2.0", "R1", "g1", "N1", "6", "1"]);
    feed(&mut p, &["Ord", "K1", "TB", "3.0", "R1", "g1", "N1", "7", "1"]);
    feed(&mut p, &["Ord", "K1", "TB", "4.0", "R1", "g1", "N1", "90", "1"]);
    {
        let chain = p.ord_rec.get_target_ordlist("K1");
        let kinds: Vec<&str> = chain.iter().map(|r| r.get_field(0)).collect();
        assert_eq!(kinds, vec!["Req", "Ord", "Ord", "Ord"]);
        assert_eq!(chain[0].get_field(1), "R1");
    }
    feed(&mut p, &["Req", "R2", "TA", "5.0", "2", "w"]);
    feed(&mut p, &["Ord", "K1", "TB", "6.0", "R2", "g1", "N1", "110", "1"]);
    let chain = p.ord_rec.get_target_ordlist("K1");
    let kinds: Vec<&str> = chain.iter().map(|r| r.get_field(0)).collect();
    assert_eq!(kinds, vec!["Req", "Ord", "Ord", "Ord", "Req", "Ord"]);
    assert_eq!(chain[4].get_field(1), "R2");
}

#[test]
fn chain_missing_request_slot_omitted() {
    let mut p = sample_parser();
    feed(&mut p, &["Ord", "K1", "TB", "2.0", "RX", "g1", "N1", "6", "1"]);
    let chain = p.ord_rec.get_target_ordlist("K1");
    assert_eq!(chain.len(), 1);
    assert_eq!(chain[0].get_field(0), "Ord");
}

#[test]
fn status_derivation_peak_and_pairing() {
    let mut p = sample_parser();
    feed(&mut p, &["Req", "R1", "TA", "1.0", "1", "v", "SER42"]);
    feed(&mut p, &["Ord", "K1", "TB", "2.0", "R1", "g1", "N777", "6", "1"]);
    feed(&mut p, &["Ord", "K1", "TB", "3.0", "R1", "g1", "N777", "90", "1"]);
    feed(&mut p, &["Ord", "K1", "TB", "4.0", "R1", "g1", "N777", "111", "10"]);
    let chain = p.ord_rec.get_target_ordlist("K1");
    let info = p.ord_rec.get_ord_summary(&chain);
    assert_eq!(info.rid, "SER42");
    assert_eq!(info.ordno, "N777");
    // peak 111 pairs with request step 10; 10 has no label of its own
    assert_eq!(info.status, "unknown/full-fill");
}

#[test]
fn status_equal_peak_keeps_first_pairing() {
    let mut p = sample_parser();
    feed(&mut p, &["Ord", "K1", "TB", "2.0", "RX", "g1", "N1", "90", "6"]);
    feed(&mut p, &["Ord", "K1", "TB", "3.0", "RX", "g1", "N1", "90", "7"]);
    let chain = p.ord_rec.get_target_ordlist("K1");
    let info = p.ord_rec.get_ord_summary(&chain);
    // the second 90 does not strictly exceed the first: pairing stays
    assert_eq!(info.status, "sending/accepted-success");
}

#[test]
fn and_or_semantics() {
    let mut p = sample_parser();
    feed(&mut p, &["Req", "R1", "TA", "1.0", "1", "1"]);
    feed(&mut p, &["Req", "R2", "TA", "2.0", "1", "2"]);
    feed(&mut p, &["Req", "R3", "TA", "3.0", "1", "9"]);
    feed(&mut p, &["Ord", "K1", "TB", "4.0", "R1", "3", "N1", "6", "1"]);
    feed(&mut p, &["Ord", "K2", "TB", "5.0", "R2", "7", "N2", "6", "1"]);
    feed(&mut p, &["Ord", "K3", "TB", "6.0", "R3", "3", "N3", "6", "1"]);
    // the OR group finds R1's and R2's chains; the AND group keeps only
    // chains whose leading key also leads a g=3 hit
    let r = p.find_by_conditions("TA:f:1|TA:f:2,TB:g:3").expect("two evaluable groups with a hit");
    assert_eq!(r.len(), 1);
    assert_eq!(r[0][0].get_field(1), "R1");
    // a union alone
    let r2 = p.find_by_conditions("TA:f:1|TA:f:2").expect("one evaluable group");
    assert_eq!(r2.len(), 2);
    // an empty second group discards everything
    assert!(p.find_by_conditions("TA:f:1|TA:f:2,TB:g:99").is_none());
    // a condition with no evaluable term matches nothing
    assert!(p.find_by_conditions("bogus").is_none());
    // malformed terms are skipped, the rest still evaluates
    let r3 = p.find_by_conditions("nonsense|TA:f:1").expect("the well-formed term evaluates");
    assert_eq!(r3.len(), 1);
}

#[test]
fn union_deduplicates_by_order_key() {
    let mut p = sample_parser();
    feed(&mut p, &["Req", "R1", "TA", "1.0", "1", "1"]);
    feed(&mut p, &["Req", "R2", "TA", "2.0", "1", "2"]);
    // both requests lead to the same order
    feed(&mut p, &["Ord", "K1", "TB", "3.0", "R1", "3", "N1", "6", "1"]);
    feed(&mut p, &["Ord", "K1", "TB", "4.0", "R2", "3", "N1", "7", "1"]);
    let r = p.find_by_conditions("TA:f:1|TA:f:2").expect("evaluable");
    // one chain, not two: first occurrence wins
    assert_eq!(r.len(), 1);
}

#[test]
fn distinct_value_count() {
    let mut p = sample_parser();
    feed(&mut p, &["Req", "R1", "TA", "1.0", "1", "v", "s", "x", "b", "i", "u", "u1"]);
    feed(&mut p, &["Req", "R2", "TA", "2.0", "1", "v", "s", "x", "b", "i", "u", "u1"]);
    feed(&mut p, &["Req", "R3", "TA", "3.0", "1", "v", "s", "x", "b", "i", "u", "u2"]);
    feed(&mut p, &["Req", "R4", "TA", "4.0", "1", "v", "s", "x", "b", "i", "u", ""]);
    feed(&mut p, &["Req", "R5", "TA", "5.0", "1", "v", "s", "x", "b", "i", "u", "u3"]);
    let vals = p.ord_rec.distinct_values_at("TA", 11);
    assert_eq!(vals, vec!["u1".to_string(), "u2".to_string(), "u3".to_string()]);
    let by_name = p.ord_rec.distinct_field_values("TA", "User").expect("known field");
    assert_eq!(by_name, vals);
    assert!(p.ord_rec.distinct_field_values("TA", "nope").is_none());
    assert!(p.ord_rec.distinct_field_values("TX", "User").is_none());
    let text = p.statistic_field("TA", "User");
    assert_eq!(text, "there are totally 3 User of TA:\nu1\nu2\nu3\n");
    // unknown field and unknown table have their own complaints
    assert_eq!(p.statistic_field("TA", "nope"), "there is no nope field");
    assert_eq!(p.statistic_field("TX", "User"), "there is no TX table");
}

#[test]
fn request_reinsertion_replaces() {
    let mut p = sample_parser();
    feed(&mut p, &["Req", "R1", "TA", "1.0", "1", "old"]);
    feed(&mut p, &["Req", "R1", "TA", "2.0", "1", "new"]);
    assert_eq!(p.ord_rec.reqs.len(), 1);
    let found = p.find_by_conditions("TA:f:new");
    assert!(found.is_none() || found.unwrap().is_empty() == false);
}

#[test]
fn correlation_conflict_is_recorded_not_fatal() {
    let mut p = sample_parser();
    feed(&mut p, &["Req", "R1", "TA", "1.0", "1", "v"]);
    feed(&mut p, &["Ord", "K1", "TB", "2.0", "R1", "g", "N1", "6", "1"]);
    assert_eq!(p.ord_rec.conflicts.len(), 0);
    feed(&mut p, &["Ord", "K2", "TB", "3.0", "R1", "g", "N2", "6", "1"]);
    assert_eq!(p.ord_rec.conflicts.len(), 1);
    assert_eq!(p.ord_rec.conflicts[0].0, "R1");
    assert_eq!(p.ord_rec.conflicts[0].1, "K1");
    // the newest mapping won: a request match now leads to K2
    let r = p.ord_rec.check_rec(
        &Rec {
            toks: vec!["Req".to_string(), "R1".to_string(), "TA".to_string(), "1.0".to_string(),
                "1".to_string(), "v".to_string()],
            line: String::new(),
            log: String::new(),
            linked: false,
            digsgn: String::new(),
        },
        "TA",
        5,
        "v",
    );
    assert_eq!(r, Some("K2".to_string()));
}

#[test]
fn uncorrelated_request_matches_nothing() {
    let p = sample_parser();
    let rec = Rec {
        toks: vec!["Req".to_string(), "R9".to_string(), "TA".to_string(), "1.0".to_string(),
            "1".to_string(), "v".to_string()],
        line: String::new(),
        log: String::new(),
        linked: false,
        digsgn: String::new(),
    };
    // the request was never correlated: the lookup failure stays local
    assert_eq!(p.ord_rec.check_rec(&rec, "TA", 5, "v"), None);
}

#[test]
fn linked_flag_and_unlink_report() {
    let mut p = sample_parser();
    feed(&mut p, &["Req", "R1", "TA", "1.0", "1", "v"]);
    feed(&mut p, &["Req", "R2", "TA", "2.0", "1", "w"]);
    feed(&mut p, &["Ord", "K1", "TB", "3.0", "R1", "g", "N1", "6", "1"]);
    let report = p.list_unlink_req();
    assert!(report.starts_with("count:1\n"));
    assert!(report.contains("reqkey:R2"));
    assert!(!report.contains("reqkey:R1"));
}

#[test]
fn info_banner_counts() {
    let mut p = sample_parser();
    feed(&mut p, &["Req", "R1", "TA", "1.0", "10", "v"]);
    feed(&mut p, &["Req", "R2", "TA", "2.0", "11", "v"]);
    feed(&mut p, &["Req", "R3", "TA", "3.0", "1", "v"]);
    feed(&mut p, &["Ord", "K1", "TB", "4.0", "R3", "g", "N1", "99", "1"]);
    let info = p.get_info();
    assert_eq!(info, "tables:\t2\nreqs:\t3\nords:\t1\ndeals:\t2\ninvalid:\t1\n");
    // cached on the second call
    assert_eq!(p.get_info(), info);
}

#[test]
fn audit_line_exact_format() {
    let mut p = sample_parser();
    feed_sgn(&mut p, &["Req", "R1", "TA", "1.0", "1", "v", "s", "SorAPI", "9000", "123",
        "alice"], "", "SIG1");
    let req = Rec {
        toks: vec!["Req".to_string(), "R1".to_string(), "TA".to_string(), "1.0".to_string(),
            "1".to_string(), "v".to_string(), "s".to_string(), "SorAPI".to_string(),
            "9000".to_string(), "123".to_string(), "alice".to_string()],
        line: String::new(),
        log: String::new(),
        linked: false,
        digsgn: "SIG1".to_string(),
    };
    let line = p.ord_rec.audit_entry("R1", &req, "20240101", "093000");
    assert_eq!(line, "|20240101|9000|0000123|O|          alice|093000|SIG1\n");
    // a cancel maps to C, changes map to M
    let mut req4 = req;
    req4.toks[4] = "4".to_string();
    let line4 = p.ord_rec.audit_entry("R1", &req4, "20240101", "093000");
    assert!(line4.contains("|C|"));
    req4.toks[4] = "2".to_string();
    assert!(p.ord_rec.audit_entry("R1", &req4, "20240101", "093000").contains("|M|"));
    req4.toks[4] = "3".to_string();
    assert!(p.ord_rec.audit_entry("R1", &req4, "20240101", "093000").contains("|M|"));
    // an unknown kind never produces an audit line
    req4.toks[4] = "5".to_string();
    assert_eq!(p.ord_rec.audit_entry("R1", &req4, "20240101", "093000"), "");
}

#[test]
fn audit_kind_five_never_emits() {
    let mut p = sample_parser();
    feed_sgn(&mut p, &["Req", "R1", "TA", "1700000000.0", "5", "v", "s", "SorAPI", "9000", "123",
        "kindfiveuser"], "", "SIG1");
    let out = p.get_pki_output();
    assert!(!out.contains("kindfiveuser"));
    assert_eq!(out, "");
}

#[test]
fn audit_fallback_fills_and_pads_account() {
    let mut p = sample_parser();
    // the order's first request carries the account number
    feed_sgn(&mut p, &["Req", "R1", "TA", "1700000000.0", "1", "v", "s", "SorAPI", "9000", "123",
        "alice"], "", "SIG1");
    feed(&mut p, &["Ord", "K1", "TB", "1700000001.0", "R1", "g", "N1", "6", "1"]);
    // a later request on the same order has an empty account
    feed_sgn(&mut p, &["Req", "R2", "TA", "1700000002.0", "1", "v", "s", "SorAPI", "9000", "",
        "bob"], "", "SIG2");
    feed(&mut p, &["Ord", "K1", "TB", "1700000003.0", "R2", "g", "N1", "7", "1"]);
    let chains = p.find_by_conditions("TA:f:v").expect("hits");
    let out = p.get_pki_output_from_search(&chains);
    // bob's line borrowed the account of the chain's first request,
    // zero-padded to seven digits
    let bob_line = out.lines().find(|l| l.contains("bob")).expect("a line for bob");
    assert!(bob_line.contains("|0000123|"));
    assert!(bob_line.ends_with("|SIG2"));
}

#[test]
fn audit_search_variant_filters_session() {
    let mut p = sample_parser();
    feed_sgn(&mut p, &["Req", "R1", "TA", "1700000000.0", "1", "v", "s", "OtherGw", "9000", "123",
        "carol"], "", "SIG1");
    feed(&mut p, &["Ord", "K1", "TB", "1700000001.0", "R1", "g", "N1", "6", "1"]);
    let chains = p.find_by_conditions("TA:f:v").expect("hits");
    // the query-result sweep rejects sessions other than the gateway
    assert_eq!(p.get_pki_output_from_search(&chains), "");
    // the all-requests sweep applies no session filter
    let all = p.get_pki_output();
    assert!(all.contains("carol"));
}

#[test]
fn find_list_refines_previous_results() {
    let mut p = sample_parser();
    feed(&mut p, &["Req", "R1", "TA", "1.0", "1", "1"]);
    feed(&mut p, &["Req", "R2", "TA", "2.0", "1", "2"]);
    feed(&mut p, &["Ord", "K1", "TB", "3.0", "R1", "3", "N1", "6", "1"]);
    feed(&mut p, &["Ord", "K2", "TB", "4.0", "R2", "7", "N2", "6", "1"]);
    let first = p.find_by_conditions("TA:f:1|TA:f:2").expect("hits");
    assert_eq!(first.len(), 2);
    let refined = p.ord_rec.find_list(first, "TB", "g", "3").expect("always produced");
    assert_eq!(refined.len(), 1);
    assert_eq!(refined[0][0].get_field(1), "R1");
    // an unknown table refines to nothing
    let first2 = p.find_by_conditions("TA:f:1").expect("hits");
    let refined2 = p.ord_rec.find_list(first2, "TX", "g", "3").expect("always produced");
    assert_eq!(refined2.len(), 0);
}

#[test]
fn find_by_field_dispatches_on_declared_kind() {
    let mut p = sample_parser();
    feed(&mut p, &["Req", "R1", "TA", "1.0", "1", "1"]);
    feed(&mut p, &["Ord", "K1", "TB", "3.0", "R1", "3", "N1", "6", "1"]);
    assert!(p.find_by_field("TA", "f", "1").is_some());
    assert!(p.find_by_field("TB", "g", "3").is_some());
    assert!(p.find_by_field("TA", "nope", "1").is_none());
    assert!(p.find_by_field("TX", "f", "1").is_none());
}

#[test]
fn short_lines_are_ignored() {
    let mut p = Parser::new();
    p.parse_line("just an annotation-looking line", "", "");
    p.parse_line(&mkline(&["Req", "R1", "TA"]), "", "");
    let info = p.get_info();
    assert_eq!(info, "tables:\t0\nreqs:\t0\nords:\t0\ndeals:\t0\ninvalid:\t0\n");
}

#[test]
fn unknown_record_kind_changes_nothing() {
    let mut p = sample_parser();
    let r = p.ord_rec.insert_rec(
        vec!["Xyz".to_string(), "K".to_string(), "T".to_string(), "1.0".to_string()],
        "",
        "",
        "",
    );
    assert_eq!(r.0, "");
    assert_eq!(r.1, "");
    assert_eq!(p.ord_rec.reqs.len(), 0);
    assert_eq!(p.ord_rec.ords.len(), 0);
}

#[test]
fn audit_all_sweep_pads_empty_account() {
    let mut p = sample_parser();
    // the all-requests sweep reads only the order's transitions for a
    // backup, and transitions are never request records: an empty
    // account stays empty and pads to seven zeros
    feed_sgn(&mut p, &["Req", "R1", "TA", "1700000000.0", "1", "v", "s", "SorAPI", "9000", "",
        "dave"], "", "SIG1");
    feed(&mut p, &["Ord", "K1", "TB", "1700000001.0", "R1", "g", "N1", "6", "1"]);
    let out = p.get_pki_output();
    let line = out.lines().find(|l| l.contains("dave")).expect("a line for dave");
    assert!(line.contains("|0000000|"));
}
