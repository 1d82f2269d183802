use reqord::dirscan::is_date_directory;
use reqord::query::Parser;
use reqord::record::{classify_line, LineType, ReadAcc};
use reqord::strutil::{parse_i64, split_char, trim_str, u64_to_string, i64_to_string, pad_left};
use reqord::summary::describe_status;
use reqord::timefmt::{civil_from_days, format_datetime};

#[test]
fn parse_decimal_integers() {
    assert_eq!(parse_i64("0"), Some(0));
    assert_eq!(parse_i64("007"), Some(7));
    assert_eq!(parse_i64("+5"), Some(5));
    assert_eq!(parse_i64("-12"), Some(-12));
    assert_eq!(parse_i64("9223372036854775807"), Some(i64::MAX));
    assert_eq!(parse_i64("-9223372036854775808"), Some(i64::MIN));
    assert_eq!(parse_i64("9223372036854775808"), None);
    assert_eq!(parse_i64("-9223372036854775809"), None);
    assert_eq!(parse_i64("00000000000000000000001"), Some(1));
    assert_eq!(parse_i64(""), None);
    assert_eq!(parse_i64("+"), None);
    assert_eq!(parse_i64("-"), None);
    assert_eq!(parse_i64("12a"), None);
    assert_eq!(parse_i64(" 12"), None);
    assert_eq!(parse_i64("1.5"), None);
}

#[test]
fn integer_rendering() {
    assert_eq!(u64_to_string(0), "0");
    assert_eq!(u64_to_string(1234567890), "1234567890");
    assert_eq!(u64_to_string(u64::MAX), "18446744073709551615");
    assert_eq!(i64_to_string(-42), "-42");
    assert_eq!(i64_to_string(i64::MIN), "-9223372036854775808");
    assert_eq!(i64_to_string(7), "7");
}

#[test]
fn splitting_and_trimming() {
    let parts = split_char("a.b..c", '.');
    assert_eq!(parts, vec!["a", "b", "", "c"]);
    assert_eq!(split_char("", '.'), vec![""]);
    assert_eq!(split_char(".", '.'), vec!["", ""]);
    assert_eq!(trim_str("  x y\t"), "x y");
    assert_eq!(trim_str("   "), "");
    assert_eq!(trim_str("ab"), "ab");
}

#[test]
fn padding() {
    assert_eq!(pad_left("123", "0", 7), "0000123");
    assert_eq!(pad_left("alice", " ", 15), "          alice");
    assert_eq!(pad_left("toolongvaluehere", " ", 15), "toolongvaluehere");
}

#[test]
fn civil_calendar() {
    assert_eq!(civil_from_days(0), Some((1970, 1, 1)));
    assert_eq!(civil_from_days(31), Some((1970, 2, 1)));
    assert_eq!(civil_from_days(365), Some((1971, 1, 1)));
    // 1972 is the first leap year after the epoch
    assert_eq!(civil_from_days(365 + 365 + 31 + 28), Some((1972, 2, 29)));
    assert_eq!(format_datetime(0), Some(("19700101".to_string(), "000000".to_string())));
    assert_eq!(
        format_datetime(1700000000),
        Some(("20231114".to_string(), "221320".to_string()))
    );
    // 2024-02-29 00:00:00
    assert_eq!(
        format_datetime(1709164800),
        Some(("20240229".to_string(), "000000".to_string()))
    );
    assert_eq!(format_datetime(-1), None);
}

#[test]
fn status_labels() {
    assert_eq!(describe_status(6), "sending");
    assert_eq!(describe_status(7), "sent");
    assert_eq!(describe_status(90), "accepted-success");
    assert_eq!(describe_status(99), "failed");
    assert_eq!(describe_status(101), "exchange-accepted");
    assert_eq!(describe_status(110), "partial-fill");
    assert_eq!(describe_status(111), "full-fill");
    assert_eq!(describe_status(120), "exchange-cancelled");
    assert_eq!(describe_status(0), "unknown");
    assert_eq!(describe_status(12345), "unknown");
}

#[test]
fn local_dates_have_the_fixed_widths() {
    // the local zone is not fixed here, but within a day of UTC the
    // year stays 2023 for a mid-November moment
    let mut p = Parser::new();
    p.parse_line(
        &["Req", "-", "TA", "Timestamp", "ReqKind"].join("\u{1}"),
        "",
        "",
    );
    p.parse_line(
        &["Req", "R1", "TA", "1700000000.123", "1"].join("\u{1}"),
        "",
        "",
    );
    let chains = p.ord_rec.find_req("TA", 4, "1");
    assert_eq!(chains.len(), 0); // R1 was never correlated: dropped, not fatal
    let rec = reqord::record::Rec {
        toks: vec!["Req".to_string(), "R1".to_string(), "TA".to_string(),
            "1700000000.123".to_string(), "1".to_string(), "v".to_string()],
        line: "raw".to_string(),
        log: "note".to_string(),
        linked: false,
        digsgn: String::new(),
    };
    let d = rec.get_date();
    let t = rec.get_time();
    assert_eq!(d.len(), 8);
    assert!(d.starts_with("2023"));
    assert_eq!(t.len(), 6);
    let ts = rec.get_timestamp();
    assert_eq!(ts.len(), 14 + 1 + 3);
    assert!(ts.ends_with(".123"));
    // the record's own text carries the stamp, the kind, the line and
    // the annotation
    let text = rec.to_string();
    assert!(text.contains("(new-order)"));
    assert!(text.contains("raw\nnote\n"));
}

#[test]
fn timestamps_without_fraction_render_empty() {
    let rec = reqord::record::Rec {
        toks: vec!["Req".to_string(), "R1".to_string(), "TA".to_string(),
            "1700000000".to_string(), "1".to_string()],
        line: String::new(),
        log: String::new(),
        linked: false,
        digsgn: String::new(),
    };
    assert_eq!(rec.get_date(), "");
    assert_eq!(rec.get_time(), "");
    assert_eq!(rec.get_timestamp(), "");
}

#[test]
fn flow_statistic_counts_per_second() {
    let mut p = Parser::new();
    p.parse_line(&["Req", "-", "TA", "Timestamp", "ReqKind"].join("\u{1}"), "", "");
    p.parse_line(&["Req", "R1", "TA", "1700000001.0", "1"].join("\u{1}"), "", "");
    p.parse_line(&["Req", "R2", "TA", "1700000001.5", "1"].join("\u{1}"), "", "");
    p.parse_line(&["Req", "R3", "TA", "1700000000.9", "1"].join("\u{1}"), "", "");
    let out = p.req_flow_statistic();
    let lines: Vec<&str> = out.lines().collect();
    assert_eq!(lines.len(), 2);
    // ascending seconds, comma-separated count
    assert!(lines[0].starts_with("1700000000, "));
    assert!(lines[0].ends_with(",1"));
    assert!(lines[1].starts_with("1700000001, "));
    assert!(lines[1].ends_with(",2"));
}

#[test]
fn chain_text_carries_summary_banner() {
    let mut p = Parser::new();
    p.parse_line(
        &["Req", "-", "TA", "Timestamp", "ReqKind", "f", "SorRID"].join("\u{1}"),
        "",
        "",
    );
    p.parse_line(
        &["Ord", "-", "TB", "Timestamp", "ReqKey", "g", "OrdNo", "OrderSt", "ReqStep"].join(
            "\u{1}",
        ),
        "",
        "",
    );
    p.parse_line(&["Req", "R1", "TA", "1700000000.0", "1", "v", "S9"].join("\u{1}"), "", "");
    p.parse_line(
        &["Ord", "K1", "TB", "1700000001.0", "R1", "g", "N5", "90", "6"].join("\u{1}"),
        "",
        "",
    );
    let chain = p.ord_rec.get_target_ordlist("K1");
    let text = p.ord_rec.ord_list_to_string(&chain);
    assert!(text.starts_with("\n===== rid:S9 ordno:N5 status:sending/accepted-success =====\n"));
}

#[test]
fn line_classification() {
    assert!(matches!(classify_line("anything".to_string(), 0), LineType::EndOfFile));
    assert!(matches!(classify_line("x".to_string(), 5), LineType::Empty));
    assert!(matches!(classify_line("ab".to_string(), 1), LineType::Empty));
    assert!(matches!(classify_line(":log text".to_string(), 10), LineType::Log(_)));
    assert!(matches!(classify_line("continuation".to_string(), 13), LineType::LogExt(_)));
    assert!(matches!(classify_line("Req\u{1}R1\u{1}T".to_string(), 10), LineType::Rec(_)));
    assert!(matches!(classify_line("Ord\u{1}K1\u{1}T".to_string(), 10), LineType::Rec(_)));
}

#[test]
fn read_accumulator_groups_annotations() {
    let mut acc = ReadAcc::new();
    assert!(acc.step(LineType::Rec("first".to_string())).is_none());
    assert!(acc.step(LineType::Log(":a".to_string())).is_none());
    assert!(acc.step(LineType::LogExt("b".to_string())).is_none());
    let out = acc.step(LineType::Rec("second".to_string()));
    assert_eq!(out, Some(("first".to_string(), ":ab".to_string())));
    assert!(acc.step(LineType::Empty).is_none());
    let last = acc.finish();
    assert_eq!(last, ("second".to_string(), "".to_string()));
}

#[test]
fn date_directory_names() {
    assert!(is_date_directory("20240101"));
    assert!(is_date_directory("19991231"));
    assert!(!is_date_directory("2024010"));
    assert!(!is_date_directory("202401011"));
    assert!(!is_date_directory("2024010a"));
    assert!(!is_date_directory("SorReqOrd"));
    assert!(!is_date_directory(""));
}
