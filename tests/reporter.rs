use reporter::{
    eligible, merge_all, parse_bytes, parse_status, parse_timestamp, percent_of, percentages,
    split_fields, str_to_unix, LineError, ReportError, Stamp, Tally, TimeError,
};

fn tally_of(records: &[(&str, u32)]) -> Tally {
    let mut t = Tally::new();
    for (domain, status) in records {
        t.count_record(&domain.to_string(), *status);
    }
    t
}

fn same(a: &Tally, b: &Tally, domains: &[&str]) -> bool {
    a.total() == b.total()
        && a.domain_count() == b.domain_count()
        && domains.iter().all(|d| a.errors_of(d) == b.errors_of(d))
}

#[test]
fn file_with_three_lines() {
    let text = "100|x|a.com|x|500\n100|x|a.com|x|200\n200|x|b.com|x|503";
    let t = parse_bytes(text, 100, 200);
    assert_eq!(t.total(), 2);
    assert_eq!(t.errors_of("a.com"), 1);
    assert_eq!(t.errors_of("b.com"), 0);
    assert_eq!(t.domain_count(), 1);
}

#[test]
fn merge_two_files_and_report() {
    let first = tally_of(&[("a.com", 500), ("a.com", 200)]);
    let second = tally_of(&[("a.com", 500), ("a.com", 502), ("b.com", 503)]);
    assert_eq!(first.total(), 2);
    assert_eq!(second.total(), 3);
    let merged = first.merge(&second);
    assert_eq!(merged.total(), 5);
    assert_eq!(merged.errors_of("a.com"), 3);
    assert_eq!(merged.errors_of("b.com"), 1);
    assert_eq!(merged.domain_count(), 2);
    let mut rows = percentages(&merged).unwrap();
    rows.sort();
    assert_eq!(rows, vec![("a.com".to_string(), 6000), ("b.com".to_string(), 2000)]);
}

#[test]
fn merge_is_commutative() {
    let a = tally_of(&[("a.com", 500), ("c.com", 200), ("c.com", 501)]);
    let b = tally_of(&[("b.com", 503), ("a.com", 599)]);
    let ab = a.clone().merge(&b);
    let ba = b.clone().merge(&a);
    assert!(same(&ab, &ba, &["a.com", "b.com", "c.com"]));
    assert_eq!(ab.total(), 5);
    assert_eq!(ab.errors_of("a.com"), 2);
}

#[test]
fn merge_with_empty_is_identity() {
    let t = tally_of(&[("a.com", 500), ("b.com", 404), ("b.com", 500)]);
    let m = t.clone().merge(&Tally::new());
    assert!(same(&m, &t, &["a.com", "b.com"]));
    let n = Tally::new().merge(&t);
    assert!(same(&n, &t, &["a.com", "b.com"]));
}

#[test]
fn file_tally_errors_within_total() {
    let text = "5|x|a.com|x|500\n6|x|a.com|x|501\n7|x|b.com|x|200\n8|x|b.com|x|502\nbad line\n";
    let t = parse_bytes(text, 0, 100);
    assert_eq!(t.total(), 4);
    for (domain, count) in t.entries() {
        assert!(count <= t.total(), "{domain}");
    }
    assert_eq!(t.errors_of("a.com"), 2);
    assert_eq!(t.errors_of("b.com"), 1);
}

#[test]
fn window_start_is_in_end_is_out() {
    assert_eq!(
        eligible(vec!["100", "x", "a.com", "x", "500"], 100, 200),
        Ok(Some(("a.com".to_string(), 500)))
    );
    assert_eq!(eligible(vec!["200", "x", "a.com", "x", "500"], 100, 200), Ok(None));
    assert_eq!(eligible(vec!["199.999", "x", "a.com", "x", "500"], 100, 200), Ok(Some(("a.com".to_string(), 500))));
    assert_eq!(eligible(vec!["99.5", "x", "a.com", "x", "500"], 100, 200), Ok(None));
}

#[test]
fn status_500_counts_499_does_not() {
    let t = tally_of(&[("a.com", 500), ("b.com", 499)]);
    assert_eq!(t.total(), 2);
    assert_eq!(t.errors_of("a.com"), 1);
    assert_eq!(t.errors_of("b.com"), 0);
    let text = "1|x|a.com|x|499\n1|x|a.com|x|500";
    assert_eq!(parse_bytes(text, 0, 2).errors_of("a.com"), 1);
}

#[test]
fn failed_file_contributes_nothing() {
    let t = tally_of(&[("a.com", 500), ("a.com", 200)]);
    let all = merge_all(vec![None, Some(t.clone()), None]);
    assert!(same(&all, &t, &["a.com"]));
    let none = merge_all(vec![None]);
    assert_eq!(none.total(), 0);
    assert_eq!(none.domain_count(), 0);
}

#[test]
fn merge_all_sums_files() {
    let a = parse_bytes("1|x|a.com|x|500\n2|x|b.com|x|200", 0, 10);
    let b = parse_bytes("3|x|a.com|x|503\n4|x|c.com|x|500\n50|x|c.com|x|500", 0, 10);
    let all = merge_all(vec![Some(a), None, Some(b)]);
    assert_eq!(all.total(), 4);
    assert_eq!(all.errors_of("a.com"), 2);
    assert_eq!(all.errors_of("b.com"), 0);
    assert_eq!(all.errors_of("c.com"), 1);
}

#[test]
fn line_errors() {
    assert_eq!(eligible(vec!["100", "x"], 0, 200), Err(LineError::MissingFields));
    assert_eq!(eligible(vec!["abc", "x", "a.com", "x", "500"], 0, 200), Err(LineError::MalformedTimestamp));
    assert_eq!(eligible(vec!["150", "x", "a.com", "x", "5xx"], 0, 200), Err(LineError::MalformedStatus));
    assert_eq!(eligible(vec!["500", "x", "a.com", "x", "5xx"], 0, 200), Ok(None));
}

#[test]
fn malformed_lines_are_skipped() {
    let text = "oops|x|a.com|x|500\n150|x|a.com|x|5xx\n\n150|x|a.com\n150|x|a.com|x|500\r\n";
    let t = parse_bytes(text, 100, 200);
    assert_eq!(t.total(), 1);
    assert_eq!(t.errors_of("a.com"), 1);
}

#[test]
fn fields_are_trimmed() {
    let t = parse_bytes("  150 |x|  a.com \t|x| 503 ", 100, 200);
    assert_eq!(t.total(), 1);
    assert_eq!(t.errors_of("a.com"), 1);
}

#[test]
fn extra_fields_are_ignored() {
    let t = parse_bytes("150|x|a.com|x|503|more|fields", 100, 200);
    assert_eq!(t.errors_of("a.com"), 1);
}

#[test]
fn empty_text_counts_nothing() {
    let t = parse_bytes("", 0, 10);
    assert_eq!(t.total(), 0);
    assert_eq!(percentages(&t), Err(ReportError::NoEligibleRecords));
}

#[test]
fn split_keeps_empty_fields() {
    assert_eq!(split_fields("a|b||c"), vec!["a", "b", "", "c"]);
    assert_eq!(split_fields(""), vec![""]);
    assert_eq!(split_fields("|"), vec!["", ""]);
}

#[test]
fn timestamps() {
    assert_eq!(parse_timestamp("1493969101.638"), Some(Stamp::Secs(1493969101)));
    assert_eq!(parse_timestamp("+7"), Some(Stamp::Secs(7)));
    assert_eq!(parse_timestamp("-2"), Some(Stamp::Secs(-2)));
    assert_eq!(parse_timestamp("-1.5"), Some(Stamp::Secs(-2)));
    assert_eq!(parse_timestamp("-1.000"), Some(Stamp::Secs(-1)));
    assert_eq!(parse_timestamp("-0.0"), Some(Stamp::Secs(0)));
    assert_eq!(parse_timestamp(".5"), Some(Stamp::Secs(0)));
    assert_eq!(parse_timestamp("5."), Some(Stamp::Secs(5)));
    assert_eq!(parse_timestamp("9223372036854775807"), Some(Stamp::Secs(i64::MAX)));
    assert_eq!(parse_timestamp("-9223372036854775808"), Some(Stamp::Secs(i64::MIN)));
    assert_eq!(parse_timestamp("9223372036854775808"), Some(Stamp::Above));
    assert_eq!(parse_timestamp("-9223372036854775808.1"), Some(Stamp::Below));
    assert_eq!(parse_timestamp("99999999999999999999999"), Some(Stamp::Above));
    assert_eq!(parse_timestamp("."), None);
    assert_eq!(parse_timestamp(""), None);
    assert_eq!(parse_timestamp("-"), None);
    assert_eq!(parse_timestamp("1.2.3"), None);
}

#[test]
fn timestamps_with_exponents() {
    assert_eq!(parse_timestamp("1e5"), Some(Stamp::Secs(100000)));
    assert_eq!(parse_timestamp("1e2"), Some(Stamp::Secs(100)));
    assert_eq!(parse_timestamp("1.5E3"), Some(Stamp::Secs(1500)));
    assert_eq!(parse_timestamp("12.5e-1"), Some(Stamp::Secs(1)));
    assert_eq!(parse_timestamp("-12.5e-1"), Some(Stamp::Secs(-2)));
    assert_eq!(parse_timestamp("1.e+2"), Some(Stamp::Secs(100)));
    assert_eq!(parse_timestamp(".25e2"), Some(Stamp::Secs(25)));
    assert_eq!(parse_timestamp("1e-400"), Some(Stamp::Secs(0)));
    assert_eq!(parse_timestamp("-1e-400"), Some(Stamp::Secs(-1)));
    assert_eq!(parse_timestamp("1e400"), Some(Stamp::Above));
    assert_eq!(parse_timestamp("-1e400"), Some(Stamp::Below));
    assert_eq!(parse_timestamp("1e99999999999999999999999"), Some(Stamp::Above));
    assert_eq!(parse_timestamp("0e99999999999999999999999"), Some(Stamp::Secs(0)));
    assert_eq!(parse_timestamp("5e-99999999999999999999999"), Some(Stamp::Secs(0)));
    assert_eq!(parse_timestamp("1e"), None);
    assert_eq!(parse_timestamp("1e+"), None);
    assert_eq!(parse_timestamp("e5"), None);
    assert_eq!(parse_timestamp("1e5x"), None);
}

#[test]
fn timestamps_not_finite() {
    assert_eq!(parse_timestamp("inf"), Some(Stamp::Above));
    assert_eq!(parse_timestamp("+Infinity"), Some(Stamp::Above));
    assert_eq!(parse_timestamp("-INF"), Some(Stamp::Below));
    assert_eq!(parse_timestamp("NaN"), Some(Stamp::NotANumber));
    assert_eq!(parse_timestamp("-nan"), Some(Stamp::NotANumber));
    assert_eq!(parse_timestamp("infin"), None);
    assert_eq!(parse_timestamp("nana"), None);
}

#[test]
fn exponent_and_non_finite_in_window() {
    assert_eq!(
        eligible(vec!["1e2", "*", "a.com", "*", "500"], 100, 200),
        Ok(Some(("a.com".to_string(), 500)))
    );
    assert_eq!(eligible(vec!["inf", "*", "a.com", "*", "500"], 100, 200), Ok(None));
    assert_eq!(eligible(vec!["-inf", "*", "a.com", "*", "500"], 100, 200), Ok(None));
    assert_eq!(eligible(vec!["NaN", "*", "a.com", "*", "500"], 100, 200), Ok(None));
    assert_eq!(eligible(vec!["1e30", "*", "a.com", "*", "500"], 100, 200), Ok(None));
    let t = parse_bytes("1e2|*|a.com|*|500\n1.5e2|*|b.com|*|200\ninf|*|c.com|*|500", 100, 200);
    assert_eq!(t.total(), 2);
    assert_eq!(t.errors_of("a.com"), 1);
    assert_eq!(t.errors_of("c.com"), 0);
}

#[test]
fn statuses() {
    assert_eq!(parse_status("500"), Some(500));
    assert_eq!(parse_status("+42"), Some(42));
    assert_eq!(parse_status("4294967295"), Some(u32::MAX));
    assert_eq!(parse_status("4294967296"), None);
    assert_eq!(parse_status("-1"), None);
    assert_eq!(parse_status("+"), None);
    assert_eq!(parse_status(""), None);
    assert_eq!(parse_status("5 0"), None);
}

#[test]
fn percent_rounding() {
    assert_eq!(percent_of(3, 5), 6000);
    assert_eq!(percent_of(1, 5), 2000);
    assert_eq!(percent_of(1, 3), 3333);
    assert_eq!(percent_of(2, 3), 6667);
    assert_eq!(percent_of(1, 20000), 1);
    assert_eq!(percent_of(0, 7), 0);
    assert_eq!(percent_of(u64::MAX, u64::MAX), 10000);
}

#[test]
fn date_times() {
    assert_eq!(str_to_unix("2017-05-05 03:20:00 -04:00"), Ok(1493968800));
    assert_eq!(str_to_unix("2017-05-05 07:20:00 +0000"), Ok(1493968800));
    assert_eq!(str_to_unix("1970-01-01 00:00:00 +00:00"), Ok(0));
    assert_eq!(str_to_unix("yesterday"), Err(TimeError::Unparsable));
}
