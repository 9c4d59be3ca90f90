use apache_log_merge::parse::ParseError;
use apache_log_merge::pipeline::merge_logs;
use apache_log_merge::record::ApacheLogEntry;
use apache_log_merge::record::Timestamp;

const VALID_LINE: &str =
    "127.0.0.1 [Wed, 18 Feb 2015 23:16:09 GMT] \"GET /apache_pb.gif HTTP/1.0\" 200 2326";

#[test]
fn should_parse_valid_string() {
    let log_line =
        "127.0.0.1 [Wed, 18 Feb 2015 23:16:09 GMT] \"GET /apache_pb.gif HTTP/1.0\" 200 2326";

    let dt = chrono::DateTime::parse_from_rfc2822("Wed, 18 Feb 2015 23:16:09 GMT").unwrap();
    let expected = ApacheLogEntry {
        client_ip: "127.0.0.1".to_owned(),
        timestamp: Timestamp::new(dt.timestamp(), dt.offset().local_minus_utc()),
        request: "GET /apache_pb.gif HTTP/1.0".to_string(),
        status_code: 200,
        size: 2326,
    };

    let result = ApacheLogEntry::try_from_line(log_line);

    assert_eq!(result.unwrap(), expected);
}

#[test]
fn parse_is_deterministic() {
    let first = ApacheLogEntry::try_from_line(VALID_LINE).unwrap();
    let second = ApacheLogEntry::try_from_line(VALID_LINE).unwrap();
    assert_eq!(first, second);

    let bad = "not a log entry";
    let e1 = ApacheLogEntry::try_from_line(bad).unwrap_err();
    let e2 = ApacheLogEntry::try_from_line(bad).unwrap_err();
    assert_eq!(e1, e2);
}

#[test]
fn parsed_fields_are_verbatim_substrings() {
    let rec = ApacheLogEntry::try_from_line(VALID_LINE).unwrap();
    assert_eq!(rec.client_ip, &VALID_LINE[0.."127.0.0.1".len()]);
    let quoted = format!("\"{}\"", rec.request);
    assert!(VALID_LINE.contains(&quoted));
}

#[test]
fn timestamp_is_reduced_to_epoch_seconds() {
    let rec = ApacheLogEntry::try_from_line(VALID_LINE).unwrap();
    assert_eq!(rec.timestamp.epoch_seconds, 1424301369);
    assert_eq!(rec.timestamp.offset_seconds, 0);

    let shifted =
        "127.0.0.1 [Wed, 18 Feb 2015 23:16:09 -0500] \"GET /apache_pb.gif HTTP/1.0\" 200 2326";
    let rec = ApacheLogEntry::try_from_line(shifted).unwrap();
    assert_eq!(rec.timestamp.epoch_seconds, 1424301369 + 18000);
    assert_eq!(rec.timestamp.offset_seconds, -18000);
}

#[test]
fn single_valid_line() {
    let file1 = vec![VALID_LINE.to_string()];
    let file2: Vec<String> = Vec::new();
    let out = merge_logs(&file1, &file2);
    assert_eq!(out.len(), 1);
    assert_eq!(out[0].client_ip, "127.0.0.1");
    assert_eq!(out[0].timestamp.epoch_seconds, 1424301369);
    assert_eq!(out[0].timestamp.offset_seconds, 0);
    assert_eq!(out[0].request, "GET /apache_pb.gif HTTP/1.0");
    assert_eq!(out[0].status_code, 200);
    assert_eq!(out[0].size, 2326);
}

#[test]
fn duplicate_across_files() {
    let file1 = vec![VALID_LINE.to_string()];
    let file2 = vec![VALID_LINE.to_string()];
    let out = merge_logs(&file1, &file2);
    assert_eq!(out.len(), 1);
    let single = ApacheLogEntry::try_from_line(VALID_LINE).unwrap();
    assert_eq!(out[0], single);
}

#[test]
fn duplicate_modulo_offset_collapses() {
    // the same instant written with two different UTC offsets: the records
    // compare equal on the absolute instant, so only one survives
    let file1 = vec![
        "127.0.0.1 [Wed, 18 Feb 2015 23:16:09 GMT] \"GET / HTTP/1.0\" 200 1".to_string(),
    ];
    let file2 = vec![
        "127.0.0.1 [Wed, 18 Feb 2015 18:16:09 -0500] \"GET / HTTP/1.0\" 200 1".to_string(),
    ];
    let out = merge_logs(&file1, &file2);
    assert_eq!(out.len(), 1);
    assert_eq!(out[0].timestamp.epoch_seconds, 1424301369);
}

#[test]
fn out_of_order_merge() {
    let file1 = vec![
        "10.0.0.1 [Wed, 18 Feb 2015 23:16:09 GMT] \"GET /late HTTP/1.0\" 200 10".to_string(),
    ];
    let file2 = vec![
        "10.0.0.2 [Wed, 18 Feb 2015 23:16:08 GMT] \"GET /early HTTP/1.0\" 200 20".to_string(),
    ];
    let out = merge_logs(&file1, &file2);
    assert_eq!(out.len(), 2);
    assert_eq!(out[0].client_ip, "10.0.0.2");
    assert_eq!(out[1].client_ip, "10.0.0.1");
    assert!(out[0].timestamp.epoch_seconds <= out[1].timestamp.epoch_seconds);
}

#[test]
fn equal_timestamps_order_structurally() {
    let file1 = vec![
        "2.2.2.2 [Wed, 18 Feb 2015 23:16:09 GMT] \"GET /a HTTP/1.0\" 200 1".to_string(),
    ];
    let file2 = vec![
        "1.1.1.1 [Wed, 18 Feb 2015 23:16:09 GMT] \"GET /b HTTP/1.0\" 200 2".to_string(),
    ];
    let out = merge_logs(&file1, &file2);
    assert_eq!(out.len(), 2);
    assert_eq!(out[0].client_ip, "1.1.1.1");
    assert_eq!(out[1].client_ip, "2.2.2.2");
}

#[test]
fn malformed_line_tolerated() {
    let file1 = vec![VALID_LINE.to_string(), "not a log entry".to_string()];
    let file2: Vec<String> = Vec::new();
    let out = merge_logs(&file1, &file2);
    assert_eq!(out.len(), 1);
    assert_eq!(out[0].client_ip, "127.0.0.1");
}

#[test]
fn status_out_of_range_line_rejected() {
    let file1 = vec![
        "127.0.0.1 [Wed, 18 Feb 2015 23:16:09 GMT] \"GET / HTTP/1.0\" 999 10".to_string(),
    ];
    let file2: Vec<String> = Vec::new();
    let out = merge_logs(&file1, &file2);
    assert!(out.is_empty());
}

#[test]
fn numeric_range_boundaries() {
    let status_256 = "127.0.0.1 [Wed, 18 Feb 2015 23:16:09 GMT] \"GET / HTTP/1.0\" 256 10";
    assert!(matches!(
        ApacheLogEntry::try_from_line(status_256),
        Err(ParseError::StatusOutOfRange(_))
    ));

    let size_2_pow_32 =
        "127.0.0.1 [Wed, 18 Feb 2015 23:16:09 GMT] \"GET / HTTP/1.0\" 200 4294967296";
    assert!(matches!(
        ApacheLogEntry::try_from_line(size_2_pow_32),
        Err(ParseError::SizeOutOfRange(_))
    ));

    let at_the_edge =
        "127.0.0.1 [Wed, 18 Feb 2015 23:16:09 GMT] \"GET / HTTP/1.0\" 255 4294967295";
    let rec = ApacheLogEntry::try_from_line(at_the_edge).unwrap();
    assert_eq!(rec.status_code, 255);
    assert_eq!(rec.size, 4294967295);
}

#[test]
fn error_for_each_stage() {
    assert!(matches!(
        ApacheLogEntry::try_from_line("no-space-anywhere"),
        Err(ParseError::MissingIpSeparator(_))
    ));
    assert!(matches!(
        ApacheLogEntry::try_from_line("1.2.3.4 nothing bracketed here"),
        Err(ParseError::MissingTimestampBrackets(_))
    ));
    assert!(matches!(
        ApacheLogEntry::try_from_line("1.2.3.4 [unclosed bracket"),
        Err(ParseError::MissingTimestampBrackets(_))
    ));
    assert!(matches!(
        ApacheLogEntry::try_from_line("1.2.3.4 [not a date] \"GET / HTTP/1.0\" 200 1"),
        Err(ParseError::BadTimestampSyntax(_))
    ));
    assert!(matches!(
        ApacheLogEntry::try_from_line("1.2.3.4 [Wed, 18 Feb 2015 23:16:09 GMT] GET 200 1"),
        Err(ParseError::MissingRequestQuotes(_))
    ));
    assert!(matches!(
        ApacheLogEntry::try_from_line("1.2.3.4 [Wed, 18 Feb 2015 23:16:09 GMT] \"GET /\" 200"),
        Err(ParseError::MissingStatusSizeSeparator(_))
    ));
    assert!(matches!(
        ApacheLogEntry::try_from_line("1.2.3.4 [Wed, 18 Feb 2015 23:16:09 GMT] \"GET /\" +2 1"),
        Err(ParseError::StatusOutOfRange(_))
    ));
    assert!(matches!(
        ApacheLogEntry::try_from_line(
            "1.2.3.4 [Wed, 18 Feb 2015 23:16:09 GMT] \"GET /\" 200 1 extra"
        ),
        Err(ParseError::SizeOutOfRange(_))
    ));
}

#[test]
fn output_is_sorted_and_duplicate_free() {
    let file1 = vec![
        "10.0.0.3 [Wed, 18 Feb 2015 23:16:09 GMT] \"GET /c HTTP/1.0\" 200 3".to_string(),
        "10.0.0.1 [Wed, 18 Feb 2015 23:16:07 GMT] \"GET /a HTTP/1.0\" 200 1".to_string(),
        "10.0.0.2 [Wed, 18 Feb 2015 23:16:08 GMT] \"GET /b HTTP/1.0\" 200 2".to_string(),
    ];
    let file2 = vec![
        "10.0.0.2 [Wed, 18 Feb 2015 23:16:08 GMT] \"GET /b HTTP/1.0\" 200 2".to_string(),
        "10.0.0.4 [Wed, 18 Feb 2015 23:16:06 GMT] \"GET /d HTTP/1.0\" 200 4".to_string(),
    ];
    let out = merge_logs(&file1, &file2);
    assert_eq!(out.len(), 4);
    for w in out.windows(2) {
        assert!(w[0].timestamp.epoch_seconds <= w[1].timestamp.epoch_seconds);
        assert!(w[0] != w[1]);
    }
    assert_eq!(out[0].client_ip, "10.0.0.4");
    assert_eq!(out[1].client_ip, "10.0.0.1");
    assert_eq!(out[2].client_ip, "10.0.0.2");
    assert_eq!(out[3].client_ip, "10.0.0.3");
}
