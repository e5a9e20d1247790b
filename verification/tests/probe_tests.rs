use idm_rs::probe::{classify, header_value, is_chunked, value_lists, Header, ProbeResult};

fn headers(list: &[(&str, &str)]) -> Vec<Header> {
    list.iter().map(|(n, v)| Header { name: n.to_string(), value: v.to_string() }).collect()
}

#[test]
fn sized_response_is_segmentable() {
    let probe = classify(
        &headers(&[("content-type", "application/pdf"), ("content-length", "1048576")]),
        "http://example.com/docs/report.pdf?v=2",
    );
    assert_eq!(
        probe,
        ProbeResult {
            content_length: Some(1_048_576),
            accepts_ranges: true,
            chunked: false,
            filename_hint: "report.pdf".to_string(),
        }
    );
}

#[test]
fn chunked_response_is_not_segmentable() {
    let probe = classify(
        &headers(&[("Transfer-Encoding", "chunked")]),
        "http://example.com/stream",
    );
    assert_eq!(probe.content_length, None);
    assert!(probe.chunked);
    assert!(!probe.accepts_ranges);
    assert_eq!(probe.filename_hint, "stream");
}

#[test]
fn transfer_encoding_beside_a_length_forces_the_stream() {
    let probe = classify(
        &headers(&[("content-length", "10"), ("transfer-encoding", "chunked")]),
        "http://example.com/a",
    );
    assert_eq!(probe.content_length, Some(10));
    assert!(probe.chunked);
    assert!(!probe.accepts_ranges);
}

#[test]
fn missing_or_unreadable_length_is_no_length() {
    let probe = classify(&headers(&[]), "http://example.com/a");
    assert_eq!(probe.content_length, None);
    assert!(!probe.chunked);
    assert!(!probe.accepts_ranges);
    let probe = classify(&headers(&[("content-length", "ten")]), "http://example.com/a");
    assert_eq!(probe.content_length, None);
    assert!(!probe.accepts_ranges);
    let probe = classify(&headers(&[("content-length", "")]), "http://example.com/a");
    assert_eq!(probe.content_length, None);
}

#[test]
fn content_disposition_names_the_file() {
    let probe = classify(
        &headers(&[
            ("Content-Length", "5"),
            ("Content-Disposition", "attachment; filename=\"archive.tar.gz\""),
        ]),
        "http://example.com/download?id=7",
    );
    assert_eq!(probe.filename_hint, "archive.tar.gz");
    assert_eq!(probe.content_length, Some(5));
    assert!(probe.accepts_ranges);
}

#[test]
fn first_header_of_a_name_counts() {
    let list = headers(&[("X-A", "1"), ("x-a", "2"), ("Content-Length", "3")]);
    assert_eq!(header_value(&list, "x-a"), Some("1"));
    assert_eq!(header_value(&list, "CONTENT-LENGTH"), Some("3"));
    assert_eq!(header_value(&list, "x-b"), None);
    assert_eq!(header_value(&headers(&[]), "x-a"), None);
}

#[test]
fn only_the_chunked_coding_marks_a_body_as_chunked() {
    for value in ["chunked", "Chunked", "CHUNKED", " chunked\t", "gzip, chunked", "gzip,chunked",
        "chunked, gzip", "gzip ,\tchunked ,deflate"]
    {
        let probe = classify(
            &headers(&[("content-length", "10"), ("transfer-encoding", value)]),
            "http://example.com/a",
        );
        assert!(probe.chunked, "{:?}", value);
        assert!(!probe.accepts_ranges);
        assert_eq!(probe.content_length, Some(10));
    }
    for value in ["gzip", "identity", "", "chunke", "chunkedx", "xchunked", "gzip, deflate",
        "chun ked", "chunked;q=1", ","]
    {
        let probe = classify(
            &headers(&[("content-length", "10"), ("transfer-encoding", value)]),
            "http://example.com/a",
        );
        assert!(!probe.chunked, "{:?}", value);
        assert!(probe.accepts_ranges);
    }
}

#[test]
fn any_transfer_encoding_header_may_name_chunked() {
    let list = headers(&[
        ("Transfer-Encoding", "gzip"),
        ("content-length", "10"),
        ("transfer-encoding", "chunked"),
    ]);
    assert!(is_chunked(&list));
    assert!(classify(&list, "http://example.com/a").chunked);
    assert!(!is_chunked(&headers(&[("transfer-encoding", "gzip"), ("te", "chunked")])));
    assert!(!is_chunked(&headers(&[("x-transfer-encoding", "chunked")])));
    assert!(!is_chunked(&headers(&[])));
}

#[test]
fn items_of_a_list_are_compared_without_blanks_and_case() {
    assert!(value_lists("a, b ,c", "b"));
    assert!(value_lists("a, b ,c", "C"));
    assert!(value_lists("a", "A"));
    assert!(value_lists("", ""));
    assert!(value_lists("a,,b", ""));
    assert!(value_lists(" \t ", ""));
    assert!(!value_lists("a, b ,c", "d"));
    assert!(!value_lists("a b", "a"));
    assert!(!value_lists("ab", "a"));
    assert!(!value_lists("a", ""));
}
