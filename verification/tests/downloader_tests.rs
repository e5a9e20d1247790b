use idm_rs::downloader::Mode;
use idm_rs::{Config, ConfigBuilder, Downloader};
use idm_rs::error::{DownloadError, Stage};
use idm_rs::probe::{classify, Header, ProbeResult};

fn probe(content_length: Option<u64>, chunked: bool, hint: &str) -> ProbeResult {
    ProbeResult {
        content_length,
        accepts_ranges: content_length.is_some() && !chunked,
        chunked,
        filename_hint: hint.to_string(),
    }
}

fn downloader(connections: usize, singlecore: Option<bool>) -> Downloader {
    let mut builder = ConfigBuilder::with_defaults("http://example.com/report.pdf".to_string(), 4);
    builder.connection_number(connections);
    if let Some(val) = singlecore {
        builder.singlecore(val);
    }
    Downloader::from_config(builder.build())
}

fn bounds(mode: &Mode) -> Vec<(u64, u64)> {
    match mode {
        Mode::Segmented(plan) => plan.ranges().iter().map(|r| (r.start, r.end)).collect(),
        Mode::Fallback => panic!("expected a segmented download"),
    }
}

#[test]
fn fallback_is_chosen_exactly_when_called_for() {
    for chunked in [false, true] {
        for length in [None, Some(100u64)] {
            for singlecore in [None, Some(false), Some(true)] {
                for connections in [0usize, 1, 2, 8] {
                    let d = downloader(connections, singlecore);
                    let p = probe(length, chunked, "a");
                    let expected =
                        chunked || length.is_none() || singlecore == Some(true) || connections <= 1;
                    assert_eq!(d.uses_fallback(&p), expected);
                    let job = d.download(&p, &Vec::new());
                    assert_eq!(matches!(job.mode, Mode::Fallback), expected);
                }
            }
        }
    }
}

#[test]
fn chunked_response_uses_the_stream_whatever_the_connections() {
    let headers = vec![Header {
        name: "Transfer-Encoding".to_string(),
        value: "chunked".to_string(),
    }];
    let p = classify(&headers, "http://example.com/live");
    for connections in [1usize, 2, 8, 64, usize::MAX] {
        let job = downloader(connections, None).download(&p, &Vec::new());
        assert!(matches!(job.mode, Mode::Fallback));
        assert_eq!(job.filename, "live");
    }
}

#[test]
fn sized_resource_is_split_for_the_connections() {
    let job = downloader(4, None).download(&probe(Some(1_048_576), false, "big.iso"), &Vec::new());
    assert_eq!(job.filename, "big.iso");
    assert_eq!(
        bounds(&job.mode),
        vec![(0, 262_143), (262_144, 524_287), (524_288, 786_431), (786_432, 1_048_575)]
    );
    let job = downloader(8, Some(false)).download(&probe(Some(10), false, "x"), &Vec::new());
    assert_eq!(bounds(&job.mode), vec![(0, 1), (2, 3), (4, 5), (6, 7), (8, 9)]);
    match &job.mode {
        Mode::Segmented(plan) => assert_eq!(plan.total_length(), 10),
        Mode::Fallback => panic!("expected a segmented download"),
    }
}

#[test]
fn empty_resource_is_split_into_nothing() {
    let job = downloader(8, None).download(&probe(Some(0), false, "empty"), &Vec::new());
    assert!(bounds(&job.mode).is_empty());
}

#[test]
fn more_connections_than_a_plan_can_count_are_capped() {
    let job = downloader(usize::MAX, None).download(&probe(Some(3), false, "x"), &Vec::new());
    assert_eq!(bounds(&job.mode), vec![(0, 0), (1, 1), (2, 2)]);
}

#[test]
fn output_name_avoids_existing_files() {
    let existing = vec!["report.pdf".to_string()];
    let job = downloader(8, None).download(&probe(Some(10), false, "report.pdf"), &existing);
    assert_eq!(job.filename, "report_new.pdf");
    let job = downloader(8, None).download(&probe(None, false, "report.pdf"), &existing);
    assert_eq!(job.filename, "report_new.pdf");
}

#[test]
fn name_in_the_settings_comes_first() {
    let mut builder = ConfigBuilder::with_defaults("http://example.com/report.pdf".to_string(), 4);
    builder.filename("mine.tar.gz".to_string());
    let d = Downloader::from_config(builder.build());
    let p = probe(Some(10), false, "report.pdf");
    assert_eq!(d.download(&p, &Vec::new()).filename, "mine.tar.gz");
    let existing = vec!["mine.tar.gz".to_string(), "report.pdf".to_string()];
    assert_eq!(d.download(&p, &existing).filename, "mine_new.tar.gz");
}

#[test]
fn every_request_carries_the_default_headers() {
    let headers = downloader(8, None).request_headers().unwrap();
    let pairs: Vec<(&str, &str)> =
        headers.iter().map(|h| (h.name.as_str(), h.value.as_str())).collect();
    assert_eq!(
        pairs,
        vec![("accept", "*/*"), ("connection", "keep-alive"), ("user-agent", "idm-rs/1.0.0")]
    );
}

#[test]
fn user_agent_in_the_settings_replaces_the_default() {
    let mut builder = ConfigBuilder::with_defaults("http://example.com/".to_string(), 4);
    builder.user_agent("curl/8.0 (tést)\t".to_string());
    let headers = Downloader::from_config(builder.build()).request_headers().unwrap();
    assert_eq!(headers.len(), 3);
    assert_eq!(headers[2].name, "user-agent");
    assert_eq!(headers[2].value, "curl/8.0 (tést)\t");
}

#[test]
fn user_agent_that_no_header_can_hold_fails_the_probe() {
    for agent in ["bad\nagent", "bad\ragent", "nul\0", "del\u{7f}", "\u{1}"] {
        let mut builder = ConfigBuilder::with_defaults("http://example.com/".to_string(), 4);
        builder.user_agent(agent.to_string());
        let outcome = Downloader::from_config(builder.build()).request_headers();
        assert_eq!(outcome, Err(DownloadError::Connection { stage: Stage::Probe }));
    }
}

#[test]
fn downloader_from_a_url_has_the_default_settings() {
    let d = Downloader::from_url("http://example.com/a.bin").unwrap();
    let fresh = Config::new("http://example.com/a.bin").unwrap();
    assert_eq!(d.config().url(), "http://example.com/a.bin");
    assert_eq!(d.config().connections(), 8);
    assert_eq!(d.config().threads(), fresh.threads());
    assert_eq!(d.config().singlecore(), None);
}

#[test]
fn downloader_for_text_that_is_no_url_is_an_error() {
    assert_eq!(Downloader::from_url("example").err(), Some(DownloadError::InvalidUrl));
    assert_eq!(Downloader::from_url("").err(), Some(DownloadError::InvalidUrl));
}

#[test]
fn transfer_coding_other_than_chunked_does_not_force_the_stream() {
    let headers = vec![
        Header { name: "Content-Length".to_string(), value: "100".to_string() },
        Header { name: "Transfer-Encoding".to_string(), value: "gzip".to_string() },
    ];
    let p = classify(&headers, "http://example.com/a.bin");
    let job = downloader(4, None).download(&p, &Vec::new());
    assert_eq!(bounds(&job.mode), vec![(0, 24), (25, 49), (50, 74), (75, 99)]);
}

#[test]
fn chunked_beside_other_codings_forces_the_stream() {
    let headers = vec![
        Header { name: "Content-Length".to_string(), value: "100".to_string() },
        Header { name: "Transfer-Encoding".to_string(), value: "gzip, Chunked".to_string() },
    ];
    let p = classify(&headers, "http://example.com/a.bin");
    let job = downloader(4, None).download(&p, &Vec::new());
    assert!(matches!(job.mode, Mode::Fallback));
}
