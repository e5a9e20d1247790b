use idm_rs::error::{DownloadError, Stage};
use idm_rs::range::ByteRange;

fn samples() -> Vec<DownloadError> {
    let range = Stage::Range(ByteRange::new(262_144, 524_287));
    vec![
        DownloadError::Connection { stage: Stage::Probe },
        DownloadError::Connection { stage: range },
        DownloadError::ServerCapability { stage: range },
        DownloadError::ServerCapability { stage: Stage::Probe },
        DownloadError::Filesystem { stage: Stage::FileWrite },
        DownloadError::Filesystem { stage: Stage::Stream },
        DownloadError::Integrity { missing: 0 },
        DownloadError::Integrity { missing: u64::MAX },
        DownloadError::InvalidUrl,
    ]
}

#[test]
fn reports_name_the_stage() {
    let texts: Vec<String> = samples().iter().map(|e| e.describe()).collect();
    assert_eq!(
        texts,
        vec![
            "connection failed during the probe",
            "connection failed during bytes 262144-524287",
            "server did not deliver what was asked during bytes 262144-524287",
            "server did not deliver what was asked during the probe",
            "output file could not be written during the file write",
            "output file could not be written during the stream",
            "0 bytes never arrived",
            "18446744073709551615 bytes never arrived",
            "the target is no absolute URL",
        ]
    );
}

#[test]
fn stages_have_names() {
    assert_eq!(Stage::Probe.name(), "the probe");
    assert_eq!(Stage::Range(ByteRange::new(0, 0)).name(), "bytes 0-0");
    assert_eq!(Stage::Stream.name(), "the stream");
    assert_eq!(Stage::FileWrite.name(), "the file write");
}

#[test]
fn exit_codes_tell_the_kinds_apart() {
    let codes: Vec<i32> = samples().iter().map(|e| e.exit_code()).collect();
    assert_eq!(codes, vec![2, 2, 3, 3, 4, 4, 5, 5, 6]);
    assert!(codes.iter().all(|c| *c != 0));
}
