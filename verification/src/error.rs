//! The ways a download can fail.

use vstd::prelude::*;
use vstd::string::*;
use crate::range::ByteRange;
use crate::text::{decimal, spec_decimal};

verus! {

/// The part of a download in which a failure arose.
#[derive(Clone, Copy, Debug, PartialEq, Eq, Structural)]
pub enum Stage {
    /// The first request, which finds out what the server offers.
    Probe,
    /// The fetch of one byte range.
    Range(ByteRange),
    /// The sequential copy of the whole resource.
    Stream,
    /// A write to the output file.
    FileWrite,
}

/// A terminal failure of a download.
#[derive(Clone, Copy, Debug, PartialEq, Eq, Structural)]
pub enum DownloadError {
    /// A connection could not be made, or ended before it had delivered
    /// what was asked of it.
    Connection { stage: Stage },
    /// The server did not keep to what its headers or the request called
    /// for.
    ServerCapability { stage: Stage },
    /// The output file could not be created, positioned, written or
    /// flushed.
    Filesystem { stage: Stage },
    /// The bytes that arrived do not add up to the resource: `missing` of
    /// them were still owed when the failure was found.
    Integrity { missing: u64 },
    /// The text given as the target is no absolute URL.
    InvalidUrl,
}

/// How a stage is named in a report.
pub open spec fn spec_stage_name(stage: Stage) -> Seq<char> {
    match stage {
        Stage::Probe => "the probe"@,
        Stage::Range(range) => "bytes "@ + spec_decimal(range.start as nat) + "-"@ + spec_decimal(
            range.end as nat,
        ),
        Stage::Stream => "the stream"@,
        Stage::FileWrite => "the file write"@,
    }
}

/// The report of a failure: what went wrong, and where.
pub open spec fn spec_describe(error: DownloadError) -> Seq<char> {
    match error {
        DownloadError::Connection { stage } => "connection failed during "@ + spec_stage_name(
            stage,
        ),
        DownloadError::ServerCapability { stage } => "server did not deliver what was asked during "@
            + spec_stage_name(stage),
        DownloadError::Filesystem { stage } => "output file could not be written during "@
            + spec_stage_name(stage),
        DownloadError::Integrity { missing } => spec_decimal(missing as nat)
            + " bytes never arrived"@,
        DownloadError::InvalidUrl => "the target is no absolute URL"@,
    }
}

/// The exit status of a process whose download failed: one for each kind of
/// failure.
pub open spec fn spec_exit_code(error: DownloadError) -> i32 {
    match error {
        DownloadError::Connection { .. } => 2,
        DownloadError::ServerCapability { .. } => 3,
        DownloadError::Filesystem { .. } => 4,
        DownloadError::Integrity { .. } => 5,
        DownloadError::InvalidUrl => 6,
    }
}

/// Whether two failures are of one kind.
pub open spec fn same_kind(a: DownloadError, b: DownloadError) -> bool {
    ||| a is Connection && b is Connection
    ||| a is ServerCapability && b is ServerCapability
    ||| a is Filesystem && b is Filesystem
    ||| a is Integrity && b is Integrity
    ||| a is InvalidUrl && b is InvalidUrl
}

/// No failure exits with the status of success, and two failures exit with
/// the same status only if they are of one kind.
pub proof fn lemma_exit_codes_tell_kinds_apart(a: DownloadError, b: DownloadError)
    ensures
        spec_exit_code(a) != 0,
        spec_exit_code(a) == spec_exit_code(b) <==> same_kind(a, b),
{
}

impl Stage {
    /// How the stage is named in a report.
    pub fn name(&self) -> (text: String)
        ensures
            text@ == spec_stage_name(*self),
    {
        match self {
            Stage::Probe => String::from_str("the probe"),
            Stage::Range(range) => {
                let mut text = String::from_str("bytes ");
                let start = decimal(range.start);
                text.append(start.as_str());
                text.append("-");
                let end = decimal(range.end);
                text.append(end.as_str());
                text
            },
            Stage::Stream => String::from_str("the stream"),
            Stage::FileWrite => String::from_str("the file write"),
        }
    }
}

impl DownloadError {
    /// The report of the failure: what went wrong, and where.
    pub fn describe(&self) -> (text: String)
        ensures
            text@ == spec_describe(*self),
    {
        match self {
            DownloadError::Connection { stage } => {
                let mut text = String::from_str("connection failed during ");
                let place = stage.name();
                text.append(place.as_str());
                text
            },
            DownloadError::ServerCapability { stage } => {
                let mut text = String::from_str("server did not deliver what was asked during ");
                let place = stage.name();
                text.append(place.as_str());
                text
            },
            DownloadError::Filesystem { stage } => {
                let mut text = String::from_str("output file could not be written during ");
                let place = stage.name();
                text.append(place.as_str());
                text
            },
            DownloadError::Integrity { missing } => {
                let mut text = decimal(*missing);
                text.append(" bytes never arrived");
                text
            },
            DownloadError::InvalidUrl => String::from_str("the target is no absolute URL"),
        }
    }

    /// The exit status of a process whose download failed in this way.
    pub fn exit_code(&self) -> (code: i32)
        ensures
            code == spec_exit_code(*self),
    {
        match self {
            DownloadError::Connection { .. } => 2,
            DownloadError::ServerCapability { .. } => 3,
            DownloadError::Filesystem { .. } => 4,
            DownloadError::Integrity { .. } => 5,
            DownloadError::InvalidUrl => 6,
        }
    }
}

} // verus!
