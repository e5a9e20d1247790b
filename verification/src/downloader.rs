//! The download engine's decisions: which headers every request carries,
//! whether the resource is fetched in ranges or as one stream, under which
//! name it is stored, and how it is split.

use vstd::prelude::*;
use vstd::string::*;
use vstd::utf8::encode_utf8;
use crate::assembler::{blank, lemma_any_arrival_order_reproduces_source, spec_run, total_bytes,
    Chunk};
use crate::config::{fresh_settings, Config, Settings};
use crate::error::{DownloadError, Stage};
use crate::filename::{resolve, resolves_to};
use crate::planner::{lemma_plan_partitions, partitions, plan, spec_plan, DownloadPlan};
use crate::probe::{Header, ProbeResult, ProbeView};
use crate::range::ByteRange;

verus! {

/// Whether a byte may stand in the value of a header: anything from the
/// space on but the delete character, and the tab.
pub open spec fn is_header_value_byte(b: u8) -> bool {
    (b >= 32 && b != 127) || b == 9
}

/// Whether `text`, written in UTF-8, may stand as the value of a header.
pub open spec fn is_header_value(text: Seq<char>) -> bool {
    forall|i: int|
        0 <= i < encode_utf8(text).len() ==> is_header_value_byte(#[trigger] encode_utf8(text)[i])
}

/// Calls `reqwest::header::HeaderValue::from_str` and tells whether it took
/// `text`. It takes a text exactly when each byte of it is one that
/// `is_header_value_byte` admits.
#[verifier::external_body]
fn header_value_accepts(text: &str) -> (accepted: bool)
    ensures
        accepted == is_header_value(text@),
{
    reqwest::header::HeaderValue::from_str(text).is_ok()
}

/// How a resource is fetched.
#[derive(Debug)]
pub enum Mode {
    /// As one sequential stream over a single connection.
    Fallback,
    /// As the byte ranges of a plan, over several connections at once.
    Segmented(DownloadPlan),
}

/// What the engine has decided for one download.
#[derive(Debug)]
pub struct DownloadJob {
    /// Name of the output file.
    pub filename: String,
    /// How the resource is fetched.
    pub mode: Mode,
}

/// The single stream is used when the body comes in the chunked transfer
/// coding, when the size is unknown, when the settings ask for a single stream, or
/// when they allow no more than one connection.
pub open spec fn fallback_selected(settings: Settings, probe: ProbeView) -> bool {
    ||| probe.chunked
    ||| probe.content_length is None
    ||| settings.singlecore == Some(true)
    ||| settings.connections <= 1
}

/// The name that the output file starts from: the one that the settings
/// give, or else the one that the response suggests.
pub open spec fn name_hint(settings: Settings, probe: ProbeView) -> Seq<char> {
    match settings.filename {
        Some(name) => name,
        None => probe.filename_hint,
    }
}

/// The user agent that requests carry.
pub open spec fn spec_user_agent(settings: Settings) -> Seq<char> {
    match settings.user_agent {
        Some(agent) => agent,
        None => "idm-rs/1.0.0"@,
    }
}

/// The number of connections that a plan is made for: the setting, capped
/// at what a `u32` holds.
pub open spec fn planned_connections(settings: Settings) -> nat {
    if settings.connections > u32::MAX {
        u32::MAX as nat
    } else {
        settings.connections as nat
    }
}

/// A download with its settings.
pub struct Downloader {
    config: Config,
}

impl View for Downloader {
    type V = Settings;

    closed spec fn view(&self) -> Settings {
        self.config@
    }
}

impl Downloader {
    /// A downloader for `url` with the default settings. Fails with
    /// `InvalidUrl` exactly when `url` is no absolute URL.
    pub fn from_url(url: &str) -> (outcome: Result<Downloader, DownloadError>)
        ensures
            fresh_settings(
                url@,
                match outcome {
                    Ok(downloader) => Ok(downloader@),
                    Err(e) => Err(e),
                },
            ),
    {
        match Config::new(url) {
            Ok(config) => Ok(Downloader { config }),
            Err(e) => Err(e),
        }
    }

    /// A downloader with the given settings.
    pub fn from_config(config: Config) -> (downloader: Downloader)
        ensures
            downloader@ == config@,
    {
        Downloader { config }
    }

    /// The settings.
    pub fn config(&self) -> (config: &Config)
        ensures
            config@ == self@,
    {
        &self.config
    }

    /// The headers that every request of this download carries: `accept`,
    /// `connection` and `user-agent`, in this order. The user agent is the
    /// one in the settings, or `idm-rs/1.0.0` if they name none. A user
    /// agent that cannot stand in a header fails the download before the
    /// first request is sent.
    pub fn request_headers(&self) -> (headers: Result<Vec<Header>, DownloadError>)
        ensures
            match headers {
                Ok(list) => {
                    &&& is_header_value(spec_user_agent(self@))
                    &&& list@.len() == 3
                    &&& list@[0].name@ == "accept"@
                    &&& list@[0].value@ == "*/*"@
                    &&& list@[1].name@ == "connection"@
                    &&& list@[1].value@ == "keep-alive"@
                    &&& list@[2].name@ == "user-agent"@
                    &&& list@[2].value@ == spec_user_agent(self@)
                },
                Err(e) => {
                    &&& !is_header_value(spec_user_agent(self@))
                    &&& e == (DownloadError::Connection { stage: Stage::Probe })
                },
            },
    {
        let agent: String = match self.config.user_agent() {
            Some(text) => String::from_str(text),
            None => String::from_str("idm-rs/1.0.0"),
        };
        if !header_value_accepts(agent.as_str()) {
            return Err(DownloadError::Connection { stage: Stage::Probe });
        }
        let mut list: Vec<Header> = Vec::new();
        list.push(Header { name: String::from_str("accept"), value: String::from_str("*/*") });
        list.push(
            Header { name: String::from_str("connection"), value: String::from_str("keep-alive") },
        );
        list.push(Header { name: String::from_str("user-agent"), value: agent });
        Ok(list)
    }

    /// Tells whether the resource is fetched as one stream.
    pub fn uses_fallback(&self, probe: &ProbeResult) -> (fallback: bool)
        ensures
            fallback == fallback_selected(self@, probe@),
    {
        let forced: bool = match self.config.singlecore() {
            Some(val) => val,
            None => false,
        };
        probe.chunked || probe.content_length.is_none() || forced || self.config.connections() <= 1
    }

    /// Decides how the resource that `probe` describes is downloaded, given
    /// the names of the files that are already there.
    ///
    /// The output name starts from the name in the settings, or else from
    /// the one that the response suggests, and is renamed until it is none
    /// of `existing`. Where the single stream is not called for, the
    /// resource is split for the connections that the settings allow.
    pub fn download(&self, probe: &ProbeResult, existing: &Vec<String>) -> (job: DownloadJob)
        ensures
            resolves_to(name_hint(self@, probe@), existing@, job.filename@),
            job.mode is Fallback <==> fallback_selected(self@, probe@),
            job.mode matches Mode::Segmented(ranges) ==> {
                &&& probe.content_length == Some(ranges.spec_total_length())
                &&& ranges@ == spec_plan(
                    ranges.spec_total_length() as nat,
                    planned_connections(self@),
                )
            },
    {
        let filename = match self.config.filename() {
            Some(name) => resolve(name, existing),
            None => resolve(probe.filename_hint.as_str(), existing),
        };
        if self.uses_fallback(probe) {
            return DownloadJob { filename, mode: Mode::Fallback };
        }
        let total_length: u64 = probe.content_length.unwrap();
        let wanted: usize = self.config.connections();
        let connections: u32 = if wanted > u32::MAX as usize {
            u32::MAX
        } else {
            wanted as u32
        };
        DownloadJob { filename, mode: Mode::Segmented(plan(total_length, connections)) }
    }
}

/// The chunk that holds the bytes of `source` in `range`.
pub open spec fn chunk_of(source: Seq<u8>, range: ByteRange) -> Chunk {
    Chunk { offset: range.start as nat, bytes: source.subrange(range.start as int, range.end + 1) }
}

/// One chunk for each of `ranges`, in their order.
pub open spec fn whole_chunks(source: Seq<u8>, ranges: Seq<ByteRange>) -> Seq<Chunk> {
    Seq::new(ranges.len(), |i: int| chunk_of(source, ranges[i]))
}

proof fn lemma_ranges_ascend(ranges: Seq<ByteRange>, total: nat, i: int, j: int)
    requires
        partitions(ranges, total),
        0 <= i < j < ranges.len(),
    ensures
        ranges[i].end < ranges[j].start,
        ranges[j].end < total,
    decreases ranges.len() - i,
{
    assert(ranges[i].wf() && ranges[j].wf());
    if i + 1 < j {
        lemma_ranges_ascend(ranges, total, i + 1, j);
        assert(ranges[i + 1].wf());
    } else if j + 1 < ranges.len() {
        lemma_ranges_ascend(ranges, total, j, ranges.len() - 1);
    }
}

proof fn lemma_whole_chunks_bytes(source: Seq<u8>, ranges: Seq<ByteRange>, k: int)
    requires
        partitions(ranges, source.len()),
        0 <= k < ranges.len(),
    ensures
        total_bytes(whole_chunks(source, ranges).skip(k)) == source.len() - ranges[k].start,
    decreases ranges.len() - k,
{
    let chunks = whole_chunks(source, ranges);
    let rest = chunks.skip(k);
    assert(rest[0] == chunk_of(source, ranges[k]));
    assert(rest.drop_first() =~= chunks.skip(k + 1));
    assert(ranges[k].wf());
    if k + 1 < ranges.len() {
        lemma_ranges_ascend(ranges, source.len(), k, k + 1);
        lemma_whole_chunks_bytes(source, ranges, k + 1);
    } else {
        assert(total_bytes(chunks.skip(k + 1)) == 0);
    }
}

/// A resource that is split by a plan and fetched range by range comes out
/// whole: let each range of the plan arrive as one chunk of the source, in
/// any order, and the assembler's run succeeds with a file that equals the
/// source byte for byte.
pub proof fn lemma_planned_download_reproduces_source(
    source: Seq<u8>,
    connections: nat,
    arrived: Seq<Chunk>,
)
    requires
        connections > 0,
        source.len() <= u64::MAX,
        arrived.to_multiset() == whole_chunks(
            source,
            spec_plan(source.len(), connections),
        ).to_multiset(),
    ensures
        spec_run(blank(source.len()), source.len(), arrived) == Ok::<Seq<u8>, DownloadError>(
            source,
        ),
{
    let ranges = spec_plan(source.len(), connections);
    let sent = whole_chunks(source, ranges);
    lemma_plan_partitions(source.len(), connections);
    assert forall|k: int| 0 <= k < sent.len() implies (#[trigger] sent[k]).slice_of(source) by {
        assert(ranges[k].wf());
        if k + 1 < ranges.len() {
            lemma_ranges_ascend(ranges, source.len(), k, ranges.len() - 1);
        }
    }
    assert forall|i: int, j: int, p: int|
        0 <= i < sent.len() && 0 <= j < sent.len() && i != j implies !(#[trigger] sent[i].covers(
        p,
    ) && #[trigger] sent[j].covers(p)) by {
        assert(ranges[i].wf() && ranges[j].wf());
        if i < j {
            lemma_ranges_ascend(ranges, source.len(), i, j);
        } else {
            lemma_ranges_ascend(ranges, source.len(), j, i);
        }
    }
    if ranges.len() > 0 {
        lemma_whole_chunks_bytes(source, ranges, 0);
        assert(sent.skip(0) =~= sent);
    }
    lemma_any_arrival_order_reproduces_source(source, sent, arrived);
}

} // verus!
