//! The settings of one download and the builder that collects them.

use vstd::prelude::*;
use vstd::string::*;
use crate::error::DownloadError;

verus! {

/// The absolute URL that `text` parses to, in its normal written form, or
/// `None` where `text` is no absolute URL.
pub uninterp spec fn url_parse(text: Seq<char>) -> Option<Seq<char>>;

/// Calls `reqwest::Url::parse` and gives back the parsed URL as text. The
/// outcome depends on `text` alone: it is `url_parse(text)`.
#[verifier::external_body]
fn parse_url(text: &str) -> (parsed: Option<String>)
    ensures
        match parsed {
            Some(url) => url_parse(text@) == Some(url@),
            None => url_parse(text@) is None,
        },
{
    match reqwest::Url::parse(text) {
        Ok(url) => Some(String::from(url)),
        Err(_) => None,
    }
}

/// Calls `num_cpus::get`, the number of processors that this process may
/// use. It differs from machine to machine; it is never zero.
#[verifier::external_body]
fn available_cores() -> (cores: usize)
    ensures
        cores >= 1,
{
    num_cpus::get()
}

/// The settings of a download with their text as sequences of characters.
pub struct Settings {
    pub url: Seq<char>,
    pub connections: usize,
    pub threads: u8,
    pub singlecore: Option<bool>,
    pub filename: Option<Seq<char>>,
    pub user_agent: Option<Seq<char>>,
}

/// The characters of an optional text.
pub open spec fn text_of(text: Option<String>) -> Option<Seq<char>> {
    match text {
        Some(s) => Some(s@),
        None => None,
    }
}

/// The settings that a download of `url` starts with on a machine with
/// `cores` processors: eight connections, one worker thread for each
/// processor up to 255, the most that the setting holds, and nothing else
/// chosen.
pub open spec fn initial_settings(url: Seq<char>, cores: usize) -> Settings {
    Settings {
        url,
        connections: 8,
        threads: (if cores > 255 {
            255
        } else {
            cores as int
        }) as u8,
        singlecore: None,
        filename: None,
        user_agent: None,
    }
}

/// What the fresh settings for the target `url` are: an error if `url` is
/// no absolute URL, otherwise the initial settings for the parsed URL on a
/// machine with some number of processors, at least one.
pub open spec fn fresh_settings(url: Seq<char>, outcome: Result<Settings, DownloadError>) -> bool {
    match outcome {
        Ok(settings) => {
            &&& url_parse(url) is Some
            &&& exists|cores: usize|
                cores >= 1 && settings == #[trigger] initial_settings(url_parse(url)->0, cores)
        },
        Err(e) => url_parse(url) is None && e == DownloadError::InvalidUrl,
    }
}

/// Collects the settings of a download.
#[derive(Debug)]
pub struct ConfigBuilder {
    url: String,
    connections: usize,
    threads: u8,
    singlecore: Option<bool>,
    filename: Option<String>,
    user_agent: Option<String>,
}

/// The settings of a download. Once built they do not change.
#[derive(Debug)]
pub struct Config {
    url: String,
    connections: usize,
    threads: u8,
    singlecore: Option<bool>,
    filename: Option<String>,
    user_agent: Option<String>,
}

impl View for ConfigBuilder {
    type V = Settings;

    closed spec fn view(&self) -> Settings {
        Settings {
            url: self.url@,
            connections: self.connections,
            threads: self.threads,
            singlecore: self.singlecore,
            filename: text_of(self.filename),
            user_agent: text_of(self.user_agent),
        }
    }
}

impl View for Config {
    type V = Settings;

    closed spec fn view(&self) -> Settings {
        Settings {
            url: self.url@,
            connections: self.connections,
            threads: self.threads,
            singlecore: self.singlecore,
            filename: text_of(self.filename),
            user_agent: text_of(self.user_agent),
        }
    }
}

impl ConfigBuilder {
    /// Starts from the default settings for a URL that has been parsed
    /// already, on a machine with `cores` processors.
    pub fn with_defaults(url: String, cores: usize) -> (builder: ConfigBuilder)
        ensures
            builder@ == initial_settings(url@, cores),
    {
        ConfigBuilder {
            url,
            connections: 8,
            threads: if cores > 255 {
                255
            } else {
                cores as u8
            },
            singlecore: None,
            filename: None,
            user_agent: None,
        }
    }

    /// Starts from the default settings for `url` on this machine. Fails
    /// with `InvalidUrl` exactly when `url` is no absolute URL.
    pub fn new(url: &str) -> (outcome: Result<ConfigBuilder, DownloadError>)
        ensures
            fresh_settings(
                url@,
                match outcome {
                    Ok(builder) => Ok(builder@),
                    Err(e) => Err(e),
                },
            ),
    {
        match parse_url(url) {
            Some(parsed) => {
                let cores: usize = available_cores();
                let builder = ConfigBuilder::with_defaults(parsed, cores);
                assert(builder@ == initial_settings(url_parse(url@)->0, cores));
                Ok(builder)
            },
            None => Err(DownloadError::InvalidUrl),
        }
    }

    /// Sets the number of connections to the server.
    pub fn connection_number(&mut self, num: usize) -> (builder: &mut ConfigBuilder)
        ensures
            builder@ == (Settings { connections: num, ..old(self)@ }),
            *final(self) == *final(builder),
    {
        self.connections = num;
        self
    }

    /// Sets the number of worker threads.
    pub fn thread_number(&mut self, num: u8) -> (builder: &mut ConfigBuilder)
        ensures
            builder@ == (Settings { threads: num, ..old(self)@ }),
            *final(self) == *final(builder),
    {
        self.threads = num;
        self
    }

    /// Chooses whether the download is to use a single stream.
    pub fn singlecore(&mut self, val: bool) -> (builder: &mut ConfigBuilder)
        ensures
            builder@ == (Settings { singlecore: Some(val), ..old(self)@ }),
            *final(self) == *final(builder),
    {
        self.singlecore = Some(val);
        self
    }

    /// Sets the name of the output file.
    pub fn filename(&mut self, fname: String) -> (builder: &mut ConfigBuilder)
        ensures
            builder@ == (Settings { filename: Some(fname@), ..old(self)@ }),
            *final(self) == *final(builder),
    {
        self.filename = Some(fname);
        self
    }

    /// Sets the `User-Agent` that requests carry.
    pub fn user_agent(&mut self, agent: String) -> (builder: &mut ConfigBuilder)
        ensures
            builder@ == (Settings { user_agent: Some(agent@), ..old(self)@ }),
            *final(self) == *final(builder),
    {
        self.user_agent = Some(agent);
        self
    }

    /// Hands the collected settings out as a `Config`.
    pub fn build(self) -> (config: Config)
        ensures
            config@ == self@,
    {
        Config {
            url: self.url,
            connections: self.connections,
            threads: self.threads,
            singlecore: self.singlecore,
            filename: self.filename,
            user_agent: self.user_agent,
        }
    }
}

impl Config {
    /// The default settings for `url` on this machine. Fails with
    /// `InvalidUrl` exactly when `url` is no absolute URL.
    pub fn new(url: &str) -> (outcome: Result<Config, DownloadError>)
        ensures
            fresh_settings(
                url@,
                match outcome {
                    Ok(config) => Ok(config@),
                    Err(e) => Err(e),
                },
            ),
    {
        match ConfigBuilder::new(url) {
            Ok(builder) => Ok(builder.build()),
            Err(e) => Err(e),
        }
    }

    /// A builder that starts from the default settings for `url`. Fails
    /// with `InvalidUrl` exactly when `url` is no absolute URL.
    pub fn builder(url: &str) -> (outcome: Result<ConfigBuilder, DownloadError>)
        ensures
            fresh_settings(
                url@,
                match outcome {
                    Ok(builder) => Ok(builder@),
                    Err(e) => Err(e),
                },
            ),
    {
        ConfigBuilder::new(url)
    }

    /// The URL to download, in its normal written form.
    pub fn url(&self) -> (url: &str)
        ensures
            url@ == self@.url,
    {
        self.url.as_str()
    }

    /// Number of connections to the server.
    pub fn connections(&self) -> (num: usize)
        ensures
            num == self@.connections,
    {
        self.connections
    }

    /// Number of worker threads.
    pub fn threads(&self) -> (num: u8)
        ensures
            num == self@.threads,
    {
        self.threads
    }

    /// Whether a single stream has been asked for, if anything has.
    pub fn singlecore(&self) -> (val: Option<bool>)
        ensures
            val == self@.singlecore,
    {
        self.singlecore
    }

    /// Name chosen for the output file, if any.
    pub fn filename(&self) -> (name: Option<&str>)
        ensures
            match name {
                Some(text) => self@.filename == Some(text@),
                None => self@.filename is None,
            },
    {
        match &self.filename {
            Some(text) => Some(text.as_str()),
            None => None,
        }
    }

    /// `User-Agent` chosen for the requests, if any.
    pub fn user_agent(&self) -> (agent: Option<&str>)
        ensures
            match agent {
                Some(text) => self@.user_agent == Some(text@),
                None => self@.user_agent is None,
            },
    {
        match &self.user_agent {
            Some(text) => Some(text.as_str()),
            None => None,
        }
    }
}

} // verus!
