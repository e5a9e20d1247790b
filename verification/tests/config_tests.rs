use idm_rs::error::DownloadError;
use idm_rs::{Config, ConfigBuilder};

fn default_threads() -> u8 {
    num_cpus::get().min(255) as u8
}

#[test]
fn defaults_of_a_new_config() {
    let config = Config::new("http://example.com/file.bin").unwrap();
    assert_eq!(config.url(), "http://example.com/file.bin");
    assert_eq!(config.connections(), 8);
    assert_eq!(config.threads(), default_threads());
    assert!(config.threads() >= 1);
    assert_eq!(config.singlecore(), None);
    assert_eq!(config.filename(), None);
    assert_eq!(config.user_agent(), None);
}

#[test]
fn url_is_stored_in_its_normal_form() {
    assert_eq!(Config::new("http://example.com").unwrap().url(), "http://example.com/");
    assert_eq!(
        Config::new("HTTP://EXAMPLE.COM/A b").unwrap().url(),
        "http://example.com/A%20b"
    );
    assert_eq!(
        ConfigBuilder::new("http://example.com:80/x/../y").unwrap().build().url(),
        "http://example.com/y"
    );
    assert_eq!(
        Config::builder("http://example.com?q").unwrap().build().url(),
        "http://example.com/?q"
    );
}

#[test]
fn text_that_is_no_absolute_url_is_an_error() {
    for text in ["not a url", "/relative/path", "", "example.com/file", "http://"] {
        assert_eq!(Config::new(text).err(), Some(DownloadError::InvalidUrl));
        assert_eq!(Config::builder(text).err(), Some(DownloadError::InvalidUrl));
        assert_eq!(ConfigBuilder::new(text).err(), Some(DownloadError::InvalidUrl));
    }
    assert!(Config::builder("http://example.com/a").is_ok());
}

#[test]
fn default_threads_follow_the_processors_up_to_255() {
    let url = "http://example.com/".to_string();
    assert_eq!(ConfigBuilder::with_defaults(url.clone(), 1).build().threads(), 1);
    assert_eq!(ConfigBuilder::with_defaults(url.clone(), 4).build().threads(), 4);
    assert_eq!(ConfigBuilder::with_defaults(url.clone(), 255).build().threads(), 255);
    assert_eq!(ConfigBuilder::with_defaults(url.clone(), 256).build().threads(), 255);
    assert_eq!(ConfigBuilder::with_defaults(url.clone(), 300).build().threads(), 255);
    assert_eq!(ConfigBuilder::with_defaults(url.clone(), usize::MAX).build().threads(), 255);
    let config = ConfigBuilder::with_defaults(url, 1).build();
    assert_eq!(config.url(), "http://example.com/");
    assert_eq!(config.connections(), 8);
    assert_eq!(config.singlecore(), None);
    assert_eq!(config.filename(), None);
    assert_eq!(config.user_agent(), None);
}

#[test]
fn builder_collects_settings() {
    let mut builder = Config::builder("http://example.com/a").unwrap();
    builder.connection_number(4).thread_number(2);
    builder.singlecore(true);
    builder.filename("out.bin".to_string());
    builder.user_agent("agent/2".to_string());
    let config = builder.build();
    assert_eq!(config.url(), "http://example.com/a");
    assert_eq!(config.connections(), 4);
    assert_eq!(config.threads(), 2);
    assert_eq!(config.singlecore(), Some(true));
    assert_eq!(config.filename(), Some("out.bin"));
    assert_eq!(config.user_agent(), Some("agent/2"));
}

#[test]
fn setters_leave_other_settings_alone() {
    let mut builder = ConfigBuilder::with_defaults("http://example.com/a".to_string(), 3);
    builder.connection_number(16);
    builder.singlecore(false);
    let config = builder.build();
    assert_eq!(config.url(), "http://example.com/a");
    assert_eq!(config.connections(), 16);
    assert_eq!(config.threads(), 3);
    assert_eq!(config.singlecore(), Some(false));
    assert_eq!(config.filename(), None);
    assert_eq!(config.user_agent(), None);
}

#[test]
fn later_setting_replaces_earlier() {
    let mut builder = ConfigBuilder::with_defaults("http://example.com/a".to_string(), 3);
    builder.connection_number(2).connection_number(0);
    builder.filename("a".to_string()).filename("b".to_string());
    builder.singlecore(true).singlecore(false);
    let config = builder.build();
    assert_eq!(config.connections(), 0);
    assert_eq!(config.filename(), Some("b"));
    assert_eq!(config.singlecore(), Some(false));
}
