use bars_core::config::Config;
use bars_core::context::{after_attempt, ConnectError, ConnectionState, Interest, Mode};
use bars_core::settings::{
    default_port, default_server, remote, ConfigManager, ConfigMapping, ConfigSource,
    LocalConfig, Lookup,
};
use bars_core::text::{eq_ignore_case, split, split_once, to_lower, trim_end};

fn key(s: &str) -> String {
    s.to_string()
}

fn aerodrome(icao: &str) -> bars_core::config::Aerodrome {
    bars_core::config::Aerodrome {
        icao: key(icao),
        elements: Vec::new(),
        nodes: Vec::new(),
        edges: Vec::new(),
        blocks: Vec::new(),
        profiles: Vec::new(),
    }
}

#[test]
fn defaults() {
    assert_eq!(default_port(), 6866);
    assert_eq!(default_server(), "https://v2.stopbars.com/");
    let c = LocalConfig::default();
    assert_eq!((c.token, c.port, c.server), (None, 0, key("")));
    let m = ConfigMapping::default();
    assert!(m.config.is_empty() && m.base.is_empty());
    assert!(ConnectionState::Disconnected != ConnectionState::Poisoned);
}

#[test]
fn text_is_split_at_the_first_occurrence() {
    assert_eq!(split_once("a://b://c", "://"), Some((key("a"), key("b://c"))));
    assert_eq!(split_once("://x", "://"), Some((key(""), key("x"))));
    assert_eq!(split_once("x://", "://"), Some((key("x"), key(""))));
    assert_eq!(split_once("a:/b", "://"), None);
    assert_eq!(split_once("", "="), None);
    assert_eq!(split_once("k=v=w", "="), Some((key("k"), key("v=w"))));
}

#[test]
fn text_is_split_everywhere() {
    assert_eq!(split("a&b&&c", "&"), vec![key("a"), key("b"), key(""), key("c")]);
    assert_eq!(split("", "&"), vec![key("")]);
    assert_eq!(split("&", "&"), vec![key(""), key("")]);
    assert_eq!(split("abc", ""), vec![key("abc")]);
}

#[test]
fn text_is_trimmed_and_compared() {
    assert_eq!(trim_end("host///", '/'), "host");
    assert_eq!(trim_end("///", '/'), "");
    assert_eq!(trim_end("a/b", '/'), "a/b");
    assert_eq!(to_lower('Q'), 'q');
    assert_eq!(to_lower('q'), 'q');
    assert_eq!(to_lower('['), '[');
    assert_eq!(to_lower('@'), '@');
    assert!(eq_ignore_case("UpGrAdE", "upgrade"));
    assert!(!eq_ignore_case("upgrade", "upgrades"));
    assert!(!eq_ignore_case("@", "`"));
}

#[test]
fn packages_are_found_by_aerodrome() {
    let mapping = ConfigMapping {
        config: vec![
            ConfigSource { src: key("https://example.org/a.bars"), aerodromes: vec![key("AAAA"), key("BBBB")] },
            ConfigSource { src: key("local.bars"), aerodromes: vec![key("BBBB"), key("CCCC")] },
        ],
        base: key("/cfg"),
    };
    let mut m = ConfigManager::new(mapping);
    assert_eq!(m.base, "/cfg");
    assert_eq!(m.locate(&key("BBBB")), Lookup::Fetch { index: 0, remote: true });
    assert_eq!(m.locate(&key("CCCC")), Lookup::Fetch { index: 1, remote: false });
    assert_eq!(m.locate(&key("DDDD")), Lookup::Unmapped);
    assert!(m.take(0, &key("AAAA")).is_none());
    m.cache(
        0,
        Config { name: None, version: None, aerodromes: vec![aerodrome("AAAA"), aerodrome("BBBB"), aerodrome("ZZZZ")] },
    );
    assert_eq!(m.locate(&key("BBBB")), Lookup::Ready { index: 0 });
    assert_eq!(m.take(0, &key("AAAA")).map(|a| a.icao), Some(key("AAAA")));
    assert!(m.take(0, &key("AAAA")).is_none());
    // the last aerodrome took the place of the one taken
    let left: Vec<String> = m.sources[0].1.as_ref().unwrap().aerodromes.iter().map(|a| a.icao.clone()).collect();
    assert_eq!(left, vec![key("ZZZZ"), key("BBBB")]);
    assert!(remote("ftp://x"));
    assert!(!remote("dir/file"));
}

#[test]
fn broker_is_told_of_the_first_and_last_screen() {
    let mut i = Interest::new();
    assert!(i.track_aerodrome(key("AAAA"), true));
    assert!(!i.track_aerodrome(key("AAAA"), true));
    assert!(!i.track_aerodrome(key("BBBB"), false));
    assert!(!i.untrack_aerodrome(&key("AAAA"), true));
    assert!(i.untrack_aerodrome(&key("AAAA"), true));
    assert!(!i.untrack_aerodrome(&key("AAAA"), true));
    assert!(!i.untrack_aerodrome(&key("BBBB"), false));
    assert!(!i.untrack_aerodrome(&key("CCCC"), true));
}

#[test]
fn attempts_to_connect_end_connected_or_poisoned() {
    assert_eq!(after_attempt(Mode::Direct, Ok(())), (ConnectionState::ConnectedDirect, None));
    assert_eq!(after_attempt(Mode::Proxy, Ok(())), (ConnectionState::ConnectedProxy, None));
    assert_eq!(after_attempt(Mode::Local, Ok(())), (ConnectionState::ConnectedLocal, None));
    for (error, text) in [
        (ConnectError::Settings, "failed to load config"),
        (ConnectError::Unauthenticated, "unauthenticated"),
        (ConnectError::Mapping, "failed to load config mapping"),
        (ConnectError::Unreachable, "failed to connect"),
    ] {
        assert_eq!(
            after_attempt(Mode::Direct, Err(error)),
            (ConnectionState::Poisoned, Some(key(text)))
        );
    }
}
