use nourl::{Error, Url, UrlScheme};

#[test]
fn same_text_parses_the_same() {
    for text in ["http://localhost:8088/a", "https://[fe80::%3]/", "http://a:x/", "ftp://x"] {
        assert_eq!(Url::parse(text), Url::parse(text));
    }
}

#[test]
fn rendered_url_parses_back() {
    for text in [
        "http://localhost",
        "HTTP://Example.org:0080/a/b:1",
        "https://[fe80::]:443/x",
        "https://[fe80::%7]:1/x",
        "http://:5/",
        "http://+42",
        "http://a/b://c",
    ] {
        let url = Url::parse(text).unwrap();
        let written = url.to_url_string();
        assert_eq!(Url::parse(&written), Ok(url));
    }
}

#[test]
fn rendered_url_is_canonical() {
    let url = Url::parse("HTTP://Example.org:0080/a").unwrap();
    assert_eq!(url.to_url_string(), "http://Example.org:80/a");
    let url = Url::parse("https://[::1%0042]").unwrap();
    assert_eq!(url.to_url_string(), "https://[::1%42]/");
}

#[test]
fn port_or_default_follows_the_scheme() {
    assert_eq!(UrlScheme::HTTP.default_port(), 80);
    assert_eq!(UrlScheme::HTTPS.default_port(), 443);
    assert_eq!(UrlScheme::MQTT.default_port(), 1883);
    assert_eq!(UrlScheme::MQTTS.default_port(), 8883);
    let url = Url::parse("https://host").unwrap();
    assert_eq!(url.port(), None);
    assert_eq!(url.port_or_default(), 443);
    let url = Url::parse("https://host:80").unwrap();
    assert_eq!(url.port(), Some(80));
    assert_eq!(url.port_or_default(), 80);
}

#[test]
fn scheme_names() {
    assert_eq!(UrlScheme::HTTP.as_str(), "http");
    assert_eq!(UrlScheme::HTTPS.as_str(), "https");
    assert_eq!(UrlScheme::MQTT.as_str(), "mqtt");
    assert_eq!(UrlScheme::MQTTS.as_str(), "mqtts");
}

#[test]
fn ipv6_host_without_zone() {
    let url = Url::parse("http://[fe80::]").unwrap();
    assert_eq!(url.host(), "fe80::");
    assert!(url.is_host_ipv6());
    assert_eq!(url.scope_id(), None);
    assert_eq!(url.scope_id_or_default(), 0);
    assert_eq!(url.path(), "/");
}

#[test]
fn ipv6_host_with_zone() {
    let url = Url::parse("http://[fe80::%1]").unwrap();
    assert_eq!(url.host(), "fe80::");
    assert_eq!(url.scope_id(), Some(1));
    assert_eq!(url.port(), None);
}

#[test]
fn path_defaults_to_slash() {
    assert_eq!(Url::parse("http://a:1").unwrap().path(), "/");
    assert_eq!(Url::parse("https://[::1]:8").unwrap().path(), "/");
    assert_eq!(Url::parse("http://").unwrap().path(), "/");
}

#[test]
fn localhost_with_port_and_path() {
    let url = Url::parse("http://localhost:8088/foo/bar").unwrap();
    assert_eq!(url.scheme(), UrlScheme::HTTP);
    assert_eq!(url.host(), "localhost");
    assert_eq!(url.port(), Some(8088));
    assert_eq!(url.path(), "/foo/bar");
}

#[test]
fn ipv4_host_with_port() {
    let url = Url::parse("https://127.0.0.1:1337/foo/bar").unwrap();
    assert_eq!(url.scheme(), UrlScheme::HTTPS);
    assert_eq!(url.host(), "127.0.0.1");
    assert_eq!(url.port_or_default(), 1337);
    assert_eq!(url.scope_id(), None);
}

#[test]
fn scheme_is_matched_without_case() {
    assert_eq!(Url::parse("HtTpS://x").unwrap().scheme(), UrlScheme::HTTPS);
    assert_eq!(Url::parse("mqtt://x"), Err(Error::UnsupportedScheme));
    assert_eq!(Url::parse("htt://x"), Err(Error::UnsupportedScheme));
}

#[test]
fn everything_after_the_first_separator_is_kept() {
    let url = Url::parse("http://a/b://c").unwrap();
    assert_eq!(url.host(), "a");
    assert_eq!(url.path(), "/b://c");
}

#[test]
fn port_limits() {
    assert_eq!(Url::parse("http://a:65535").unwrap().port(), Some(65535));
    assert_eq!(Url::parse("http://a:0").unwrap().port(), Some(0));
    assert_eq!(Url::parse("http://a:+8"), Err(Error::InvalidPort));
    assert_eq!(Url::parse("http://a:+80/"), Err(Error::InvalidPort));
    assert_eq!(Url::parse("http://[::1]:+80"), Err(Error::InvalidPort));
    assert_eq!(Url::parse("http://a:007").unwrap().port(), Some(7));
    assert_eq!(Url::parse("http://a:65536"), Err(Error::InvalidPort));
    assert_eq!(Url::parse("http://a:-1"), Err(Error::InvalidPort));
    assert_eq!(Url::parse("http://a:+"), Err(Error::InvalidPort));
    assert_eq!(Url::parse("http://a:1:2"), Err(Error::InvalidPort));
    assert_eq!(Url::parse("http://a:99999999999999999999"), Err(Error::InvalidPort));
}

#[test]
fn scope_id_errors() {
    assert_eq!(Url::parse("http://[fe80::%]/"), Err(Error::NoScopeIdAfterPercent));
    assert_eq!(Url::parse("http://[fe80::%eth0]/"), Err(Error::InvalidScopeId));
    assert_eq!(Url::parse("http://[fe80::%4294967296]/"), Err(Error::InvalidScopeId));
    assert_eq!(
        Url::parse("http://[fe80::%4294967295]").unwrap().scope_id(),
        Some(4294967295)
    );
    assert_eq!(Url::parse("http://[::1%+1]"), Err(Error::InvalidScopeId));
}

#[test]
fn zone_is_read_before_what_follows_the_bracket() {
    assert_eq!(Url::parse("http://[fe80::%]:/"), Err(Error::NoScopeIdAfterPercent));
    assert_eq!(Url::parse("http://[fe80::%x]:y/"), Err(Error::InvalidScopeId));
    assert_eq!(Url::parse("http://[fe80::%]x/"), Err(Error::NoScopeIdAfterPercent));
    assert_eq!(Url::parse("http://[fe80::%1]x/"), Err(Error::LeftoverTokensAfterIpv6));
    assert_eq!(Url::parse("http://[fe80::%1]:/"), Err(Error::NoPortAfterColon));
    assert_eq!(Url::parse("http://[fe80::%1]:y/"), Err(Error::InvalidPort));
}

#[test]
fn bracket_errors() {
    assert_eq!(Url::parse("http://[fe80::"), Err(Error::Ipv6AddressInvalid));
    assert_eq!(Url::parse("http://[::1]x:80/"), Err(Error::LeftoverTokensAfterIpv6));
    let url = Url::parse("http://a[b]:1").unwrap();
    assert_eq!(url.host(), "a[b]");
    assert!(!url.is_host_ipv6());
}

#[test]
fn non_ascii_text_is_kept_whole() {
    let url = Url::parse("http://bücher.example/ü:1").unwrap();
    assert_eq!(url.host(), "bücher.example");
    assert_eq!(url.path(), "/ü:1");
    assert_eq!(url.to_url_string(), "http://bücher.example/ü:1");
}

#[test]
fn no_scheme_errors() {
    assert_eq!(Url::parse(""), Err(Error::NoScheme));
    assert_eq!(Url::parse("http:/"), Err(Error::NoScheme));
    assert_eq!(Url::parse("http"), Err(Error::NoScheme));
    assert_eq!(Url::parse("something://"), Err(Error::UnsupportedScheme));
}
