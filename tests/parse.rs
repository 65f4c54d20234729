use nourl::{Error, Url, UrlScheme};

#[test]
fn test_parse_no_scheme() {
    assert_eq!(Error::NoScheme, Url::parse("").err().unwrap());
    assert_eq!(Error::NoScheme, Url::parse("http:/").err().unwrap());
}

#[test]
fn test_parse_unsupported_scheme() {
    assert_eq!(
        Error::UnsupportedScheme,
        Url::parse("something://").err().unwrap()
    );
}

#[test]
fn test_parse_no_host() {
    let url = Url::parse("http://").unwrap();
    assert_eq!(url.scheme(), UrlScheme::HTTP);
    assert_eq!(url.host(), "");
    assert_eq!(url.port_or_default(), 80);
    assert_eq!(url.path(), "/");
}

#[test]
fn test_parse_minimal() {
    let url = Url::parse("http://localhost").unwrap();
    assert_eq!(url.scheme(), UrlScheme::HTTP);
    assert_eq!(url.host(), "localhost");
    assert_eq!(url.port_or_default(), 80);
    assert_eq!(url.path(), "/");

    assert_eq!("http://localhost/", url.to_url_string());
}

#[test]
fn test_parse_path() {
    let url = Url::parse("http://localhost/foo/bar").unwrap();
    assert_eq!(url.scheme(), UrlScheme::HTTP);
    assert_eq!(url.host(), "localhost");
    assert_eq!(url.port_or_default(), 80);
    assert_eq!(url.path(), "/foo/bar");

    assert_eq!("http://localhost/foo/bar", url.to_url_string());
}

#[test]
fn test_parse_path_with_colon() {
    let url = Url::parse("http://localhost/foo/bar:123").unwrap();
    assert_eq!(url.scheme(), UrlScheme::HTTP);
    assert_eq!(url.host(), "localhost");
    assert_eq!(url.port_or_default(), 80);
    assert_eq!(url.path(), "/foo/bar:123");

    assert_eq!("http://localhost/foo/bar:123", url.to_url_string());
}

#[test]
fn test_parse_port() {
    let url = Url::parse("http://localhost:8088").unwrap();
    assert_eq!(url.scheme(), UrlScheme::HTTP);
    assert_eq!(url.host(), "localhost");
    assert_eq!(url.port().unwrap(), 8088);
    assert_eq!(url.path(), "/");

    assert_eq!("http://localhost:8088/", url.to_url_string());
}

#[test]
fn test_parse_port_path() {
    let url = Url::parse("http://localhost:8088/foo/bar").unwrap();
    assert_eq!(url.scheme(), UrlScheme::HTTP);
    assert_eq!(url.host(), "localhost");
    assert_eq!(url.port().unwrap(), 8088);
    assert_eq!(url.path(), "/foo/bar");

    assert_eq!("http://localhost:8088/foo/bar", url.to_url_string());
}

#[test]
fn test_parse_scheme() {
    let url = Url::parse("https://localhost/").unwrap();
    assert_eq!(url.scheme(), UrlScheme::HTTPS);
    assert_eq!(url.host(), "localhost");
    assert_eq!(url.port_or_default(), 443);
    assert_eq!(url.path(), "/");

    assert_eq!("https://localhost/", url.to_url_string());
}

#[test]
fn test_parse_ipv4() {
    let url = Url::parse("https://127.0.0.1:1337/foo/bar").unwrap();
    assert_eq!(url.scheme(), UrlScheme::HTTPS);
    assert_eq!(url.host(), "127.0.0.1");
    assert!(!url.is_host_ipv6());
    assert_eq!(url.port_or_default(), 1337);
    assert_eq!(url.path(), "/foo/bar");

    assert_eq!("https://127.0.0.1:1337/foo/bar", url.to_url_string());
}

#[test]
fn test_parse_ipv6() {
    let url = Url::parse("https://[fe80::%1]/foo/bar").unwrap();
    assert_eq!(url.scheme(), UrlScheme::HTTPS);
    assert_eq!(url.host(), "fe80::");
    assert!(url.is_host_ipv6());
    assert_eq!(url.scope_id_or_default(), 1);
    assert_eq!(url.port_or_default(), 443);
    assert_eq!(url.path(), "/foo/bar");

    assert_eq!("https://[fe80::%1]/foo/bar", url.to_url_string());
}

#[test]
fn test_parse_ipv6_port() {
    let url = Url::parse("https://[fe80::%1]:1337/foo/bar").unwrap();
    assert_eq!(url.scheme(), UrlScheme::HTTPS);
    assert_eq!(url.host(), "fe80::");
    assert!(url.is_host_ipv6());
    assert_eq!(url.scope_id(), Some(1));
    assert_eq!(url.port_or_default(), 1337);
    assert_eq!(url.path(), "/foo/bar");

    assert_eq!("https://[fe80::%1]:1337/foo/bar", url.to_url_string());
}

#[test]
fn test_invalid_ipv6() {
    assert_eq!(
        Url::parse("http://[fe80::/"),
        Err(Error::Ipv6AddressInvalid)
    );
}

#[test]
fn test_leftover_tokens_ipv6() {
    assert_eq!(
        Url::parse("http://[fe80]a/"),
        Err(Error::LeftoverTokensAfterIpv6)
    );
}

#[test]
fn test_no_port_after_colon() {
    assert_eq!(
        Url::parse("http://localhost:/"),
        Err(Error::NoPortAfterColon)
    );
    assert_eq!(
        Url::parse("http://[fe80::]:/"),
        Err(Error::NoPortAfterColon)
    );
}

#[test]
fn test_invalid_port() {
    assert_eq!(
        Url::parse("http://localhost:12E4/"),
        Err(Error::InvalidPort)
    );
    assert_eq!(Url::parse("http://[fe80::]:12E4/"), Err(Error::InvalidPort));
}
