use crate::error::Error;
use crate::scheme::{scheme_from_token, scheme_of, UrlScheme};
use crate::text::{
    after_ascii, bounded_decimal, decimal, find_byte, find_byte_in, find_sep, find_sep_in,
    lemma_find_byte_bounds, lemma_find_sep_bounds, parse_decimal, split_ascii, CLOSE_BRACKET, COLON,
    OPEN_BRACKET, PERCENT, SLASH, push_decimal, push_text,
};
use vstd::utf8::encode_utf8;
use vstd::prelude::*;
use vstd::string::*;

verus! {

broadcast use is_ascii_spec_bytes;

/// A parsed URL as values: the text fields are the UTF-8 bytes of the borrowed slices.
pub struct UrlView {
    pub scheme: UrlScheme,
    pub host: Seq<u8>,
    pub is_host_ipv6: bool,
    pub scope_id: Option<u32>,
    pub port: Option<u16>,
    pub path: Seq<u8>,
}

/// What an authority (`host[:port]` or `[address[%zone]][:port]`) gives a parsed URL.
pub struct AuthorityView {
    pub host: Seq<u8>,
    pub is_host_ipv6: bool,
    pub scope_id: Option<u32>,
    pub port: Option<u16>,
}

/// Largest value of a port.
pub const PORT_MAX: u32 = 65535;

/// Largest value of a scope ID.
pub const SCOPE_ID_MAX: u32 = 4294967295;

/// The path used when the URL gives none.
pub open spec fn default_path() -> Seq<u8> {
    seq![SLASH]
}

/// Reads the text after a port's `:`; `None` when the authority has no `:` for a port.
pub open spec fn port_of_text(t: Option<Seq<u8>>) -> Result<Option<u16>, Error> {
    match t {
        None => Ok(None),
        Some(t) => if t.len() == 0 {
            Err(Error::NoPortAfterColon)
        } else {
            match bounded_decimal(t, PORT_MAX as nat) {
                Some(v) => Ok(Some(v as u16)),
                None => Err(Error::InvalidPort),
            }
        },
    }
}

/// Reads the text after a zone's `%`; `None` when the IPv6 literal has no `%`.
pub open spec fn scope_id_of_text(t: Option<Seq<u8>>) -> Result<Option<u32>, Error> {
    match t {
        None => Ok(None),
        Some(t) => if t.len() == 0 {
            Err(Error::NoScopeIdAfterPercent)
        } else {
            match bounded_decimal(t, SCOPE_ID_MAX as nat) {
                Some(v) => Ok(Some(v as u32)),
                None => Err(Error::InvalidScopeId),
            }
        },
    }
}

/// Reads an authority.
///
/// A bracketed authority is an IPv6 literal, read in this order: the first `]` closes it; the
/// host is what stands between `[` and `]`, up to a `%` that starts the zone text, which is
/// read next; after `]` only a `:` and the port text may follow. Any other authority is the
/// host up to the first `:`, and the port text after it.
pub open spec fn split_authority(a: Seq<u8>) -> Result<AuthorityView, Error> {
    if a.len() > 0 && a[0] == OPEN_BRACKET {
        let e = find_byte(a, CLOSE_BRACKET);
        if e >= a.len() {
            Err(Error::Ipv6AddressInvalid)
        } else {
            let inner = a.subrange(1, e);
            let q = find_byte(inner, PERCENT);
            let zone = if q < inner.len() {
                Some(inner.subrange(q + 1, inner.len() as int))
            } else {
                None
            };
            let after = a.subrange(e + 1, a.len() as int);
            match scope_id_of_text(zone) {
                Err(err) => Err(err),
                Ok(scope_id) => if after.len() > 0 && after[0] != COLON {
                    Err(Error::LeftoverTokensAfterIpv6)
                } else {
                    let port_text = if after.len() > 0 {
                        Some(after.drop_first())
                    } else {
                        None
                    };
                    match port_of_text(port_text) {
                        Err(err) => Err(err),
                        Ok(port) => Ok(
                            AuthorityView {
                                host: inner.subrange(0, q),
                                is_host_ipv6: true,
                                scope_id,
                                port,
                            },
                        ),
                    }
                },
            }
        }
    } else {
        let c = find_byte(a, COLON);
        let port_text = if c < a.len() {
            Some(a.subrange(c + 1, a.len() as int))
        } else {
            None
        };
        match port_of_text(port_text) {
            Err(err) => Err(err),
            Ok(port) => Ok(
                AuthorityView { host: a.subrange(0, c), is_host_ipv6: false, scope_id: None, port },
            ),
        }
    }
}

/// What follows `scheme://`: the authority runs up to the first `/`, the path from there on.
pub open spec fn parse_rest(scheme: UrlScheme, rest: Seq<u8>) -> Result<UrlView, Error> {
    let p = find_byte(rest, SLASH);
    let path = if p < rest.len() {
        rest.subrange(p, rest.len() as int)
    } else {
        default_path()
    };
    match split_authority(rest.subrange(0, p)) {
        Ok(a) => Ok(
            UrlView {
                scheme,
                host: a.host,
                is_host_ipv6: a.is_host_ipv6,
                scope_id: a.scope_id,
                port: a.port,
                path,
            },
        ),
        Err(e) => Err(e),
    }
}

/// The outcome of parsing the URL whose UTF-8 bytes are `b`.
pub open spec fn parse_url(b: Seq<u8>) -> Result<UrlView, Error> {
    let s = find_sep(b);
    if s >= b.len() {
        Err(Error::NoScheme)
    } else {
        match scheme_of(b.subrange(0, s)) {
            Some(scheme) => parse_rest(scheme, b.subrange(s + 3, b.len() as int)),
            None => Err(Error::UnsupportedScheme),
        }
    }
}

/// The literal form of a parsed URL: `scheme://host[:port]path`, with the host as
/// `[host[%scope]]` when it is an IPv6 literal.
pub open spec fn render(v: UrlView) -> Seq<u8> {
    let host = if v.is_host_ipv6 {
        seq![OPEN_BRACKET] + v.host + match v.scope_id {
            Some(z) => seq![PERCENT] + decimal(z as nat),
            None => Seq::<u8>::empty(),
        } + seq![CLOSE_BRACKET]
    } else {
        v.host
    };
    let port = match v.port {
        Some(p) => seq![COLON] + decimal(p as nat),
        None => Seq::<u8>::empty(),
    };
    v.scheme.name() + seq![COLON, SLASH, SLASH] + host + port + v.path
}

/// A parsed URL to extract different parts of the URL.
#[derive(Clone, Copy, PartialEq, Eq, PartialOrd, Ord, Hash, Debug)]
pub struct Url<'a> {
    scheme: UrlScheme,
    host: &'a str,
    is_host_ipv6: bool,
    scope_id: Option<u32>,
    port: Option<u16>,
    path: &'a str,
}

impl<'a> View for Url<'a> {
    type V = UrlView;

    closed spec fn view(&self) -> UrlView {
        UrlView {
            scheme: self.scheme,
            host: self.host.spec_bytes(),
            is_host_ipv6: self.is_host_ipv6,
            scope_id: self.scope_id,
            port: self.port,
            path: self.path.spec_bytes(),
        }
    }
}

struct Authority<'a> {
    host: &'a str,
    is_host_ipv6: bool,
    scope_id: Option<u32>,
    port: Option<u16>,
}

impl<'a> Authority<'a> {
    spec fn view(&self) -> AuthorityView {
        AuthorityView {
            host: self.host.spec_bytes(),
            is_host_ipv6: self.is_host_ipv6,
            scope_id: self.scope_id,
            port: self.port,
        }
    }
}

spec fn text_bytes(t: Option<&str>) -> Option<Seq<u8>> {
    match t {
        Some(t) => Some(t.spec_bytes()),
        None => None,
    }
}

fn read_port(t: Option<&str>) -> (r: Result<Option<u16>, Error>)
    ensures
        r == port_of_text(text_bytes(t)),
{
    match t {
        None => Ok(None),
        Some(t) => if t.as_bytes().len() == 0 {
            Err(Error::NoPortAfterColon)
        } else {
            match parse_decimal(t, PORT_MAX) {
                Some(v) => Ok(Some(v as u16)),
                None => Err(Error::InvalidPort),
            }
        },
    }
}

fn read_scope_id(t: Option<&str>) -> (r: Result<Option<u32>, Error>)
    ensures
        r == scope_id_of_text(text_bytes(t)),
{
    match t {
        None => Ok(None),
        Some(t) => if t.as_bytes().len() == 0 {
            Err(Error::NoScopeIdAfterPercent)
        } else {
            match parse_decimal(t, SCOPE_ID_MAX) {
                Some(v) => Ok(Some(v)),
                None => Err(Error::InvalidScopeId),
            }
        },
    }
}

fn authority_parts<'a>(a: &'a str) -> (r: Result<Authority<'a>, Error>)
    ensures
        match r {
            Ok(x) => split_authority(a.spec_bytes()) == Ok::<AuthorityView, Error>(x.view()),
            Err(e) => split_authority(a.spec_bytes()) == Err::<AuthorityView, Error>(e),
        },
{
    let b = a.as_bytes();
    let ghost ab = a.spec_bytes();
    if b.len() > 0 && b[0] == OPEN_BRACKET {
        let e = find_byte_in(a, CLOSE_BRACKET);
        proof {
            lemma_find_byte_bounds(ab, CLOSE_BRACKET);
        }
        if e >= b.len() {
            return Err(Error::Ipv6AddressInvalid);
        }
        let (head, _) = split_ascii(a, e);
        let inner = after_ascii(head, 0);
        assert(inner.spec_bytes() =~= ab.subrange(1, e as int));
        let q = find_byte_in(inner, PERCENT);
        proof {
            lemma_find_byte_bounds(inner.spec_bytes(), PERCENT);
        }
        let (host, _) = split_ascii(inner, q);
        let zone = if q < inner.as_bytes().len() {
            Some(after_ascii(inner, q))
        } else {
            None
        };
        let scope_id = match read_scope_id(zone) {
            Ok(z) => z,
            Err(err) => return Err(err),
        };
        let after = after_ascii(a, e);
        let tail = after.as_bytes();
        let port_text = if tail.len() == 0 {
            None
        } else if tail[0] == COLON {
            let p = after_ascii(after, 0);
            assert(p.spec_bytes() =~= after.spec_bytes().drop_first());
            Some(p)
        } else {
            return Err(Error::LeftoverTokensAfterIpv6);
        };
        let port = match read_port(port_text) {
            Ok(p) => p,
            Err(err) => return Err(err),
        };
        Ok(Authority { host, is_host_ipv6: true, scope_id, port })
    } else {
        let c = find_byte_in(a, COLON);
        proof {
            lemma_find_byte_bounds(ab, COLON);
        }
        let (host, _) = split_ascii(a, c);
        let port_text = if c < b.len() {
            Some(after_ascii(a, c))
        } else {
            None
        };
        let port = match read_port(port_text) {
            Ok(p) => p,
            Err(err) => return Err(err),
        };
        Ok(Authority { host, is_host_ipv6: false, scope_id: None, port })
    }
}

impl<'a> Url<'a> {
    /// Parse the provided url
    ///
    /// The host may be an IP address. An IPv6 address has to be surrounded by square brackets.
    pub fn parse(url: &'a str) -> (r: Result<Url<'a>, Error>)
        ensures
            match r {
                Ok(u) => parse_url(url.spec_bytes()) == Ok::<UrlView, Error>(u@),
                Err(e) => parse_url(url.spec_bytes()) == Err::<UrlView, Error>(e),
            },
    {
        let ghost b = url.spec_bytes();
        let s = find_sep_in(url);
        proof {
            lemma_find_sep_bounds(b);
        }
        if s >= url.as_bytes().len() {
            return Err(Error::NoScheme);
        }
        let (token, _) = split_ascii(url, s);
        let scheme = match scheme_from_token(token) {
            Some(scheme) => scheme,
            None => return Err(Error::UnsupportedScheme),
        };
        let rest = after_ascii(url, s + 2);
        let ghost rb = rest.spec_bytes();
        assert(rb =~= b.subrange(s + 3, b.len() as int));
        let p = find_byte_in(rest, SLASH);
        proof {
            lemma_find_byte_bounds(rb, SLASH);
        }
        let (authority, tail) = split_ascii(rest, p);
        let path = if p < rest.as_bytes().len() {
            tail
        } else {
            proof {
                reveal_strlit("/");
                assert(is_ascii("/"));
                assert("/".spec_bytes() =~= default_path());
            }
            "/"
        };
        let a = match authority_parts(authority) {
            Ok(a) => a,
            Err(e) => return Err(e),
        };
        let u = Url {
            scheme,
            host: a.host,
            is_host_ipv6: a.is_host_ipv6,
            scope_id: a.scope_id,
            port: a.port,
            path,
        };
        Ok(u)
    }

    /// Get the url scheme
    pub fn scheme(&self) -> (r: UrlScheme)
        ensures
            r == self@.scheme,
    {
        self.scheme
    }

    /// Get the url host
    pub fn host(&self) -> (r: &'a str)
        ensures
            r.spec_bytes() == self@.host,
    {
        self.host
    }

    /// Whether the host was given as a bracketed IPv6 literal
    pub fn is_host_ipv6(&self) -> (r: bool)
        ensures
            r == self@.is_host_ipv6,
    {
        self.is_host_ipv6
    }

    /// Get the url port if specified
    pub fn port(&self) -> (r: Option<u16>)
        ensures
            r == self@.port,
    {
        self.port
    }

    /// Get the url port or the default port for the scheme
    pub fn port_or_default(&self) -> (r: u16)
        ensures
            r == match self@.port {
                Some(p) => p,
                None => self@.scheme.spec_default_port(),
            },
    {
        match self.port {
            Some(p) => p,
            None => self.scheme.default_port(),
        }
    }

    /// Get the scope ID of the IPv6 address specified in the url
    pub fn scope_id(&self) -> (r: Option<u32>)
        ensures
            r == self@.scope_id,
    {
        self.scope_id
    }

    /// Get the scope ID of the IPv6 address specified in the url or the default scope ID
    pub fn scope_id_or_default(&self) -> (r: u32)
        ensures
            r == match self@.scope_id {
                Some(z) => z,
                None => 0,
            },
    {
        match self.scope_id {
            Some(z) => z,
            None => 0,
        }
    }

    /// Get the url path
    pub fn path(&self) -> (r: &'a str)
        ensures
            r.spec_bytes() == self@.path,
    {
        self.path
    }
    /// The URL written out again: `scheme://host[:port]path`, with an IPv6 host in brackets
    /// and its scope ID after a `%`.
    pub fn to_url_string(&self) -> (r: String)
        ensures
            encode_utf8(r@) == render(self@),
    {
        let mut s = String::new();
        push_text(&mut s, self.scheme.as_str());
        let sep = "://";
        proof {
            reveal_strlit("://");
            assert(is_ascii(sep));
            assert(sep.spec_bytes() =~= seq![COLON, SLASH, SLASH]);
        }
        push_text(&mut s, sep);
        if self.is_host_ipv6 {
            let open = "[";
            let close = "]";
            proof {
                reveal_strlit("[");
                reveal_strlit("]");
                assert(is_ascii(open));
                assert(is_ascii(close));
                assert(open.spec_bytes() =~= seq![OPEN_BRACKET]);
                assert(close.spec_bytes() =~= seq![CLOSE_BRACKET]);
            }
            push_text(&mut s, open);
            push_text(&mut s, self.host);
            if let Some(z) = self.scope_id {
                let percent = "%";
                proof {
                    reveal_strlit("%");
                    assert(is_ascii(percent));
                    assert(percent.spec_bytes() =~= seq![PERCENT]);
                }
                push_text(&mut s, percent);
                push_decimal(&mut s, z);
            }
            push_text(&mut s, close);
        } else {
            push_text(&mut s, self.host);
        }
        if let Some(p) = self.port {
            let colon = ":";
            proof {
                reveal_strlit(":");
                assert(is_ascii(colon));
                assert(colon.spec_bytes() =~= seq![COLON]);
            }
            push_text(&mut s, colon);
            push_decimal(&mut s, p as u32);
        }
        push_text(&mut s, self.path);
        assert(encode_utf8(s@) =~= render(self@));
        s
    }
}

} // verus!
