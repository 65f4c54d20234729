//! Facts about the parser as a whole: determinism, the shape of every parsed URL, the default
//! path, and that writing a parsed URL out and parsing it again gives it back.
use crate::error::Error;
use crate::scheme::{scheme_of, UrlScheme};
use crate::text::{
    all_digits, decimal, decimal_value, digits_value, find_byte,
    find_sep, lemma_find_byte_bounds, lemma_find_byte_is, lemma_find_sep_bounds,
    lemma_find_sep_is, sep_at, CLOSE_BRACKET, COLON, OPEN_BRACKET, PERCENT, SLASH,
};
use crate::url::{
    default_path, parse_url, port_of_text, render, scope_id_of_text, split_authority,
    AuthorityView, UrlView,
};
use vstd::prelude::*;
use vstd::string::StringSliceAdditionalSpecFns;

verus! {

/// No byte of `s` is `c`.
pub open spec fn lacks(s: Seq<u8>, c: u8) -> bool {
    forall|i: int| 0 <= i < s.len() ==> s[i] != c
}

/// What holds of every URL that `parse` returns: the scheme is one that the parser
/// recognizes; the path is non-empty and starts with `/`; a scope ID comes only with an IPv6
/// host; the host holds no `/`; an IPv6 host holds no `]` and no `%`; any other host holds no
/// `:` and does not start with `[`.
pub open spec fn well_formed(v: UrlView) -> bool {
    &&& v.scheme == UrlScheme::HTTP || v.scheme == UrlScheme::HTTPS
    &&& v.path.len() > 0
    &&& v.path[0] == SLASH
    &&& v.scope_id is Some ==> v.is_host_ipv6
    &&& lacks(v.host, SLASH)
    &&& if v.is_host_ipv6 {
        lacks(v.host, CLOSE_BRACKET) && lacks(v.host, PERCENT)
    } else {
        lacks(v.host, COLON) && !(v.host.len() > 0 && v.host[0] == OPEN_BRACKET)
    }
}

/// Parsing is deterministic: the same text always gives the same outcome.
pub proof fn lemma_parse_deterministic(a: &str, b: &str)
    requires
        a@ == b@,
    ensures
        parse_url(a.spec_bytes()) == parse_url(b.spec_bytes()),
{
}

/// Every URL that parsing returns is well formed.
pub proof fn lemma_parse_well_formed(b: Seq<u8>)
    requires
        parse_url(b) is Ok,
    ensures
        well_formed(parse_url(b)->Ok_0),
{
    lemma_find_sep_bounds(b);
    let s = find_sep(b);
    let rest = b.subrange(s + 3, b.len() as int);
    lemma_find_byte_bounds(rest, SLASH);
    let p = find_byte(rest, SLASH);
    let a = rest.subrange(0, p);
    assert(lacks(a, SLASH));
    if a.len() > 0 && a[0] == OPEN_BRACKET {
        lemma_find_byte_bounds(a, CLOSE_BRACKET);
        let e = find_byte(a, CLOSE_BRACKET);
        let inner = a.subrange(1, e);
        lemma_find_byte_bounds(inner, PERCENT);
        let q = find_byte(inner, PERCENT);
        let h = inner.subrange(0, q);
        assert(lacks(h, SLASH));
        assert(lacks(h, CLOSE_BRACKET));
        assert(lacks(h, PERCENT));
    } else {
        lemma_find_byte_bounds(a, COLON);
        let c = find_byte(a, COLON);
        let h = a.subrange(0, c);
        assert(lacks(h, SLASH));
        assert(lacks(h, COLON));
    }
}

/// A URL whose text after `://` holds no `/` has the path `/`.
pub proof fn lemma_path_defaults_to_slash(b: Seq<u8>)
    requires
        find_sep(b) < b.len(),
        lacks(b.subrange(find_sep(b) + 3, b.len() as int), SLASH),
        parse_url(b) is Ok,
    ensures
        parse_url(b)->Ok_0.path == default_path(),
{
    lemma_find_sep_bounds(b);
    let rest = b.subrange(find_sep(b) + 3, b.len() as int);
    lemma_find_byte_is(rest, SLASH, rest.len() as int);
}

/// The decimal digits of a number read back as that number.
pub proof fn lemma_decimal_reads_back(n: nat)
    ensures
        decimal(n).len() > 0,
        all_digits(decimal(n)),
        decimal(n)[0] != COLON && decimal(n)[0] != PERCENT,
        lacks(decimal(n), SLASH),
        lacks(decimal(n), CLOSE_BRACKET),
        lacks(decimal(n), PERCENT),
        digits_value(decimal(n)) == n,
        decimal_value(decimal(n)) == Some(n),
    decreases n,
{
    let d = decimal(n);
    if n >= 10 {
        lemma_decimal_reads_back(n / 10);
        let h = decimal(n / 10);
        assert(d.drop_last() =~= h);
        assert(d[0] == h[0]);
        assert(d.last() == (48 + n % 10) as u8);
        assert(0 <= n % 10 < 10 && (n / 10) * 10 + n % 10 == n) by (nonlinear_arith);
        assert(digits_value(d) == digits_value(h) * 10 + n % 10);
    } else {
        assert(d.drop_last() =~= Seq::<u8>::empty());
        assert(d.last() == (48 + n) as u8);
        assert(digits_value(d) == digits_value(d.drop_last()) * 10 + n);
    }
}

/// Writing a parsed URL out and parsing the text again gives the same URL back, scope ID
/// included.
pub proof fn lemma_render_round_trip(b: Seq<u8>)
    requires
        parse_url(b) is Ok,
    ensures
        parse_url(render(parse_url(b)->Ok_0)) == parse_url(b),
{
    lemma_parse_well_formed(b);
    lemma_well_formed_round_trip(parse_url(b)->Ok_0);
}

/// The `:port` part of a rendered URL, empty without a port.
spec fn port_text(v: UrlView) -> Seq<u8> {
    match v.port {
        Some(p) => seq![COLON] + decimal(p as nat),
        None => Seq::<u8>::empty(),
    }
}

/// The `%scope` part of a rendered IPv6 host, empty without a scope ID.
spec fn zone_text(v: UrlView) -> Seq<u8> {
    match v.scope_id {
        Some(z) => seq![PERCENT] + decimal(z as nat),
        None => Seq::<u8>::empty(),
    }
}

/// The host of a rendered URL, in brackets when it is an IPv6 literal.
spec fn host_text(v: UrlView) -> Seq<u8> {
    if v.is_host_ipv6 {
        seq![OPEN_BRACKET] + v.host + zone_text(v) + seq![CLOSE_BRACKET]
    } else {
        v.host
    }
}

/// A well-formed URL, written out, parses back to itself.
pub proof fn lemma_well_formed_round_trip(v: UrlView)
    requires
        well_formed(v),
    ensures
        parse_url(render(v)) == Ok::<UrlView, Error>(v),
{
    let name = v.scheme.name();
    let r = render(v);
    let host = host_text(v);
    let port = port_text(v);
    let rest = host + port + v.path;
    assert(r =~= name + seq![COLON, SLASH, SLASH] + rest);
    // The scheme ends at the first `://`.
    assert forall|j: int| 0 <= j < name.len() implies !sep_at(r, j) by {
        assert(r[j] == name[j]);
    }
    lemma_find_sep_is(r, name.len() as int);
    assert(r.subrange(0, name.len() as int) =~= name);
    assert(scheme_of(name) == Some(v.scheme));
    assert(r.subrange(name.len() as int + 3, r.len() as int) =~= rest);
    // The authority ends at the path's leading `/`.
    if v.port is Some {
        lemma_decimal_reads_back(v.port->Some_0 as nat);
    }
    if v.scope_id is Some {
        lemma_decimal_reads_back(v.scope_id->Some_0 as nat);
    }
    let a = host + port;
    assert(lacks(host, SLASH));
    assert(lacks(port, SLASH));
    assert forall|j: int| 0 <= j < a.len() implies rest[j] != SLASH by {
        if j < host.len() {
            assert(rest[j] == host[j]);
        } else {
            assert(rest[j] == port[j - host.len()]);
        }
    }
    assert(rest[a.len() as int] == v.path[0]);
    lemma_find_byte_is(rest, SLASH, a.len() as int);
    assert(rest.subrange(0, a.len() as int) =~= a);
    assert(rest.subrange(a.len() as int, rest.len() as int) =~= v.path);
    lemma_authority_round_trip(v);
}

/// The authority of a well-formed URL, written out, reads back as its parts.
proof fn lemma_authority_round_trip(v: UrlView)
    requires
        well_formed(v),
    ensures
        split_authority(host_text(v) + port_text(v)) == Ok::<AuthorityView, Error>(
            AuthorityView {
                host: v.host,
                is_host_ipv6: v.is_host_ipv6,
                scope_id: v.scope_id,
                port: v.port,
            },
        ),
{
    let host = host_text(v);
    let port = port_text(v);
    let a = host + port;
    let port_digits = match v.port {
        Some(p) => Some(decimal(p as nat)),
        None => None,
    };
    let zone_digits = match v.scope_id {
        Some(z) => Some(decimal(z as nat)),
        None => None,
    };
    if v.port is Some {
        lemma_decimal_reads_back(v.port->Some_0 as nat);
        assert(port.drop_first() =~= decimal(v.port->Some_0 as nat));
    }
    if v.scope_id is Some {
        lemma_decimal_reads_back(v.scope_id->Some_0 as nat);
    }
    assert(port_of_text(port_digits) == Ok::<Option<u16>, Error>(v.port));
    assert(scope_id_of_text(zone_digits) == Ok::<Option<u32>, Error>(v.scope_id));
    if v.is_host_ipv6 {
        let zone = zone_text(v);
        let inner = v.host + zone;
        let e: int = 1 + inner.len() as int;
        assert(a =~= seq![OPEN_BRACKET] + inner + seq![CLOSE_BRACKET] + port);
        assert forall|j: int| 0 <= j < e implies a[j] != CLOSE_BRACKET by {
            if 1 <= j < 1 + v.host.len() {
                assert(a[j] == v.host[j - 1]);
            } else if j >= 1 + v.host.len() {
                assert(a[j] == zone[j - 1 - v.host.len()]);
            }
        }
        lemma_find_byte_is(a, CLOSE_BRACKET, e);
        assert(a.subrange(1, e) =~= inner);
        assert forall|j: int| 0 <= j < v.host.len() implies inner[j] != PERCENT by {
            assert(inner[j] == v.host[j]);
        }
        lemma_find_byte_is(inner, PERCENT, v.host.len() as int);
        assert(inner.subrange(0, v.host.len() as int) =~= v.host);
        if v.scope_id is Some {
            assert(inner.subrange(v.host.len() as int + 1, inner.len() as int) =~= zone_digits->Some_0);
        }
        assert(a.subrange(e + 1, a.len() as int) =~= port);
    } else {
        assert(a =~= v.host + port);
        assert forall|j: int| 0 <= j < v.host.len() implies a[j] != COLON by {
            assert(a[j] == v.host[j]);
        }
        lemma_find_byte_is(a, COLON, v.host.len() as int);
        assert(a.subrange(0, v.host.len() as int) =~= v.host);
        if v.port is Some {
            assert(a.subrange(v.host.len() as int + 1, a.len() as int) =~= port_digits->Some_0);
        }
    }
}

} // verus!
