use vstd::prelude::*;

verus! {

/// Why a URL was rejected.
#[derive(Debug, Clone, Copy, PartialEq, Eq, Structural)]
pub enum Error {
    /// The url did not start with `<scheme>://`.
    NoScheme,
    /// The scheme in the url is not known.
    UnsupportedScheme,
    /// There was no closing square bracket after the IPv6 address.
    Ipv6AddressInvalid,
    /// There were tokens between the closing bracket of an IPv6 address and the next slash
    /// that were not a colon.
    LeftoverTokensAfterIpv6,
    /// A colon was present, but no port number followed it.
    NoPortAfterColon,
    /// The specified port was either out of range or contained invalid tokens.
    InvalidPort,
    /// A percent sign was present, but no scope ID followed it.
    NoScopeIdAfterPercent,
    /// The specified scope ID was either out of range or contained invalid tokens.
    InvalidScopeId,
}

} // verus!
