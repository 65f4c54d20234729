use crate::text::{eq_ignore_ascii_case, eq_ignore_case};
use vstd::prelude::*;
use vstd::string::*;

verus! {

broadcast use is_ascii_spec_bytes;

/// The URL schemes that the parser knows.
#[derive(PartialEq, Eq, Clone, Copy, Debug, PartialOrd, Ord, Hash, Structural)]
pub enum UrlScheme {
    /// HTTP scheme
    HTTP,
    /// HTTPS (HTTP + TLS) scheme
    HTTPS,
    /// MQTT scheme
    MQTT,
    /// MQTTS (MQTT + TLS) scheme
    MQTTS,
}

impl UrlScheme {
    /// The lowercase name of the scheme, as ASCII bytes.
    pub open spec fn name(&self) -> Seq<u8> {
        match self {
            UrlScheme::HTTP => seq![104u8, 116, 116, 112],
            UrlScheme::HTTPS => seq![104u8, 116, 116, 112, 115],
            UrlScheme::MQTT => seq![109u8, 113, 116, 116],
            UrlScheme::MQTTS => seq![109u8, 113, 116, 116, 115],
        }
    }

    /// The port that a URL of this scheme uses when it gives none.
    pub open spec fn spec_default_port(&self) -> u16 {
        match self {
            UrlScheme::HTTP => 80,
            UrlScheme::HTTPS => 443,
            UrlScheme::MQTT => 1883,
            UrlScheme::MQTTS => 8883,
        }
    }

    /// str representation of the scheme
    ///
    /// The returned str is always lowercase
    pub fn as_str(&self) -> (r: &str)
        ensures
            r.spec_bytes() == self.name(),
            r.is_ascii(),
    {
        match self {
            UrlScheme::HTTP => {
                proof {
                    reveal_strlit("http");
                    assert(is_ascii("http"));
                    assert("http".spec_bytes() =~= self.name());
                }
                "http"
            },
            UrlScheme::HTTPS => {
                proof {
                    reveal_strlit("https");
                    assert(is_ascii("https"));
                    assert("https".spec_bytes() =~= self.name());
                }
                "https"
            },
            UrlScheme::MQTT => {
                proof {
                    reveal_strlit("mqtt");
                    assert(is_ascii("mqtt"));
                    assert("mqtt".spec_bytes() =~= self.name());
                }
                "mqtt"
            },
            UrlScheme::MQTTS => {
                proof {
                    reveal_strlit("mqtts");
                    assert(is_ascii("mqtts"));
                    assert("mqtts".spec_bytes() =~= self.name());
                }
                "mqtts"
            },
        }
    }

    /// Get the default port for scheme
    #[verifier::when_used_as_spec(spec_default_port)]
    pub fn default_port(&self) -> (r: u16)
        ensures
            r == self.spec_default_port(),
    {
        match self {
            UrlScheme::HTTP => 80,
            UrlScheme::HTTPS => 443,
            UrlScheme::MQTT => 1883,
            UrlScheme::MQTTS => 8883,
        }
    }
}

/// The scheme that a URL's scheme token names, matched without regard to ASCII case; only
/// `http` and `https` are recognized in a URL.
pub open spec fn scheme_of(tok: Seq<u8>) -> Option<UrlScheme> {
    if eq_ignore_case(tok, UrlScheme::HTTP.name()) {
        Some(UrlScheme::HTTP)
    } else if eq_ignore_case(tok, UrlScheme::HTTPS.name()) {
        Some(UrlScheme::HTTPS)
    } else {
        None
    }
}

/// Classifies a scheme token.
pub fn scheme_from_token(tok: &str) -> (r: Option<UrlScheme>)
    ensures
        r == scheme_of(tok.spec_bytes()),
{
    let b = tok.as_bytes();
    let http: [u8; 4] = [104, 116, 116, 112];
    let https: [u8; 5] = [104, 116, 116, 112, 115];
    assert(http@ =~= UrlScheme::HTTP.name());
    assert(https@ =~= UrlScheme::HTTPS.name());
    if eq_ignore_ascii_case(b, &http) {
        Some(UrlScheme::HTTP)
    } else if eq_ignore_ascii_case(b, &https) {
        Some(UrlScheme::HTTPS)
    } else {
        None
    }
}

} // verus!
