//! Allocation-free parsing of `scheme://host[:port][/path]` URLs into borrowed parts.
pub mod error;
pub mod laws;
pub mod scheme;
pub mod text;
pub mod url;

pub use error::Error;
pub use scheme::UrlScheme;
pub use url::Url;
