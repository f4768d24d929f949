//! The parts of a URL that a handshake needs.

use crate::outside::{parse_url, url_parts};
use crate::text::same;
use vstd::prelude::*;

verus! {

/// A URL, taken apart
#[derive(Debug, Clone, PartialEq, Eq)]
pub struct Url {
    /// The whole URL
    pub href: String,
    /// What stands before the first colon
    pub scheme: String,
    /// The domain name or IP address
    pub host: Option<String>,
    /// The port, unless it is the default port of the scheme
    pub port: Option<u16>,
    /// The path
    pub path: String,
    /// What stands behind the question mark
    pub query: Option<String>,
}

/// The parts of a [`Url`] as character sequences
pub struct UrlModel {
    pub href: Seq<char>,
    pub scheme: Seq<char>,
    pub host: Option<Seq<char>>,
    pub port: Option<u16>,
    pub path: Seq<char>,
    pub query: Option<Seq<char>>,
}

/// The characters of a text that may be absent
pub open spec fn optional_text(text: Option<String>) -> Option<Seq<char>> {
    match text {
        Some(t) => Some(t@),
        None => None,
    }
}

impl View for Url {
    type V = UrlModel;

    open spec fn view(&self) -> UrlModel {
        UrlModel {
            href: self.href@,
            scheme: self.scheme@,
            host: optional_text(self.host),
            port: self.port,
            path: self.path@,
            query: optional_text(self.query),
        }
    }
}

impl Url {
    /// Take a URL apart
    ///
    /// The error says in words what is wrong with the text.
    pub fn parse(text: &str) -> (url: Result<Url, String>)
        ensures
            match (url, url_parts(text@)) {
                (Ok(u), Ok(parts)) => u@ == parts,
                (Err(e), Err(words)) => e@ == words,
                _ => false,
            },
    {
        parse_url(text)
    }

    /// Whether the URL is that of a connection under TLS
    pub fn is_secure(&self) -> (secure: bool)
        ensures
            secure == (self@.scheme == "wss"@),
    {
        same(self.scheme.as_str(), "wss")
    }
}

} // verus!
