//! The components of a URL that proxy links are read from.

use vstd::prelude::*;

use crate::text::contains;

verus! {

/// What the library reads of a parsed URL.
pub struct UrlParts {
    pub host: Option<String>,
    pub port: Option<u16>,
    pub username: String,
    pub fragment: Option<String>,
    pub query: Vec<(String, String)>,
}

#[verifier::ext_equal]
pub struct UrlPartsView {
    pub host: Option<Seq<char>>,
    pub port: Option<u16>,
    pub username: Seq<char>,
    pub fragment: Option<Seq<char>>,
    pub query: Seq<(Seq<char>, Seq<char>)>,
}

impl View for UrlParts {
    type V = UrlPartsView;

    open spec fn view(&self) -> UrlPartsView {
        UrlPartsView {
            host: self.host.deep_view(),
            port: self.port,
            username: self.username@,
            fragment: self.fragment.deep_view(),
            query: self.query.deep_view(),
        }
    }
}

/// The components of `link` as the `url` crate parses it (host, explicit port, username,
/// fragment, decoded query pairs in order), or the text of its parse error.
pub uninterp spec fn url_components(link: Seq<char>) -> Result<UrlPartsView, Seq<char>>;

/// Calls `url::Url::parse` and reads `host_str`, `port`, `username`, `fragment` and
/// `query_pairs` of the result. Claimed: the outcome is `url_components` of the link, and a
/// username is only there where the link holds an `@` (the parser reads user information
/// only up to an `@`, in `Parser::parse_userinfo`; without one the username is empty).
#[verifier::external_body]
pub fn parse_url(link: &str) -> (r: Result<UrlParts, String>)
    ensures
        match r {
            Ok(p) => url_components(link@) == Ok::<UrlPartsView, Seq<char>>(p@),
            Err(e) => url_components(link@) == Err::<UrlPartsView, Seq<char>>(e@),
        },
        r matches Ok(p) && p.username@.len() > 0 ==> contains(link@, "@"@),
{
    match url::Url::parse(link) {
        Ok(u) => Ok(UrlParts {
            host: u.host_str().map(|h| h.to_string()),
            port: u.port(),
            username: u.username().to_string(),
            fragment: u.fragment().map(|f| f.to_string()),
            query: u.query_pairs().map(|(k, v)| (k.into_owned(), v.into_owned())).collect(),
        }),
        Err(e) => Err(e.to_string()),
    }
}

} // verus!
