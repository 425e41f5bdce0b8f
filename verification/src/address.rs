//! Web addresses as plain values.
use crate::text;
use vstd::prelude::*;

verus! {

/// An absolute web address that was parsed: its normalised text, and its parts as they stand in
/// it.
#[derive(Debug)]
pub struct UrlParts {
    pub text: String,
    pub host: Option<String>,
    pub path: String,
    /// What stands behind `?`, without a fragment.
    pub query: Option<String>,
}

impl View for UrlParts {
    type V = (Seq<char>, Option<Seq<char>>, Seq<char>, Option<Seq<char>>);

    open spec fn view(&self) -> (Seq<char>, Option<Seq<char>>, Seq<char>, Option<Seq<char>>) {
        (self.text@, text::opt_view(self.host), self.path@, text::opt_view(self.query))
    }
}

/// What `url::Url::parse` makes of a text: the normalised text with its host, path and query, or
/// the message of the error.
pub uninterp spec fn parsed_url(input: Seq<char>) -> std::result::Result<
    (Seq<char>, Option<Seq<char>>, Seq<char>, Option<Seq<char>>),
    Seq<char>,
>;

/// Calls `url::Url::parse` and reads `as_str`, `host_str`, `path` and `query` of the address, or
/// the text of the error. The result is a function of the text.
#[verifier::external_body]
pub(crate) fn parse_url(input: &str) -> (out: std::result::Result<UrlParts, String>)
    ensures
        match (out, parsed_url(input@)) {
            (Ok(u), Ok(v)) => u@ == v,
            (Err(e), Err(m)) => e@ == m,
            _ => false,
        },
{
    match url::Url::parse(input) {
        Ok(u) => Ok(UrlParts {
            text: u.as_str().to_string(),
            host: u.host_str().map(|h| h.to_string()),
            path: u.path().to_string(),
            query: u.query().map(|q| q.to_string()),
        }),
        Err(e) => Err(e.to_string()),
    }
}

/// What `url::Url::set_query` makes of the address with this text.
pub uninterp spec fn url_with_query(text: Seq<char>, query: Seq<char>) -> Option<
    (Seq<char>, Option<Seq<char>>, Seq<char>, Option<Seq<char>>),
>;

/// Whether `set_query` stays within the lengths that the `url` crate counts in 32 bits, however
/// the query is encoded.
pub open spec fn query_fits(text: Seq<char>, query: Seq<char>) -> bool {
    12 * (text.len() + query.len()) + 16 <= u32::MAX
}

/// Calls `url::Url::set_query` on the address with this text. The result is a function of the
/// two texts; there is none where the text is not an address.
#[verifier::external_body]
pub(crate) fn set_query(text: &str, query: &str) -> (out: Option<UrlParts>)
    requires
        query_fits(text@, query@),
    ensures
        match (out, url_with_query(text@, query@)) {
            (Some(u), Some(v)) => u@ == v,
            (None, None) => true,
            _ => false,
        },
{
    let mut u = url::Url::parse(text).ok()?;
    u.set_query(Some(query));
    Some(UrlParts {
        text: u.as_str().to_string(),
        host: u.host_str().map(|h| h.to_string()),
        path: u.path().to_string(),
        query: u.query().map(|q| q.to_string()),
    })
}

} // verus!
