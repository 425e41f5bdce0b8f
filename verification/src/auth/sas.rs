//! Tokens that stand in the query of an address.
use crate::address;
use crate::address::{set_query, UrlParts};
use crate::text;
use crate::text::{chars_of, contains, owned, slice_of, string_of};
use vstd::prelude::*;

verus! {

/// A token without a `?` in front.
pub open spec fn bare_token(token: Seq<char>) -> Seq<char> {
    if token.len() > 0 && token[0] == '?' {
        token.skip(1)
    } else {
        token
    }
}

/// The query with the token behind what is there.
pub open spec fn query_with_token(query: Option<Seq<char>>, token: Seq<char>) -> Seq<char> {
    match query {
        Some(q) => if q.len() == 0 {
            bare_token(token)
        } else {
            q + seq!['&'] + bare_token(token)
        },
        None => bare_token(token),
    }
}

/// The query with the token behind what is there.
pub fn token_query(query: &Option<String>, token: &str) -> (out: String)
    ensures
        out@ == query_with_token(text::opt_view(*query), token@),
{
    let chars = chars_of(token);
    let bare = if chars.len() > 0 && chars[0] == '?' {
        slice_of(chars.as_slice(), 1, chars.len())
    } else {
        slice_of(chars.as_slice(), 0, chars.len())
    };
    assert(bare@ =~= bare_token(token@));
    let bare_text = string_of(bare.as_slice());
    match query {
        Some(q) => {
            let have = chars_of(q.as_str());
            if have.len() == 0 {
                bare_text
            } else {
                let mut out = owned(q.as_str());
                out.push('&');
                out.append(bare_text.as_str());
                assert(out@ =~= q@ + seq!['&'] + bare_token(token@));
                out
            }
        },
        None => bare_text,
    }
}

/// Appends a token to the query of an address.
pub fn append_sas_token(url: &mut UrlParts, token: &str)
    requires
        address::query_fits(old(url).text@, query_with_token(old(url)@.3, token@)),
    ensures
        match address::url_with_query(old(url).text@, query_with_token(old(url)@.3, token@)) {
            Some(v) => final(url)@ == v,
            None => *final(url) == *old(url),
        },
{
    let query = token_query(&url.query, token);
    match set_query(url.text.as_str(), query.as_str()) {
        Some(u) => {
            *url = u;
        },
        None => {},
    }
}

/// The token in a query: the whole query, where it holds a signature.
pub open spec fn token_in(query: Option<Seq<char>>) -> Option<Seq<char>> {
    match query {
        Some(q) => if text::contains_text(q, "sig="@) {
            Some(q)
        } else {
            None
        },
        None => None,
    }
}

/// The token that an address carries.
pub fn extract_sas_token(url: &UrlParts) -> (out: Option<String>)
    ensures
        text::opt_view(out) == token_in(url@.3),
{
    match &url.query {
        Some(q) => {
            let have = chars_of(q.as_str());
            let mark = chars_of("sig=");
            if contains(have.as_slice(), mark.as_slice()) {
                Some(q.clone())
            } else {
                None
            }
        },
        None => None,
    }
}

/// A token is the same with and without a `?` in front.
pub proof fn law_question_mark_does_not_matter(token: Seq<char>)
    ensures
        bare_token(seq!['?'] + token) == token,
        token.len() == 0 || token[0] != '?' ==> bare_token(token) == token,
{
    assert((seq!['?'] + token).skip(1) =~= token);
}

/// A token goes behind the query that is there, which stays as it is.
pub proof fn law_token_keeps_the_query(query: Seq<char>, token: Seq<char>)
    requires
        token.len() == 0 || token[0] != '?',
    ensures
        query.len() > 0 ==> query_with_token(Some(query), token) == query + seq!['&'] + token,
        query.len() == 0 ==> query_with_token(Some(query), token) == token,
        query_with_token(None, token) == token,
        query_with_token(None, seq!['?'] + token) == token,
        query.len() > 0 ==> query_with_token(Some(query), seq!['?'] + token) == query + seq!['&']
            + token,
{
    law_question_mark_does_not_matter(token);
}

/// A query is a token exactly where it holds a signature.
pub proof fn law_signed_queries_are_tokens(a: Seq<char>, b: Seq<char>, q: Option<Seq<char>>)
    ensures
        token_in(Some(a + "sig="@ + b)) == Some(a + "sig="@ + b),
        token_in(q) is Some ==> token_in(q) == q,
        q is Some && (forall|i: int|
            0 <= i <= q->0.len() - "sig="@.len() ==> #[trigger] q->0.subrange(
                i,
                i + "sig="@.len(),
            ) != "sig="@) ==> token_in(q) is None,
        token_in(None) is None,
{
    text::law_text_is_found_anywhere(a, "sig="@, b);
}

} // verus!
