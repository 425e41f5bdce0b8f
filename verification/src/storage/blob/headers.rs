//! The headers of a request.
use crate::text::chars_of;
use reqwest::header::{HeaderMap, HeaderName, HeaderValue};
use vstd::prelude::*;

verus! {

#[verifier::external_type_specification]
#[verifier::external_body]
#[verifier::reject_recursive_types(T)]
pub struct ExHeaderMap<T>(reqwest::header::HeaderMap<T>);

#[verifier::external_type_specification]
#[verifier::external_body]
pub struct ExHeaderValue(reqwest::header::HeaderValue);

/// What a header map holds: the value of each name.
pub uninterp spec fn header_contents(h: HeaderMap<HeaderValue>) -> Map<Seq<char>, Seq<char>>;

/// A map without a name.
pub open spec fn no_headers() -> Map<Seq<char>, Seq<char>> {
    Map::empty()
}

/// Calls `HeaderMap::new`: a map that holds nothing.
#[verifier::external_body]
pub(crate) fn new_headers() -> (out: HeaderMap<HeaderValue>)
    ensures
        header_contents(out) == no_headers(),
{
    HeaderMap::new()
}

/// Whether a text can be the value of a header: no control character but the tab.
pub open spec fn is_header_text(s: Seq<char>) -> bool {
    forall|i: int| 0 <= i < s.len() ==> is_header_char(#[trigger] s[i])
}

pub open spec fn is_header_char(c: char) -> bool {
    (c as u32) >= 32 && (c as u32) != 127 || c == '\t'
}

/// Whether a text is the name of a header in lower case.
pub open spec fn is_header_name(s: Seq<char>) -> bool {
    0 < s.len() <= 64 && forall|i: int|
        0 <= i < s.len() ==> ('a' <= #[trigger] s[i] && s[i] <= 'z') || ('0' <= s[i] && s[i]
            <= '9') || s[i] == '-'
}

/// Calls `HeaderMap::insert` with `HeaderName::from_bytes` and `HeaderValue::from_str`: the name
/// now has this value and no other. Names are kept in lower case; `from_str` takes every
/// character but the control characters, among which it takes the tab. `insert` panics where the
/// table of the map cannot grow any further, which takes some thousands of names.
#[verifier::external_body]
pub(crate) fn insert_header(h: &mut HeaderMap<HeaderValue>, name: &str, value: &str)
    requires
        is_header_name(name@),
        is_header_text(value@),
        header_contents(*old(h)).dom().finite(),
        header_contents(*old(h)).dom().len() < 2_000,
    ensures
        header_contents(*final(h)) == header_contents(*old(h)).insert(name@, value@),
{
    if let (Ok(n), Ok(v)) = (HeaderName::from_bytes(name.as_bytes()), HeaderValue::from_str(value)) {
        h.insert(n, v);
    }
}

/// Whether a text can be the value of a header.
pub fn header_text(s: &str) -> (out: bool)
    ensures
        out == is_header_text(s@),
{
    let chars = chars_of(s);
    let mut i: usize = 0;
    while i < chars.len()
        invariant
            i <= chars@.len(),
            chars@ == s@,
            forall|j: int| 0 <= j < i ==> is_header_char(#[trigger] s@[j]),
        decreases chars@.len() - i,
    {
        let c = chars[i];
        if !((c as u32) >= 32 && (c as u32) != 127 || c == '\t') {
            assert(!is_header_char(s@[i as int]));
            return false;
        }
        i += 1;
    }
    true
}

} // verus!
