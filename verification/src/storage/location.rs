//! Where data comes from and goes to: a local path, or a place in Blob storage.
use crate::address;
use crate::address::{parse_url, UrlParts};
use crate::auth::sas;
use crate::auth::sas::extract_sas_token;
use crate::error::AzcpError;
use crate::text;
use crate::text::{
    begins, chars_of, clone_opt, ends, find_from, owned, slice_of, string_of, trim_start_of,
};
use vstd::prelude::*;

verus! {

#[derive(Debug)]
pub enum Location {
    Local(String),
    AzureBlob(BlobLocation),
}

#[derive(Debug)]
pub struct BlobLocation {
    pub account: String,
    pub container: String,
    pub path: String,
    pub sas_token: Option<String>,
}

impl Clone for BlobLocation {
    fn clone(&self) -> (out: Self)
        ensures
            out == *self,
    {
        BlobLocation {
            account: self.account.clone(),
            container: self.container.clone(),
            path: self.path.clone(),
            sas_token: clone_opt(&self.sas_token),
        }
    }
}

impl Clone for Location {
    fn clone(&self) -> (out: Self)
        ensures
            out == *self,
    {
        match self {
            Location::Local(p) => Location::Local(p.clone()),
            Location::AzureBlob(b) => Location::AzureBlob(b.clone()),
        }
    }
}

/// A location over plain text.
pub enum Place {
    Local(Seq<char>),
    Blob { account: Seq<char>, container: Seq<char>, path: Seq<char>, token: Option<Seq<char>> },
}

/// The place of a blob location.
pub open spec fn blob_place(b: BlobLocation) -> Place {
    Place::Blob {
        account: b.account@,
        container: b.container@,
        path: b.path@,
        token: text::opt_view(b.sas_token),
    }
}

impl View for Location {
    type V = Place;

    open spec fn view(&self) -> Place {
        match *self {
            Location::Local(p) => Place::Local(p@),
            Location::AzureBlob(b) => blob_place(b),
        }
    }
}

/// The address of the service of an account.
pub open spec fn service_address(account: Seq<char>) -> Seq<char> {
    "https://"@ + account + ".blob.core.windows.net"@
}

impl BlobLocation {
    /// The address of the service of the account.
    pub fn service_url(&self) -> (out: String)
        ensures
            out@ == service_address(self.account@),
    {
        let mut out = owned("https://");
        out.append(self.account.as_str());
        out.append(".blob.core.windows.net");
        out
    }

    /// The address of the container.
    pub fn container_url(&self) -> (out: String)
        ensures
            out@ == service_address(self.account@) + "/"@ + self.container@,
    {
        let mut out = self.service_url();
        out.append("/");
        out.append(self.container.as_str());
        out
    }
}

/// The place that an address names, or what is wrong with it: the account is the host without
/// the domain of the service, the container is what comes first in the path, and the rest of
/// the path is the path of the blob.
pub open spec fn place_of_url(
    u: (Seq<char>, Option<Seq<char>>, Seq<char>, Option<Seq<char>>),
) -> std::result::Result<Place, Seq<char>> {
    let domain = ".blob.core.windows.net"@;
    match u.1 {
        None => Err("missing host"@),
        Some(host) => if !text::ends_with(host, domain) {
            Err("expected *.blob.core.windows.net, got "@ + host)
        } else {
            let path = text::trimmed_start_of(u.2, '/');
            let at = text::find(path, '/');
            Ok(
                Place::Blob {
                    account: host.take(host.len() - domain.len()),
                    container: path.take(at),
                    path: if at < path.len() {
                        path.skip(at + 1)
                    } else {
                        Seq::empty()
                    },
                    token: sas::token_in(u.3),
                },
            )
        },
    }
}

/// The place that a text names, or what is wrong with it: an address where it begins like one,
/// else a local path.
pub open spec fn place_of_text(input: Seq<char>) -> std::result::Result<Place, Seq<char>> {
    if text::starts_with(input, "https://"@) || text::starts_with(input, "http://"@) {
        match address::parsed_url(input) {
            Ok(u) => place_of_url(u),
            Err(m) => Err(m),
        }
    } else {
        Ok(Place::Local(input))
    }
}

/// The location that a parsed address names.
pub fn locate(url: &UrlParts) -> (out: std::result::Result<BlobLocation, AzcpError>)
    ensures
        match (out, place_of_url(url@)) {
            (Ok(b), Ok(p)) => blob_place(b) == p,
            (Err(AzcpError::InvalidUrl(e)), Err(m)) => e@ == m,
            _ => false,
        },
{
    let host = match &url.host {
        Some(h) => h,
        None => return Err(AzcpError::InvalidUrl(owned("missing host"))),
    };
    let h = chars_of(host.as_str());
    let domain = chars_of(".blob.core.windows.net");
    if !ends(h.as_slice(), domain.as_slice()) {
        let mut e = owned("expected *.blob.core.windows.net, got ");
        e.append(host.as_str());
        return Err(AzcpError::InvalidUrl(e));
    }
    let account = slice_of(h.as_slice(), 0, h.len() - domain.len());
    assert(account@ =~= h@.take(h@.len() - domain@.len()));
    let full = chars_of(url.path.as_str());
    let path = trim_start_of(full.as_slice(), '/');
    let at = find_from(path.as_slice(), '/', 0);
    proof {
        assert(path@.skip(0) =~= path@);
        text::lemma_find(path@, '/');
    }
    let container = slice_of(path.as_slice(), 0, at);
    assert(container@ =~= path@.take(at as int));
    let rest = if at < path.len() {
        assert(path@.subrange(at + 1, path@.len() as int) =~= path@.skip(at + 1));
        slice_of(path.as_slice(), at + 1, path.len())
    } else {
        Vec::new()
    };
    Ok(
        BlobLocation {
            account: string_of(account.as_slice()),
            container: string_of(container.as_slice()),
            path: string_of(rest.as_slice()),
            sas_token: extract_sas_token(url),
        },
    )
}

/// The location that a text names.
pub fn parse_location(input: &str) -> (out: std::result::Result<Location, AzcpError>)
    ensures
        match (out, place_of_text(input@)) {
            (Ok(l), Ok(p)) => l@ == p,
            (Err(AzcpError::InvalidUrl(e)), Err(m)) => e@ == m,
            _ => false,
        },
        !text::starts_with(input@, "https://"@) && !text::starts_with(input@, "http://"@)
            ==> out is Ok && out->Ok_0@ == Place::Local(input@),
{
    let chars = chars_of(input);
    let secure = chars_of("https://");
    let plain = chars_of("http://");
    if begins(chars.as_slice(), secure.as_slice()) || begins(chars.as_slice(), plain.as_slice()) {
        match parse_url(input) {
            Ok(u) => match locate(&u) {
                Ok(b) => Ok(Location::AzureBlob(b)),
                Err(e) => Err(e),
            },
            Err(e) => Err(AzcpError::InvalidUrl(e)),
        }
    } else {
        Ok(Location::Local(owned(input)))
    }
}

/// The address of a container, read back, names the account and the container: what stands in
/// the host before the domain, and what stands first in the path.
pub proof fn law_address_names_its_parts(
    account: Seq<char>,
    container: Seq<char>,
    path: Seq<char>,
    text: Seq<char>,
    query: Option<Seq<char>>,
)
    requires
        container.len() > 0,
        !container.contains('/'),
    ensures
        place_of_url(
            (
                text,
                Some(account + ".blob.core.windows.net"@),
                seq!['/'] + container + seq!['/'] + path,
                query,
            ),
        ) == std::result::Result::<Place, Seq<char>>::Ok(
            Place::Blob { account, container, path, token: sas::token_in(query) },
        ),
{
    let domain = ".blob.core.windows.net"@;
    let host = account + domain;
    assert(host.skip(host.len() - domain.len()) =~= domain);
    assert(host.take(host.len() - domain.len()) =~= account);
    let full = seq!['/'] + container + seq!['/'] + path;
    let rest = container + seq!['/'] + path;
    assert(full.drop_first() =~= rest);
    assert(container[0] != '/') by {
        assert(container.contains(container[0]));
    }
    assert(rest[0] == container[0]);
    reveal_with_fuel(text::trimmed_start_of, 2);
    assert(text::trimmed_start_of(full, '/') == rest);
    assert forall|i: int| 0 <= i < container.len() implies rest[i] != '/' by {
        assert(container.contains(container[i]));
    }
    text::lemma_find_is(rest, '/', container.len() as int);
    assert(rest.take(container.len() as int) =~= container);
    assert(rest.skip(container.len() as int + 1) =~= path);
}

/// An address without a path names the container alone, and one of another host names nothing.
pub proof fn law_address_without_a_path(
    account: Seq<char>,
    container: Seq<char>,
    host: Seq<char>,
    path: Seq<char>,
    text: Seq<char>,
    query: Option<Seq<char>>,
)
    requires
        !container.contains('/'),
    ensures
        place_of_url(
            (text, Some(account + ".blob.core.windows.net"@), seq!['/'] + container, query),
        ) == std::result::Result::<Place, Seq<char>>::Ok(
            Place::Blob {
                account,
                container,
                path: Seq::empty(),
                token: sas::token_in(query),
            },
        ),
        place_of_url((text, None, path, query)) is Err,
        !text::ends_with(host, ".blob.core.windows.net"@) ==> place_of_url(
            (text, Some(host), path, query),
        ) is Err,
{
    let domain = ".blob.core.windows.net"@;
    let full = account + domain;
    assert(full.skip(full.len() - domain.len()) =~= domain);
    assert(full.take(full.len() - domain.len()) =~= account);
    if container.len() > 0 {
        assert(container.contains(container[0]));
    }
    text::law_trimming_takes_the_character(seq!['/'], container, '/');
    text::lemma_find(container, '/');
    if text::find(container, '/') < container.len() {
        assert(container.contains(container[text::find(container, '/')]));
    }
    assert(container.take(container.len() as int) =~= container);
}

/// What does not begin like an address is a local path, as it stands; what does is read as one.
pub proof fn law_addresses_and_paths(rest: Seq<char>, input: Seq<char>)
    ensures
        place_of_text("https://"@ + rest) == match address::parsed_url("https://"@ + rest) {
            Ok(u) => place_of_url(u),
            Err(m) => Err(m),
        },
        place_of_text("http://"@ + rest) == match address::parsed_url("http://"@ + rest) {
            Ok(u) => place_of_url(u),
            Err(m) => Err(m),
        },
        input.len() < 7 || input.take(4) != "http"@ ==> place_of_text(input)
            == std::result::Result::<Place, Seq<char>>::Ok(Place::Local(input)),
{
    reveal_strlit("https://");
    reveal_strlit("http://");
    reveal_strlit("http");
    text::law_beginnings(input, "https://"@, rest);
    text::law_beginnings(input, "http://"@, rest);
    if input.len() >= 7 && text::starts_with(input, "https://"@) {
        assert(input.take(8).take(4) =~= input.take(4));
        assert("https://"@.take(4) =~= "http"@);
    }
    if input.len() >= 7 && text::starts_with(input, "http://"@) {
        assert(input.take(7).take(4) =~= input.take(4));
        assert("http://"@.take(4) =~= "http"@);
    }
}

/// A location is the place that its fields name.
pub proof fn law_locations_are_places(b: BlobLocation, p: String)
    ensures
        Location::Local(p)@ == Place::Local(p@),
        Location::AzureBlob(b)@ == (Place::Blob {
            account: b.account@,
            container: b.container@,
            path: b.path@,
            token: text::opt_view(b.sas_token),
        }),
{
}

/// What is said of an address that names nothing.
pub proof fn law_addresses_that_name_nothing(
    host: Seq<char>,
    path: Seq<char>,
    text: Seq<char>,
    query: Option<Seq<char>>,
)
    requires
        !text::ends_with(host, ".blob.core.windows.net"@),
    ensures
        place_of_url((text, None, path, query)) == std::result::Result::<Place, Seq<char>>::Err(
            "missing host"@,
        ),
        place_of_url((text, Some(host), path, query)) == std::result::Result::<
            Place,
            Seq<char>,
        >::Err("expected *.blob.core.windows.net, got "@ + host),
{
}

} // verus!
