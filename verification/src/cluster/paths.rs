//! Where a blob lives on the local disk.
use crate::storage::location;
use crate::storage::location::{parse_location, Location};
use crate::text;
use crate::text::{chars_of, ends, string_of, strip_front, trim_start_of};
use vstd::prelude::*;

verus! {

/// The path of the blobs that a source names: nothing where it names a local path or is not
/// valid.
pub open spec fn prefix_of(source: Seq<char>) -> Seq<char> {
    match location::place_of_text(source) {
        Ok(location::Place::Blob { path, .. }) => path,
        _ => Seq::empty(),
    }
}

/// The local path of a blob below a prefix: its name without the prefix and without `/` in
/// front.
pub open spec fn rel_path(prefix: Seq<char>, name: Seq<char>) -> Seq<char> {
    text::trimmed_start_of(text::without_prefix(name, prefix), '/')
}

/// Whether a blob stands for a directory: its name ends in `/`, or nothing is left of it below
/// the prefix.
pub open spec fn marks_directory(prefix: Seq<char>, name: Seq<char>) -> bool {
    text::ends_with(name, seq!['/']) || rel_path(prefix, name).len() == 0
}

/// The local path of a blob below a prefix.
pub fn rel_below(prefix: &str, name: &str) -> (out: String)
    ensures
        out@ == rel_path(prefix@, name@),
{
    let p = chars_of(prefix);
    let n = chars_of(name);
    let stripped = strip_front(n.as_slice(), p.as_slice());
    string_of(trim_start_of(stripped.as_slice(), '/').as_slice())
}

/// The path of the blobs that a source names.
pub fn source_prefix(source: &str) -> (out: String)
    ensures
        out@ == prefix_of(source@),
{
    match parse_location(source) {
        Ok(Location::AzureBlob(b)) => b.path,
        Ok(Location::Local(_)) => String::new(),
        Err(_) => String::new(),
    }
}

/// The local path of a blob, by which all stages agree where a file lives.
pub fn local_rel(source: &str, name: &str) -> (out: String)
    ensures
        out@ == rel_path(prefix_of(source@), name@),
{
    let prefix = source_prefix(source);
    rel_below(prefix.as_str(), name)
}

/// Whether a blob stands for a directory and carries nothing to transfer.
pub fn is_directory_marker(source: &str, name: &str) -> (out: bool)
    ensures
        out == marks_directory(prefix_of(source@), name@),
{
    let prefix = source_prefix(source);
    marks_directory_below(prefix.as_str(), name)
}

/// Whether a blob below a prefix stands for a directory.
pub fn marks_directory_below(prefix: &str, name: &str) -> (out: bool)
    ensures
        out == marks_directory(prefix@, name@),
{
    let n = chars_of(name);
    if n.len() > 0 && n[n.len() - 1] == '/' {
        proof {
            assert(n@.skip(n@.len() - 1) =~= seq!['/']);
        }
        return true;
    }
    proof {
        if text::ends_with(name@, seq!['/']) {
            assert(name@.skip(name@.len() - 1)[0] == '/');
        }
    }
    let rel = rel_below(prefix, name);
    rel.as_str().unicode_len() == 0
}

/// The local path of a blob that is not a directory marker is a path below the destination: it
/// is not empty and does not begin with `/`.
pub proof fn law_local_path_is_relative(prefix: Seq<char>, name: Seq<char>)
    requires
        !marks_directory(prefix, name),
    ensures
        rel_path(prefix, name).len() > 0,
        rel_path(prefix, name)[0] != '/',
{
    lemma_trimmed_start_of(text::without_prefix(name, prefix), '/');
}

proof fn lemma_trimmed_start_of(s: Seq<char>, c: char)
    ensures
        text::trimmed_start_of(s, c).len() > 0 ==> text::trimmed_start_of(s, c)[0] != c,
    decreases s.len(),
{
    if s.len() > 0 && s[0] == c {
        lemma_trimmed_start_of(s.drop_first(), c);
    }
}

/// The local path of a blob is what its name has beyond the prefix, without `/` between the two;
/// a name that does not begin with the prefix is its own local path.
pub proof fn law_local_path_is_the_rest_of_the_name(prefix: Seq<char>, rel: Seq<char>)
    requires
        rel.len() > 0,
        rel[0] != '/',
    ensures
        rel_path(prefix, prefix + rel) == rel,
        rel_path(prefix, prefix + seq!['/'] + rel) == rel,
        rel_path(Seq::empty(), rel) == rel,
        !(prefix.len() <= rel.len() && rel.take(prefix.len() as int) == prefix) ==> rel_path(
            prefix,
            rel,
        ) == rel,
{
    let n = prefix.len() as int;
    assert((prefix + rel).take(n) =~= prefix);
    assert((prefix + rel).skip(n) =~= rel);
    let long = prefix + seq!['/'] + rel;
    assert(long.take(n) =~= prefix);
    assert(long.skip(n) =~= seq!['/'] + rel);
    assert((seq!['/'] + rel).drop_first() =~= rel);
    assert(rel.take(0) =~= Seq::<char>::empty());
    assert(rel.skip(0) =~= rel);
    reveal_with_fuel(text::trimmed_start_of, 2);
}

/// What stands for a directory: a name that ends in `/`, and the prefix itself. A name below the
/// prefix that does not end in `/` does not.
pub proof fn law_markers_are_directories(prefix: Seq<char>, rel: Seq<char>)
    ensures
        marks_directory(prefix, rel.push('/')),
        marks_directory(prefix, prefix),
        rel.len() > 0 && rel[0] != '/' && rel.last() != '/' ==> !marks_directory(
            prefix,
            prefix + seq!['/'] + rel,
        ) && !marks_directory(prefix, prefix + rel),
{
    let name = rel.push('/');
    assert(name.skip(name.len() - 1) =~= seq!['/']);
    assert(prefix.take(prefix.len() as int) =~= prefix);
    assert(prefix.skip(prefix.len() as int) =~= Seq::<char>::empty());
    if rel.len() > 0 && rel[0] != '/' && rel.last() != '/' {
        law_local_path_is_the_rest_of_the_name(prefix, rel);
        let a = prefix + seq!['/'] + rel;
        let b = prefix + rel;
        assert(a.skip(a.len() - 1)[0] == rel.last());
        assert(b.skip(b.len() - 1)[0] == rel.last());
        assert(seq!['/'][0] == '/');
    }
}

/// The prefix of a source is the path of the blobs that it names, and none where it names no
/// blobs.
pub proof fn law_prefix_is_the_path_of_the_source(source: Seq<char>)
    ensures
        location::place_of_text(source) matches Ok(location::Place::Blob { path, .. })
            ==> prefix_of(source) == path,
        !(location::place_of_text(source) is Ok && location::place_of_text(source)->Ok_0 is Blob)
            ==> prefix_of(source).len() == 0,
{
}

} // verus!
