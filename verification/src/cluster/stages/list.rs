//! What a run transfers: the listing without what stands for directories.
use crate::cluster::paths;
use crate::cluster::paths::marks_directory_below;
use crate::cluster::stages::presence;
use crate::engine::index;
use crate::engine::index::NameIndex;
use crate::engine::lpt;
use crate::engine::lpt::keep_owned;
use crate::storage::blob::models::{BlobItem, BlobProperties};
use crate::text;
use crate::text::{chars_of, clone_opt, decimal_text, owned, slice_of};
use vstd::prelude::*;

verus! {

/// Whether a name is that of a directory above one of the blobs.
pub open spec fn is_parent(name: Seq<char>, items: Seq<BlobItem>) -> bool {
    exists|j: int|
        0 <= j < items.len() && text::starts_with(
            #[trigger] items[j].name@,
            name.push('/'),
        )
}

spec fn holds(v: Seq<Vec<char>>, name: Seq<char>) -> bool {
    exists|k: int| 0 <= k < v.len() && (#[trigger] v[k])@ == name
}

proof fn lemma_holds_push(v: Seq<Vec<char>>, x: Vec<char>, name: Seq<char>)
    ensures
        holds(v.push(x), name) <==> holds(v, name) || x@ == name,
{
    let w = v.push(x);
    if holds(v, name) {
        let k = choose|k: int| 0 <= k < v.len() && (#[trigger] v[k])@ == name;
        assert(w[k]@ == name);
    }
    if x@ == name {
        assert(w[v.len() as int]@ == name);
    }
    if holds(w, name) {
        let k = choose|k: int| 0 <= k < w.len() && (#[trigger] w[k])@ == name;
        if k < v.len() {
            assert(v[k]@ == name);
        }
    }
}

spec fn cut_at(full: Seq<char>, name: Seq<char>, to: int) -> bool {
    name.len() < to && text::starts_with(full, name.push('/'))
}

/// All directories above the blobs.
fn parent_names(items: &Vec<BlobItem>) -> (out: Vec<Vec<char>>)
    ensures
        forall|name: Seq<char>| #[trigger]
            is_parent(name, items@) <==> out@.map_values(|v: Vec<char>| v@).contains(name),
{
    let mut out: Vec<Vec<char>> = Vec::new();
    let mut i: usize = 0;
    while i < items.len()
        invariant
            i <= items@.len(),
            forall|name: Seq<char>| #[trigger]
                holds(out@, name) <==> is_parent(name, items@.take(i as int)),
        decreases items@.len() - i,
    {
        let name = chars_of(items[i].name.as_str());
        let mut e: usize = 0;
        while e < name.len()
            invariant
                i < items@.len(),
                e <= name@.len(),
                name@ == items@[i as int].name@,
                forall|p: Seq<char>| #[trigger]
                    holds(out@, p) <==> is_parent(p, items@.take(i as int)) || cut_at(
                        name@,
                        p,
                        e as int,
                    ),
            decreases name@.len() - e,
        {
            let ghost before = out@;
            if name[e] == '/' {
                out.push(slice_of(name.as_slice(), 0, e));
            }
            proof {
                assert forall|p: Seq<char>| #[trigger]
                    holds(out@, p) <==> is_parent(p, items@.take(i as int)) || cut_at(
                        name@,
                        p,
                        e + 1,
                    ) by {
                    lemma_cut(name@, p, e as int);
                    if name@[e as int] == '/' {
                        lemma_holds_push(before, out@[before.len() as int], p);
                        assert(out@ =~= before.push(out@[before.len() as int]));
                    }
                }
            }
            e += 1;
        }
        proof {
            let done = items@.take(i as int);
            let next = items@.take(i + 1);
            assert forall|p: Seq<char>| #[trigger] holds(out@, p) <==> is_parent(p, next) by {
                if is_parent(p, done) {
                    let j = choose|j: int|
                        0 <= j < done.len() && text::starts_with(
                            #[trigger] done[j].name@,
                            p.push('/'),
                        );
                    assert(next[j] == done[j]);
                }
                if cut_at(name@, p, name@.len() as int) {
                    assert(text::starts_with(next[i as int].name@, p.push('/')));
                }
                if is_parent(p, next) {
                    let j = choose|j: int|
                        0 <= j < next.len() && text::starts_with(
                            #[trigger] next[j].name@,
                            p.push('/'),
                        );
                    if j < i {
                        assert(done[j] == next[j]);
                    }
                }
            }
        }
        i += 1;
    }
    proof {
        let names = out@.map_values(|v: Vec<char>| v@);
        assert(items@.take(items@.len() as int) =~= items@);
        assert forall|name: Seq<char>| #[trigger]
            is_parent(name, items@) <==> names.contains(name) by {
            assert(holds(out@, name) <==> is_parent(name, items@));
            if holds(out@, name) {
                let k = choose|k: int| 0 <= k < out@.len() && (#[trigger] out@[k])@ == name;
                assert(names[k] == name);
            }
            if names.contains(name) {
                let k = choose|k: int| 0 <= k < names.len() && names[k] == name;
                assert(out@[k]@ == name);
            }
        }
    }
    out
}

proof fn lemma_cut(full: Seq<char>, name: Seq<char>, e: int)
    requires
        0 <= e < full.len(),
    ensures
        cut_at(full, name, e + 1) <==> cut_at(full, name, e) || (full[e] == '/' && name
            == full.subrange(0, e)),
{
    if name.len() == e {
        if text::starts_with(full, name.push('/')) {
            assert(full.take(e + 1) =~= name.push('/'));
            assert(full[e] == full.take(e + 1)[e]);
            assert(full.subrange(0, e) =~= full.take(e + 1).take(e));
            assert(name.push('/').take(e) =~= name);
        }
        if full[e] == '/' && name == full.subrange(0, e) {
            assert(full.take(e + 1) =~= name.push('/'));
        }
    }
}

/// Drops blobs whose name is that of a directory above another blob: a file cannot stand where
/// a directory has to.
pub fn drop_implicit_directories(entries: Vec<BlobItem>) -> (out: Vec<BlobItem>)
    ensures
        out@ == entries@.filter(|b: BlobItem| !is_parent(b.name@, entries@)),
{
    let parents = NameIndex::new(parent_names(&entries));
    let mut items = entries;
    let ghost all = items@;
    let mut marks: Vec<usize> = Vec::new();
    let mut i: usize = 0;
    while i < items.len()
        invariant
            i <= items@.len(),
            items@ == all,
            parents.wf(),
            forall|name: Seq<char>| #[trigger]
                is_parent(name, all) <==> parents.names().contains(name),
            marks@.len() == i,
            forall|j: int|
                0 <= j < i ==> (#[trigger] marks@[j] == 1 <==> !is_parent(all[j].name@, all)),
        decreases items@.len() - i,
    {
        let key = chars_of(items[i].name.as_str());
        let found = parents.find(&key).is_some();
        proof {
            assert(is_parent(key@, all) <==> parents.names().contains(key@));
        }
        if found {
            marks.push(0);
        } else {
            marks.push(1);
        }
        i += 1;
    }
    keep_owned(&mut items, &marks, 1);
    proof {
        lpt::lemma_owned_is_filter(all, marks@, 1, |b: BlobItem| !is_parent(b.name@, all));
    }
    items
}

/// Drops blobs that stand for directories below a prefix.
pub fn drop_directory_markers(prefix: &str, entries: Vec<BlobItem>) -> (out: Vec<BlobItem>)
    ensures
        out@ == entries@.filter(|b: BlobItem| !paths::marks_directory(prefix@, b.name@)),
{
    let mut items = entries;
    let ghost all = items@;
    let mut marks: Vec<usize> = Vec::new();
    let mut i: usize = 0;
    while i < items.len()
        invariant
            i <= items@.len(),
            items@ == all,
            marks@.len() == i,
            forall|j: int|
                0 <= j < i ==> (#[trigger] marks@[j] == 1 <==> !paths::marks_directory(
                    prefix@,
                    all[j].name@,
                )),
        decreases items@.len() - i,
    {
        if marks_directory_below(prefix, items[i].name.as_str()) {
            marks.push(0);
        } else {
            marks.push(1);
        }
        i += 1;
    }
    keep_owned(&mut items, &marks, 1);
    proof {
        lpt::lemma_owned_is_filter(
            all,
            marks@,
            1,
            |b: BlobItem| !paths::marks_directory(prefix@, b.name@),
        );
    }
    items
}

/// A listing without directories.
pub struct CleanListing {
    pub entries: Vec<BlobItem>,
    /// How many blobs stood for directories.
    pub markers: usize,
    /// How many blobs had the name of a directory above another one.
    pub implicit: usize,
}

/// Drops from a listing all that stands for a directory.
pub fn clean_listing(prefix: &str, entries: Vec<BlobItem>) -> (out: CleanListing)
    ensures
        ({
            let files = entries@.filter(|b: BlobItem| !paths::marks_directory(prefix@, b.name@));
            let kept = files.filter(|b: BlobItem| !is_parent(b.name@, files));
            &&& out.entries@ == kept
            &&& out.markers == entries@.len() - files.len()
            &&& out.implicit == files.len() - kept.len()
        }),
{
    let before: usize = entries.len();
    proof {
        let p = |b: BlobItem| !paths::marks_directory(prefix@, b.name@);
        entries@.lemma_filter_len(p);
        let files = entries@.filter(p);
        files.lemma_filter_len(|b: BlobItem| !is_parent(b.name@, files));
    }
    let files = drop_directory_markers(prefix, entries);
    let middle: usize = files.len();
    let kept = drop_implicit_directories(files);
    let after: usize = kept.len();
    CleanListing { entries: kept, markers: before - middle, implicit: middle - after }
}

/// What is said of blobs that were dropped as markers.
pub fn markers_message(n: usize) -> (out: String)
    ensures
        out@ == "[list] skipped "@ + text::decimal(n as nat)
            + " directory-marker blob(s) (name == source prefix or ends in '/')"@,
{
    let mut out = owned("[list] skipped ");
    out.append(decimal_text(n as u64).as_str());
    out.append(" directory-marker blob(s) (name == source prefix or ends in '/')");
    out
}

/// What is said of blobs that were dropped as directories above others.
pub fn implicit_message(n: usize) -> (out: String)
    ensures
        out@ == "[list] skipped "@ + text::decimal(n as nat)
            + " implicit-directory blob(s) (name is a parent prefix of another blob)"@,
{
    let mut out = owned("[list] skipped ");
    out.append(decimal_text(n as u64).as_str());
    out.append(" implicit-directory blob(s) (name is a parent prefix of another blob)");
    out
}

/// What is said where the source is a local path.
pub fn local_source_message(path: &str) -> (out: String)
    ensures
        out@ == "source must be an Azure Blob URL for cluster broadcast (got local path "@ + path@
            + ")"@,
{
    let mut out = owned("source must be an Azure Blob URL for cluster broadcast (got local path ");
    out.append(path);
    out.append(")");
    out
}

/// Whether this is the stored digest of the last of the listed blobs with this name.
pub open spec fn listed_digest(
    listed: Seq<BlobItem>,
    name: Seq<char>,
    digest: Option<String>,
) -> bool {
    if exists|j: int| 0 <= j < listed.len() && (#[trigger] listed[j]).name@ == name {
        exists|j: int| #[trigger]
            index::is_last(presence::names_of(listed), name, j) && digest
                == match listed[j].properties {
                Some(p) => p.content_md5,
                None => None,
            }
    } else {
        digest is None
    }
}

/// Gives entries that came from a file list, which has no digests, the digests of the listing
/// that they came from.
pub fn restore_digests(entries: &mut Vec<BlobItem>, listed: &Vec<BlobItem>)
    ensures
        final(entries)@.len() == old(entries)@.len(),
        forall|i: int|
            0 <= i < old(entries)@.len() ==> {
                let a = old(entries)@[i];
                let b = #[trigger] final(entries)@[i];
                &&& b.name == a.name
                &&& match a.properties {
                    Some(p) => b.properties is Some && listed_digest(
                        listed@,
                        a.name@,
                        b.properties->0.content_md5,
                    ) && b.properties->0 == (BlobProperties {
                        content_md5: b.properties->0.content_md5,
                        ..p
                    }),
                    None => b.properties is None,
                }
            },
{
    let mut keys: Vec<Vec<char>> = Vec::new();
    let mut k: usize = 0;
    let ghost names = presence::names_of(listed@);
    while k < listed.len()
        invariant
            k <= listed@.len(),
            keys@.len() == k,
            forall|j: int| 0 <= j < k ==> (#[trigger] keys@[j])@ == listed@[j].name@,
        decreases listed@.len() - k,
    {
        keys.push(chars_of(listed[k].name.as_str()));
        k += 1;
    }
    let by_name = NameIndex::new(keys);
    assert(by_name.names() =~= names);
    let ghost before = entries@;
    let mut i: usize = 0;
    while i < entries.len()
        invariant
            i <= entries@.len(),
            entries@.len() == before.len(),
            by_name.wf(),
            by_name.names() == names,
            names == presence::names_of(listed@),
            forall|j: int| i <= j < before.len() ==> #[trigger] entries@[j] == before[j],
            forall|j: int|
                0 <= j < i ==> {
                    let a = before[j];
                    let b = #[trigger] entries@[j];
                    &&& b.name == a.name
                    &&& match a.properties {
                        Some(p) => b.properties is Some && listed_digest(
                            listed@,
                            a.name@,
                            b.properties->0.content_md5,
                        ) && b.properties->0 == (BlobProperties {
                            content_md5: b.properties->0.content_md5,
                            ..p
                        }),
                        None => b.properties is None,
                    }
                },
        decreases entries@.len() - i,
    {
        let mut e = entries[i].clone();
        assert(entries@[i as int] == before[i as int]);
        match e.properties {
            Some(p) => {
                let mut p = p;
                let key = chars_of(e.name.as_str());
                let digest = match by_name.find(&key) {
                    Some(j) => {
                        assert(index::is_last(names, key@, j as int));
                        assert(listed@[j as int].name@ == key@);
                        match &listed[j].properties {
                            Some(q) => clone_opt(&q.content_md5),
                            None => None,
                        }
                    },
                    None => {
                        proof {
                            assert forall|j: int|
                                0 <= j < listed@.len() implies (#[trigger] listed@[j]).name@
                                != key@ by {
                                assert(names[j] == listed@[j].name@);
                            }
                        }
                        None
                    },
                };
                assert(listed_digest(listed@, key@, digest));
                p.content_md5 = digest;
                e.properties = Some(p);
            },
            None => {},
        }
        entries.set(i, e);
        i += 1;
    }
}

/// What is left of a listing can be laid out on a disk: nothing in it stands for a directory,
/// and no name is that of a directory above another one.
pub proof fn law_clean_listing_has_no_directories(
    prefix: Seq<char>,
    entries: Seq<BlobItem>,
    i: int,
)
    requires
        ({
            let files = entries.filter(|b: BlobItem| !paths::marks_directory(prefix, b.name@));
            0 <= i < files.filter(|b: BlobItem| !is_parent(b.name@, files)).len()
        }),
    ensures
        ({
            let files = entries.filter(|b: BlobItem| !paths::marks_directory(prefix, b.name@));
            let kept = files.filter(|b: BlobItem| !is_parent(b.name@, files));
            !paths::marks_directory(prefix, kept[i].name@) && !is_parent(kept[i].name@, kept)
        }),
{
    let p = |b: BlobItem| !paths::marks_directory(prefix, b.name@);
    let files = entries.filter(p);
    let q = |b: BlobItem| !is_parent(b.name@, files);
    let kept = files.filter(q);
    files.lemma_filter_pred(q, i);
    files.lemma_filter_contains_rev(q, kept[i]);
    let k = files.index_of(kept[i]);
    assert(files[k] == kept[i]);
    entries.lemma_filter_pred(p, k);
    if is_parent(kept[i].name@, kept) {
        let j = choose|j: int|
            0 <= j < kept.len() && text::starts_with(
                #[trigger] kept[j].name@,
                kept[i].name@.push('/'),
            );
        files.lemma_filter_contains_rev(q, kept[j]);
        let m = files.index_of(kept[j]);
        assert(files[m] == kept[j]);
        assert(text::starts_with(files[m].name@, kept[i].name@.push('/')));
    }
}

/// Nothing but directories is dropped: an entry of the listing stays exactly where its name does
/// not end in `/`, something is left of it below the prefix, and no other such entry lies below
/// it.
pub proof fn law_only_directories_are_dropped(prefix: Seq<char>, entries: Seq<BlobItem>, b: BlobItem)
    ensures
        ({
            let files = entries.filter(|b: BlobItem| !paths::marks_directory(prefix, b.name@));
            let kept = files.filter(|b: BlobItem| !is_parent(b.name@, files));
            kept.contains(b) <==> entries.contains(b) && !(b.name@.len() > 0 && b.name@.last()
                == '/') && paths::rel_path(prefix, b.name@).len() > 0 && forall|j: int|
                0 <= j < entries.len() && !((#[trigger] entries[j]).name@.len() > 0
                    && entries[j].name@.last() == '/') && paths::rel_path(
                    prefix,
                    entries[j].name@,
                ).len() > 0 ==> !(entries[j].name@.len() > b.name@.len() && entries[j].name@.take(
                    b.name@.len() as int,
                ) == b.name@ && entries[j].name@[b.name@.len() as int] == '/')
        }),
{
    let p = |b: BlobItem| !paths::marks_directory(prefix, b.name@);
    let files = entries.filter(p);
    let q = |b: BlobItem| !is_parent(b.name@, files);
    let kept = files.filter(q);
    assert forall|x: BlobItem| #[trigger] p(x) <==> !(x.name@.len() > 0 && x.name@.last() == '/')
        && paths::rel_path(prefix, x.name@).len() > 0 by {
        let n = x.name@.len();
        if n > 0 {
            assert(x.name@.skip(n - 1)[0] == x.name@.last());
            if x.name@.last() == '/' {
                assert(x.name@.skip(n - 1) =~= seq!['/']);
            }
            assert(seq!['/'][0] == '/');
        }
    }
    lemma_filter_contains(entries, p, b);
    lemma_filter_contains(files, q, b);
    let below = |x: BlobItem|
        x.name@.len() > b.name@.len() && x.name@.take(b.name@.len() as int) == b.name@ && x.name@[
            b.name@.len() as int
        ] == '/';
    assert forall|x: BlobItem| #[trigger] below(x) <==> text::starts_with(
        x.name@,
        b.name@.push('/'),
    ) by {
        let n = b.name@.len() as int;
        let d = b.name@.push('/');
        if below(x) {
            assert(x.name@.take(n + 1) =~= d);
        }
        if text::starts_with(x.name@, d) {
            assert(x.name@.take(n + 1) == d);
            assert(x.name@[n] == d[n]);
            assert(x.name@.take(n) =~= d.take(n));
            assert(d.take(n) =~= b.name@);
        }
    }
    if is_parent(b.name@, files) {
        let j = choose|j: int|
            0 <= j < files.len() && text::starts_with(
                #[trigger] files[j].name@,
                b.name@.push('/'),
            );
        assert(files.contains(files[j]));
        lemma_filter_contains(entries, p, files[j]);
        let k = entries.index_of(files[j]);
        assert(below(entries[k]) && p(entries[k]));
    }
    assert forall|j: int|
        0 <= j < entries.len() && p(#[trigger] entries[j]) && below(entries[j]) implies is_parent(
        b.name@,
        files,
    ) by {
        assert(entries.contains(entries[j]));
        lemma_filter_contains(entries, p, entries[j]);
        let k = files.index_of(entries[j]);
        assert(text::starts_with(files[k].name@, b.name@.push('/')));
    }
    assert(p(b) == p(b) && q(b) == q(b));
}

proof fn lemma_filter_contains(s: Seq<BlobItem>, p: spec_fn(BlobItem) -> bool, x: BlobItem)
    ensures
        s.filter(p).contains(x) <==> s.contains(x) && p(x),
    decreases s.len(),
{
    reveal(Seq::filter);
    if s.len() > 0 {
        let front = s.drop_last();
        lemma_filter_contains(front, p, x);
        if front.contains(x) {
            let k = front.index_of(x);
            assert(s[k] == x);
        }
        if s.contains(x) {
            let k = s.index_of(x);
            if k < front.len() {
                assert(front[k] == x);
            }
        }
        if p(s.last()) {
            let f = front.filter(p);
            let g = f.push(s.last());
            if f.contains(x) {
                let k = f.index_of(x);
                assert(g[k] == x);
            }
            if x == s.last() {
                assert(g.last() == x);
            }
            if g.contains(x) {
                let k = g.index_of(x);
                if k < f.len() {
                    assert(f[k] == x);
                }
            }
        }
        assert(s[s.len() - 1] == s.last());
    }
}

/// The digest of a name is that of the last blob of that name in the listing, and there is none
/// where no blob has the name.
pub proof fn law_digests_are_those_of_the_listing(
    listed: Seq<BlobItem>,
    name: Seq<char>,
    digest: Option<String>,
    j: int,
)
    requires
        listed_digest(listed, name, digest),
        0 <= j < listed.len() ==> listed[j].name@ == name && forall|k: int|
            j < k < listed.len() ==> (#[trigger] listed[k]).name@ != name,
        !(0 <= j < listed.len()) ==> forall|k: int|
            0 <= k < listed.len() ==> (#[trigger] listed[k]).name@ != name,
    ensures
        0 <= j < listed.len() && listed[j].properties is Some ==> digest
            == listed[j].properties->0.content_md5,
        0 <= j < listed.len() && listed[j].properties is None ==> digest is None,
        !(0 <= j < listed.len()) ==> digest is None,
{
    let names = presence::names_of(listed);
    if 0 <= j < listed.len() {
        assert(names[j] == name);
        assert forall|k: int| j < k < names.len() implies #[trigger] names[k] != name by {
            assert(names[k] == listed[k].name@);
        }
        assert(index::is_last(names, name, j));
        let m = choose|m: int| #[trigger]
            index::is_last(names, name, m) && digest == match listed[m].properties {
                Some(p) => p.content_md5,
                None => None,
            };
        index::lemma_last_place(names, name, j);
        index::lemma_last_place(names, name, m);
    }
}

} // verus!
