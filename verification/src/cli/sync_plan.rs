//! `azcp sync`: the verdicts on all files or blobs together.
use crate::cli::args::CompareMethod;
use crate::cli::sync_cmd;
use crate::cli::sync_cmd::{needs_download, needs_upload, remote_record};
use crate::cli::sync_cmd::{RemoteIndex, RemoteRecord, Verdict};
use crate::cluster::paths;
use crate::cluster::paths::rel_below;
use crate::engine::index;
use crate::engine::index::NameIndex;
use crate::storage::blob::models::BlobItem;
use crate::storage::local::LocalEntry;
use crate::text;
use crate::text::chars_of;
use vstd::prelude::*;

verus! {

/// What is known of the blob with this path.
pub open spec fn record_at(
    rels: Seq<Seq<char>>,
    entries: Seq<RemoteRecord>,
    name: Seq<char>,
) -> Option<RemoteRecord> {
    match index::last_place(rels, name) {
        Some(i) => Some(entries[i]),
        None => None,
    }
}

/// The verdict on each file of an upload, where the digests of some files are known.
pub open spec fn upload_plan(
    method: CompareMethod,
    files: Seq<LocalEntry>,
    rels: Seq<Seq<char>>,
    entries: Seq<RemoteRecord>,
    digests: Seq<Option<String>>,
) -> Seq<Verdict> {
    Seq::new(
        files.len(),
        |i: int|
            sync_cmd::upload_verdict(
                method,
                files[i].size,
                files[i].modified,
                record_at(rels, entries, files[i].relative_path@),
                text::opt_view(digests[i]),
            ),
    )
}

/// The verdict on each file of an upload, where the digests of some files are known.
pub fn upload_verdicts(
    method: CompareMethod,
    files: &Vec<LocalEntry>,
    remote: &RemoteIndex,
    digests: &Vec<Option<String>>,
) -> (out: Vec<Verdict>)
    requires
        remote.wf(),
        digests@.len() == files@.len(),
    ensures
        out@ == upload_plan(method, files@, remote.rels(), remote.entries(), digests@),
{
    let mut out: Vec<Verdict> = Vec::new();
    let ghost plan = upload_plan(method, files@, remote.rels(), remote.entries(), digests@);
    let mut i: usize = 0;
    while i < files.len()
        invariant
            i <= files@.len(),
            remote.wf(),
            digests@.len() == files@.len(),
            plan == upload_plan(method, files@, remote.rels(), remote.entries(), digests@),
            out@ =~= plan.take(i as int),
        decreases files@.len() - i,
    {
        let name = files[i].relative_path.as_str();
        let record = remote.get(name);
        proof {
            if record is Some {
                let k = choose|k: int| #[trigger]
                    index::is_last(remote.rels(), name@, k) && *record->0 == remote.entries()[k];
                index::lemma_last_place(remote.rels(), name@, k);
            }
        }
        out.push(needs_upload(method, &files[i], record, &digests[i]));
        i += 1;
    }
    out
}

/// The place of the local file of each blob below a prefix.
pub open spec fn local_plan(
    blobs: Seq<BlobItem>,
    prefix: Seq<char>,
    names: Seq<Seq<char>>,
) -> Seq<Option<int>> {
    blobs.map_values(
        |b: BlobItem| index::last_place(names, paths::rel_path(prefix, b.name@)),
    )
}

/// A place in a list, as a number.
pub open spec fn place_view(p: Option<usize>) -> Option<int> {
    match p {
        Some(i) => Some(i as int),
        None => None,
    }
}

pub open spec fn place_views(s: Seq<Option<usize>>) -> Seq<Option<int>> {
    s.map_values(|p: Option<usize>| place_view(p))
}

/// The place of the local file of each blob below a prefix.
pub fn local_places(blobs: &Vec<BlobItem>, prefix: &str, names: &NameIndex) -> (out: Vec<
    Option<usize>,
>)
    requires
        names.wf(),
    ensures
        place_views(out@) == local_plan(blobs@, prefix@, names.names()),
        forall|i: int|
            0 <= i < out@.len() && (#[trigger] out@[i]) is Some ==> out@[i]->0
                < names.names().len(),
{
    let mut out: Vec<Option<usize>> = Vec::new();
    let ghost plan = local_plan(blobs@, prefix@, names.names());
    let mut i: usize = 0;
    while i < blobs.len()
        invariant
            i <= blobs@.len(),
            names.wf(),
            plan == local_plan(blobs@, prefix@, names.names()),
            place_views(out@) =~= plan.take(i as int),
            forall|i: int|
                0 <= i < out@.len() && (#[trigger] out@[i]) is Some ==> out@[i]->0
                    < names.names().len(),
        decreases blobs@.len() - i,
    {
        let key = chars_of(rel_below(prefix, blobs[i].name.as_str()).as_str());
        let place = names.find(&key);
        proof {
            if place is Some {
                index::lemma_last_place(names.names(), key@, place->0 as int);
            }
            assert(place_view(place) == plan[i as int]);
        }
        let ghost before = out@;
        out.push(place);
        assert(place_views(out@) =~= place_views(before).push(place_view(place)));
        i += 1;
    }
    out
}

/// The verdict on each blob of a download, where the digests of some local files are known.
pub open spec fn download_plan(
    method: CompareMethod,
    blobs: Seq<BlobItem>,
    files: Seq<LocalEntry>,
    places: Seq<Option<usize>>,
    digests: Seq<Option<String>>,
) -> Seq<Verdict> {
    Seq::new(
        blobs.len(),
        |i: int|
            sync_cmd::download_verdict(
                method,
                sync_cmd::record_of(blobs[i]),
                match places[i] {
                    Some(k) => Some(files[k as int]),
                    None => None,
                },
                text::opt_view(digests[i]),
            ),
    )
}

/// The verdict on each blob of a download, where the digests of some local files are known.
pub fn download_verdicts(
    method: CompareMethod,
    blobs: &Vec<BlobItem>,
    files: &Vec<LocalEntry>,
    places: &Vec<Option<usize>>,
    digests: &Vec<Option<String>>,
) -> (out: Vec<Verdict>)
    requires
        places@.len() == blobs@.len(),
        digests@.len() == blobs@.len(),
        forall|i: int|
            0 <= i < places@.len() && (#[trigger] places@[i]) is Some ==> places@[i]->0
                < files@.len(),
    ensures
        out@ == download_plan(method, blobs@, files@, places@, digests@),
{
    let mut out: Vec<Verdict> = Vec::new();
    let ghost plan = download_plan(method, blobs@, files@, places@, digests@);
    let mut i: usize = 0;
    while i < blobs.len()
        invariant
            i <= blobs@.len(),
            places@.len() == blobs@.len(),
            digests@.len() == blobs@.len(),
            forall|i: int|
                0 <= i < places@.len() && (#[trigger] places@[i]) is Some ==> places@[i]->0
                    < files@.len(),
            plan == download_plan(method, blobs@, files@, places@, digests@),
            out@ =~= plan.take(i as int),
        decreases blobs@.len() - i,
    {
        let record = remote_record(&blobs[i]);
        let file = match places[i] {
            Some(k) => Some(&files[k]),
            None => None,
        };
        out.push(needs_download(method, &record, file, &digests[i]));
        i += 1;
    }
    out
}

/// The places of a verdict, in order.
pub open spec fn places_of(verdicts: Seq<Verdict>, what: Verdict) -> Seq<usize>
    decreases verdicts.len(),
{
    if verdicts.len() == 0 {
        Seq::empty()
    } else {
        let front = places_of(verdicts.drop_last(), what);
        if verdicts.last() == what {
            front.push((verdicts.len() - 1) as usize)
        } else {
            front
        }
    }
}

/// What a sync does, by the places of its items.
#[derive(Debug)]
pub struct SyncPlan {
    pub transfers: Vec<usize>,
    /// The items whose digest has to be computed first.
    pub digests: Vec<usize>,
    pub unchanged: u64,
}

/// Sorts the items of a sync by what is done with them.
pub fn sort_verdicts(verdicts: &Vec<Verdict>) -> (out: SyncPlan)
    ensures
        out.transfers@ == places_of(verdicts@, Verdict::Transfer),
        out.digests@ == places_of(verdicts@, Verdict::NeedsDigest),
        out.unchanged == places_of(verdicts@, Verdict::Unchanged).len(),
{
    let mut transfers: Vec<usize> = Vec::new();
    let mut digests: Vec<usize> = Vec::new();
    let mut unchanged: u64 = 0;
    let mut i: usize = 0;
    assert(verdicts@.take(0) =~= Seq::<Verdict>::empty());
    while i < verdicts.len()
        invariant
            i <= verdicts@.len(),
            unchanged <= i,
            transfers@ == places_of(verdicts@.take(i as int), Verdict::Transfer),
            digests@ == places_of(verdicts@.take(i as int), Verdict::NeedsDigest),
            unchanged == places_of(verdicts@.take(i as int), Verdict::Unchanged).len(),
        decreases verdicts@.len() - i,
    {
        assert(verdicts@.take(i + 1).drop_last() =~= verdicts@.take(i as int));
        match verdicts[i] {
            Verdict::Transfer => transfers.push(i),
            Verdict::NeedsDigest => digests.push(i),
            Verdict::Unchanged => unchanged += 1,
        }
        i += 1;
    }
    assert(verdicts@.take(verdicts@.len() as int) =~= verdicts@);
    SyncPlan { transfers, digests, unchanged }
}

proof fn lemma_places_of(verdicts: Seq<Verdict>, what: Verdict, i: usize)
    requires
        verdicts.len() <= usize::MAX,
    ensures
        places_of(verdicts, what).contains(i) <==> i < verdicts.len() && verdicts[i as int] == what,
    decreases verdicts.len(),
{
    if verdicts.len() > 0 {
        let all = places_of(verdicts, what);
        let front = places_of(verdicts.drop_last(), what);
        lemma_places_of(verdicts.drop_last(), what, i);
        if front.contains(i) {
            let k = front.index_of(i);
            assert(all[k] == i);
        }
        if verdicts.last() == what && i == verdicts.len() - 1 {
            assert(all.last() == i);
        }
        if all.contains(i) && !front.contains(i) {
            let k = all.index_of(i);
            if k < front.len() {
                assert(front[k] == i);
            }
        }
    }
}

proof fn lemma_places_add_up(verdicts: Seq<Verdict>)
    ensures
        places_of(verdicts, Verdict::Transfer).len() + places_of(
            verdicts,
            Verdict::NeedsDigest,
        ).len() + places_of(verdicts, Verdict::Unchanged).len() == verdicts.len(),
    decreases verdicts.len(),
{
    if verdicts.len() > 0 {
        lemma_places_add_up(verdicts.drop_last());
    }
}

/// Nothing is lost and nothing is counted twice: an item is transferred exactly where its
/// verdict says so, and the items that are transferred, wait for a digest or are unchanged are
/// together all items.
pub proof fn law_every_item_is_sorted(verdicts: Seq<Verdict>, i: usize)
    requires
        verdicts.len() <= usize::MAX,
    ensures
        places_of(verdicts, Verdict::Transfer).contains(i) <==> i < verdicts.len()
            && verdicts[i as int] == Verdict::Transfer,
        places_of(verdicts, Verdict::NeedsDigest).contains(i) <==> i < verdicts.len()
            && verdicts[i as int] == Verdict::NeedsDigest,
        places_of(verdicts, Verdict::Transfer).len() + places_of(
            verdicts,
            Verdict::NeedsDigest,
        ).len() + places_of(verdicts, Verdict::Unchanged).len() == verdicts.len(),
{
    lemma_places_of(verdicts, Verdict::Transfer, i);
    lemma_places_of(verdicts, Verdict::NeedsDigest, i);
    lemma_places_add_up(verdicts);
}

/// Where the digests that the first round of an upload asks for are known, the second round
/// decides on everything, and the digests change nothing that was decided before.
pub proof fn law_second_round_decides(
    method: CompareMethod,
    files: Seq<LocalEntry>,
    rels: Seq<Seq<char>>,
    entries: Seq<RemoteRecord>,
    none: Seq<Option<String>>,
    digests: Seq<Option<String>>,
    i: int,
)
    requires
        0 <= i < files.len(),
        none[i] is None,
        upload_plan(method, files, rels, entries, none)[i] == Verdict::NeedsDigest
            ==> digests[i] is Some,
    ensures
        upload_plan(method, files, rels, entries, digests)[i] != Verdict::NeedsDigest,
        upload_plan(method, files, rels, entries, none)[i] != Verdict::NeedsDigest ==> upload_plan(
            method,
            files,
            rels,
            entries,
            digests,
        )[i] == upload_plan(method, files, rels, entries, none)[i],
{
}

/// Where the digests that the first round of a download asks for are known, the second round
/// decides on everything, and the digests change nothing that was decided before.
pub proof fn law_second_round_decides_downloads(
    method: CompareMethod,
    blobs: Seq<BlobItem>,
    files: Seq<LocalEntry>,
    places: Seq<Option<usize>>,
    none: Seq<Option<String>>,
    digests: Seq<Option<String>>,
    i: int,
)
    requires
        0 <= i < blobs.len(),
        none[i] is None,
        download_plan(method, blobs, files, places, none)[i] == Verdict::NeedsDigest
            ==> digests[i] is Some,
    ensures
        download_plan(method, blobs, files, places, digests)[i] != Verdict::NeedsDigest,
        download_plan(method, blobs, files, places, none)[i] != Verdict::NeedsDigest
            ==> download_plan(method, blobs, files, places, digests)[i] == download_plan(
            method,
            blobs,
            files,
            places,
            none,
        )[i],
{
}

/// An upload goes by the blob of the path of the file, the last one of that path where there are
/// more: by its size, by its time in whole seconds, and by its digest. Without such a blob the
/// file is uploaded, and so it is where a time is not known or the blob has no digest.
pub proof fn law_upload_goes_by_the_blob_of_its_path(
    method: CompareMethod,
    files: Seq<LocalEntry>,
    blobs: Seq<BlobItem>,
    prefix: Seq<char>,
    digests: Seq<Option<String>>,
    i: int,
    j: int,
)
    requires
        0 <= i < files.len(),
        0 <= j < blobs.len(),
        paths::rel_path(prefix, blobs[j].name@) == files[i].relative_path@,
        forall|k: int|
            j < k < blobs.len() ==> paths::rel_path(prefix, (#[trigger] blobs[k]).name@)
                != files[i].relative_path@,
        blobs[j].properties is Some,
    ensures
        ({
            let plan = upload_plan(
                method,
                files,
                sync_cmd::rel_names(blobs, prefix),
                sync_cmd::records_of(blobs),
                digests,
            );
            let p = blobs[j].properties->0;
            let same_size = p.content_length == Some(files[i].size) || p.content_length is None
                && files[i].size == 0;
            let known = p.last_modified is Some && sync_cmd::rfc2822_time(p.last_modified->0@)
                is Some;
            let theirs = sync_cmd::rfc2822_time(p.last_modified->0@)->0;
            &&& plan.len() == files.len()
            &&& method is Always ==> plan[i] == Verdict::Transfer
            &&& !same_size ==> plan[i] == Verdict::Transfer
            &&& method is Size && same_size ==> plan[i] == Verdict::Unchanged
            &&& method is SizeAndMtime && same_size && known && files[i].modified is Some ==> (
            plan[i] == if files[i].modified->0.secs > theirs.0 {
                Verdict::Transfer
            } else {
                Verdict::Unchanged
            })
            &&& method is SizeAndMtime && !(known && files[i].modified is Some) ==> plan[i]
                == Verdict::Transfer
            &&& method is Md5 && p.content_md5 is None ==> plan[i] == Verdict::Transfer
            &&& method is Md5 && same_size && p.content_md5 is Some && digests[i] is None
                ==> plan[i] == Verdict::NeedsDigest
            &&& method is Md5 && same_size && p.content_md5 is Some && digests[i] is Some ==> (
            plan[i] == if digests[i]->0@ == p.content_md5->0@ {
                Verdict::Unchanged
            } else {
                Verdict::Transfer
            })
        }),
{
    let rels = sync_cmd::rel_names(blobs, prefix);
    let name = files[i].relative_path@;
    assert(rels[j] == name);
    assert forall|k: int| j < k < rels.len() implies #[trigger] rels[k] != name by {
        assert(rels[k] == paths::rel_path(prefix, blobs[k].name@));
    }
    assert(index::is_last(rels, name, j));
    index::lemma_last_place(rels, name, j);
    assert(sync_cmd::records_of(blobs)[j] == sync_cmd::record_of(blobs[j]));
}

/// A file whose path no blob has is uploaded.
pub proof fn law_a_file_without_a_blob_is_uploaded(
    method: CompareMethod,
    files: Seq<LocalEntry>,
    blobs: Seq<BlobItem>,
    prefix: Seq<char>,
    digests: Seq<Option<String>>,
    i: int,
)
    requires
        0 <= i < files.len(),
        forall|k: int|
            0 <= k < blobs.len() ==> paths::rel_path(prefix, (#[trigger] blobs[k]).name@)
                != files[i].relative_path@,
    ensures
        upload_plan(
            method,
            files,
            sync_cmd::rel_names(blobs, prefix),
            sync_cmd::records_of(blobs),
            digests,
        )[i] == Verdict::Transfer,
{
    let rels = sync_cmd::rel_names(blobs, prefix);
    let name = files[i].relative_path@;
    if rels.contains(name) {
        let k = rels.index_of(name);
        assert(rels[k] == paths::rel_path(prefix, blobs[k].name@));
    }
}

/// A download goes by the file at the path of the blob, the last one of that path where there
/// are more: by its size, by its time, and by its digest. A blob that is newer than its file by
/// a nanosecond is downloaded, and so is one without a file, one whose time or whose file's time
/// is not known, and one without a digest.
pub proof fn law_download_goes_by_the_file_of_its_path(
    method: CompareMethod,
    blobs: Seq<BlobItem>,
    prefix: Seq<char>,
    files: Seq<LocalEntry>,
    places: Seq<Option<usize>>,
    digests: Seq<Option<String>>,
    i: int,
    k: int,
)
    requires
        0 <= i < blobs.len(),
        0 <= k < files.len(),
        place_views(places) == local_plan(
            blobs,
            prefix,
            files.map_values(|f: LocalEntry| f.relative_path@),
        ),
        paths::rel_path(prefix, blobs[i].name@) == files[k].relative_path@,
        forall|m: int|
            k < m < files.len() ==> (#[trigger] files[m]).relative_path@ != files[k].relative_path@,
        blobs[i].properties is Some,
    ensures
        ({
            let plan = download_plan(method, blobs, files, places, digests);
            let p = blobs[i].properties->0;
            let same_size = p.content_length == Some(files[k].size) || p.content_length is None
                && files[k].size == 0;
            let known = p.last_modified is Some && sync_cmd::rfc2822_time(p.last_modified->0@)
                is Some;
            let theirs = sync_cmd::rfc2822_time(p.last_modified->0@)->0;
            let mine = files[k].modified->0;
            &&& plan.len() == blobs.len()
            &&& method is Always ==> plan[i] == Verdict::Transfer
            &&& !same_size ==> plan[i] == Verdict::Transfer
            &&& method is Size && same_size ==> plan[i] == Verdict::Unchanged
            &&& method is SizeAndMtime && same_size && known && files[k].modified is Some ==> (
            plan[i] == if theirs.0 > mine.secs || theirs.0 == mine.secs && theirs.1 > mine.nanos {
                Verdict::Transfer
            } else {
                Verdict::Unchanged
            })
            &&& method is SizeAndMtime && !(known && files[k].modified is Some) ==> plan[i]
                == Verdict::Transfer
            &&& method is Md5 && p.content_md5 is None ==> plan[i] == Verdict::Transfer
            &&& method is Md5 && same_size && p.content_md5 is Some && digests[i] is None
                ==> plan[i] == Verdict::NeedsDigest
            &&& method is Md5 && same_size && p.content_md5 is Some && digests[i] is Some ==> (
            plan[i] == if digests[i]->0@ == p.content_md5->0@ {
                Verdict::Unchanged
            } else {
                Verdict::Transfer
            })
        }),
{
    let names = files.map_values(|f: LocalEntry| f.relative_path@);
    let name = files[k].relative_path@;
    assert(names[k] == name);
    assert forall|m: int| k < m < names.len() implies #[trigger] names[m] != name by {
        assert(names[m] == files[m].relative_path@);
    }
    assert(index::is_last(names, name, k));
    index::lemma_last_place(names, name, k);
    assert(place_views(places)[i] == local_plan(blobs, prefix, names)[i]);
    assert(place_views(places).len() == blobs.len());
    assert(place_views(places)[i] == place_view(places[i]));
    assert(places[i] is Some && places[i]->0 == k);
}

/// A blob whose path no file has is downloaded.
pub proof fn law_a_blob_without_a_file_is_downloaded(
    method: CompareMethod,
    blobs: Seq<BlobItem>,
    prefix: Seq<char>,
    files: Seq<LocalEntry>,
    places: Seq<Option<usize>>,
    digests: Seq<Option<String>>,
    i: int,
)
    requires
        0 <= i < blobs.len(),
        place_views(places) == local_plan(
            blobs,
            prefix,
            files.map_values(|f: LocalEntry| f.relative_path@),
        ),
        forall|m: int|
            0 <= m < files.len() ==> (#[trigger] files[m]).relative_path@ != paths::rel_path(
                prefix,
                blobs[i].name@,
            ),
    ensures
        download_plan(method, blobs, files, places, digests)[i] == Verdict::Transfer,
{
    let names = files.map_values(|f: LocalEntry| f.relative_path@);
    let name = paths::rel_path(prefix, blobs[i].name@);
    if names.contains(name) {
        let m = names.index_of(name);
        assert(names[m] == files[m].relative_path@);
    }
    assert(place_views(places)[i] == local_plan(blobs, prefix, names)[i]);
    assert(place_views(places).len() == blobs.len());
    assert(place_views(places)[i] == place_view(places[i]));
}

/// The items of a verdict stand in the order of the items, none of them twice.
pub proof fn law_items_stay_in_order(verdicts: Seq<Verdict>, what: Verdict, i: int, j: int)
    requires
        verdicts.len() <= usize::MAX,
        0 <= i < j < places_of(verdicts, what).len(),
    ensures
        places_of(verdicts, what)[i] < places_of(verdicts, what)[j],
        places_of(verdicts, what)[j] < verdicts.len(),
    decreases verdicts.len(),
{
    let front = verdicts.drop_last();
    let some = places_of(front, what);
    if j < some.len() {
        law_items_stay_in_order(front, what, i, j);
    } else {
        lemma_places_of(front, what, some[i]);
        assert(some.contains(some[i]));
    }
}

} // verus!
