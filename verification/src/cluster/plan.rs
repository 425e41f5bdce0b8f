//! Who does what in a run: which ranks download, what each of them downloads, what is
//! broadcast, and which files a rank has to make.
use crate::cluster::cli::Args;
use crate::cluster::paths;
use crate::cluster::paths::rel_below;
use crate::cluster::stages::diff;
use crate::cluster::stages::diff::Classification;
use crate::cluster::stages::presence::Presence;
use crate::cluster::stages::shards;
use crate::cluster::stages::shards::{compute_shard_size_from_file_shards, ShardSpec};
use crate::engine;
use crate::storage::blob::models;
use crate::storage::blob::models::{item_size, BlobItem};
use crate::text;
use crate::text::{decimal_text, owned};
use vstd::prelude::*;

verus! {

/// What is said where a node has more than one rank; nothing where it has one.
pub fn node_complaint(rank: usize, ranks_on_node: usize) -> (out: Option<String>)
    ensures
        text::opt_view(out) == if ranks_on_node > 1 {
            Some(
                "rank "@ + text::decimal(rank as nat) + ": detected "@ + text::decimal(
                    ranks_on_node as nat,
                )
                    + " ranks on this node; azcp-cluster requires exactly one rank per node (use mpirun -N 1 / one process per host)"@,
            )
        } else {
            None
        },
{
    if ranks_on_node <= 1 {
        return None;
    }
    let mut out = owned("rank ");
    out.append(decimal_text(rank as u64).as_str());
    out.append(": detected ");
    out.append(decimal_text(ranks_on_node as u64).as_str());
    out.append(
        " ranks on this node; azcp-cluster requires exactly one rank per node (use mpirun -N 1 / one process per host)",
    );
    Some(out)
}

/// How many ranks download: all of them unless a number is given, which must be one that there
/// is. The error is what is said where it is not.
pub fn download_rank_count(download_ranks: Option<usize>, total_ranks: usize) -> (out:
    std::result::Result<usize, String>)
    ensures
        match out {
            Ok(n) => match download_ranks {
                Some(k) => n == k && 1 <= k <= total_ranks,
                None => n == total_ranks,
            },
            Err(e) => match download_ranks {
                Some(k) => (k == 0 || k > total_ranks) && e@ == "--download-ranks "@
                    + text::decimal(k as nat) + " invalid (must be 1..="@ + text::decimal(
                    total_ranks as nat,
                ) + ")"@,
                None => false,
            },
        },
{
    match download_ranks {
        Some(k) => {
            if k == 0 || k > total_ranks {
                let mut e = owned("--download-ranks ");
                e.append(decimal_text(k as u64).as_str());
                e.append(" invalid (must be 1..=");
                e.append(decimal_text(total_ranks as u64).as_str());
                e.append(")");
                return Err(e);
            }
            Ok(k)
        },
        None => Ok(total_ranks),
    }
}

/// The share of the bandwidth of the cluster that each downloading rank has, at least a byte a
/// second.
pub open spec fn share_of(bw: u64, download_ranks: usize) -> int {
    let share = bw as int / download_ranks as int;
    if share >= 1 {
        share
    } else {
        1
    }
}

/// The bandwidth of each downloading rank, where that of the cluster is limited.
pub fn per_rank_bandwidth(max_bandwidth: Option<u64>, download_ranks: usize) -> (out: Option<u64>)
    requires
        download_ranks > 0,
    ensures
        match max_bandwidth {
            Some(bw) => out matches Some(n) && n == share_of(bw, download_ranks),
            None => out is None,
        },
{
    match max_bandwidth {
        Some(bw) => {
            let share: u64 = bw / download_ranks as u64;
            if share >= 1 {
                Some(share)
            } else {
                Some(1)
            }
        },
        None => None,
    }
}

/// The shares of the ranks together do not exceed the bandwidth of the cluster, unless it is
/// less than a byte a second for each.
pub proof fn law_shares_fit(bw: u64, download_ranks: usize)
    requires
        bw >= download_ranks,
        download_ranks > 0,
    ensures
        share_of(bw, download_ranks) * download_ranks <= bw,
{
    let n = download_ranks as int;
    let q = bw as int / n;
    vstd::arithmetic::div_mod::lemma_fundamental_div_mod(bw as int, n);
    vstd::arithmetic::div_mod::lemma_mod_bound(bw as int, n);
    assert(q * n == n * q) by (nonlinear_arith);
    if q < 1 {
        assert(n * q <= 0) by (nonlinear_arith)
            requires
                q < 1,
                n > 0,
        ;
    }
}

/// Whether a rank downloads: the first `download_ranks` do.
pub fn is_downloader(rank: usize, download_ranks: usize) -> (out: bool)
    ensures
        out == (rank < download_ranks),
{
    rank < download_ranks
}

/// The blobs at these places of a listing.
pub open spec fn entries_at(entries: Seq<BlobItem>, at: Seq<usize>) -> Seq<BlobItem> {
    at.map_values(|i: usize| entries[i as int])
}

/// The blobs that have to be downloaded.
pub fn download_entries(entries: &Vec<BlobItem>, needs_download: &Vec<usize>) -> (out: Vec<
    BlobItem,
>)
    requires
        forall|i: int|
            0 <= i < needs_download@.len() ==> (#[trigger] needs_download@[i]) < entries@.len(),
    ensures
        out@ == entries_at(entries@, needs_download@),
{
    let mut out: Vec<BlobItem> = Vec::new();
    let mut i: usize = 0;
    while i < needs_download.len()
        invariant
            i <= needs_download@.len(),
            forall|j: int|
                0 <= j < needs_download@.len() ==> (#[trigger] needs_download@[j])
                    < entries@.len(),
            out@ == entries_at(entries@, needs_download@).take(i as int),
        decreases needs_download@.len() - i,
    {
        out.push(entries[needs_download[i]].clone());
        assert(out@ =~= entries_at(entries@, needs_download@).take(i + 1));
        i += 1;
    }
    assert(out@ =~= entries_at(entries@, needs_download@));
    out
}

/// The shard size of a run: the one that is given, else the one that splits the largest file as
/// asked, else none.
pub open spec fn shard_size_of(args: Args, sizes: Seq<u64>) -> int {
    if args.shard_size > 0 {
        args.shard_size as int
    } else {
        match args.file_shards {
            Some(n) => shards::derived_shard_size(sizes, n as int, args.bcast_chunk as int),
            None => 0,
        }
    }
}

/// The shard size of a run.
pub fn effective_shard_size(args: &Args, downloads: &Vec<BlobItem>) -> (out: u64)
    requires
        args.shard_size == 0 ==> (args.file_shards matches Some(n) ==> n >= 1 && args.bcast_chunk
            > 0),
        shard_size_of(*args, models::sizes_of(downloads@)) <= u64::MAX,
    ensures
        out == shard_size_of(*args, models::sizes_of(downloads@)),
{
    if args.shard_size > 0 {
        return args.shard_size;
    }
    match args.file_shards {
        Some(n) => compute_shard_size_from_file_shards(
            downloads.as_slice(),
            n,
            args.bcast_chunk as u64,
        ),
        None => 0,
    }
}

/// Whether one shard comes before another: by file, then by place in the file.
pub open spec fn comes_before(a: ShardSpec, b: ShardSpec) -> bool {
    a.file_idx < b.file_idx || a.file_idx == b.file_idx && a.shard_idx < b.shard_idx
}

/// Whether shards stand in order, none of them twice.
pub open spec fn in_order(plan: Seq<ShardSpec>) -> bool {
    forall|i: int, j: int|
        0 <= i < j < plan.len() ==> comes_before(#[trigger] plan[i], #[trigger] plan[j])
}

/// The shards of the downloaded files, numbered as in the whole listing.
pub open spec fn renumbered(downloads: Seq<ShardSpec>, needs_download: Seq<usize>) -> Seq<
    ShardSpec,
> {
    downloads.map_values(
        |s: ShardSpec| ShardSpec { file_idx: needs_download[s.file_idx as int], ..s },
    )
}

/// The shards of the files that a rank already has: one for each file, owned by that rank.
pub open spec fn peer_shards(entries: Seq<BlobItem>, bcast_only: Seq<(usize, usize)>) -> Seq<
    ShardSpec,
> {
    bcast_only.map_values(
        |x: (usize, usize)|
            ShardSpec {
                file_idx: x.0,
                shard_idx: 0,
                byte_offset: 0,
                byte_len: models::size_of(entries[x.0 as int]),
                owner_rank: x.1,
            },
    )
}

fn goes_before(a: &ShardSpec, b: &ShardSpec) -> (out: bool)
    ensures
        out == comes_before(*a, *b),
{
    a.file_idx < b.file_idx || a.file_idx == b.file_idx && a.shard_idx < b.shard_idx
}

proof fn lemma_push(s: Seq<ShardSpec>, x: ShardSpec)
    ensures
        s.push(x).to_multiset() == s.to_multiset().insert(x),
{
    broadcast use vstd::seq_lib::group_to_multiset_ensures;

}

proof fn lemma_take_push(s: Seq<ShardSpec>, i: int)
    requires
        0 <= i < s.len(),
    ensures
        s.take(i + 1).to_multiset() == s.take(i).to_multiset().insert(s[i]),
{
    broadcast use vstd::seq_lib::group_to_multiset_ensures;

    assert(s.take(i + 1) =~= s.take(i).push(s[i]));
}

/// Two lists of shards as one, in order.
fn merge(a: &Vec<ShardSpec>, b: &Vec<ShardSpec>) -> (out: Vec<ShardSpec>)
    requires
        in_order(a@),
        in_order(b@),
        forall|i: int, j: int|
            0 <= i < a@.len() && 0 <= j < b@.len() ==> (#[trigger] a@[i]).file_idx != (
            #[trigger] b@[j]).file_idx,
    ensures
        in_order(out@),
        out@.to_multiset() == a@.to_multiset().add(b@.to_multiset()),
{
    broadcast use vstd::seq_lib::group_to_multiset_ensures;

    let mut out: Vec<ShardSpec> = Vec::new();
    let mut i: usize = 0;
    let mut j: usize = 0;
    proof {
        assert(a@.take(0) =~= Seq::<ShardSpec>::empty());
        assert(b@.take(0) =~= Seq::<ShardSpec>::empty());
        assert(out@ =~= Seq::<ShardSpec>::empty());
        assert(out@.to_multiset() =~= a@.take(0).to_multiset().add(b@.take(0).to_multiset()));
    }
    while i < a.len() || j < b.len()
        invariant
            i <= a@.len(),
            j <= b@.len(),
            in_order(a@),
            in_order(b@),
            forall|x: int, y: int|
                0 <= x < a@.len() && 0 <= y < b@.len() ==> (#[trigger] a@[x]).file_idx != (
                #[trigger] b@[y]).file_idx,
            in_order(out@),
            forall|x: int, y: int|
                0 <= x < out@.len() && i <= y < a@.len() ==> comes_before(
                    #[trigger] out@[x],
                    #[trigger] a@[y],
                ),
            forall|x: int, y: int|
                0 <= x < out@.len() && j <= y < b@.len() ==> comes_before(
                    #[trigger] out@[x],
                    #[trigger] b@[y],
                ),
            out@.to_multiset() == a@.take(i as int).to_multiset().add(
                b@.take(j as int).to_multiset(),
            ),
        decreases a@.len() - i + b@.len() - j,
    {
        let ghost before = out@;
        if j >= b.len() || (i < a.len() && goes_before(&a[i], &b[j])) {
            proof {
                lemma_take_push(a@, i as int);
                assert(a@.take(i + 1).to_multiset().add(b@.take(j as int).to_multiset())
                    =~= before.to_multiset().insert(a@[i as int]));
                if j < b@.len() {
                    assert forall|y: int| j <= y < b@.len() implies comes_before(
                        a@[i as int],
                        #[trigger] b@[y],
                    ) by {
                        if y > j {
                            assert(comes_before(b@[j as int], b@[y]));
                        }
                    }
                }
            }
            out.push(a[i].clone());
            proof {
                lemma_push(before, a@[i as int]);
                assert(out@ =~= before.push(a@[i as int]));
            }
            i += 1;
        } else {
            proof {
                lemma_take_push(b@, j as int);
                assert(a@.take(i as int).to_multiset().add(b@.take(j + 1).to_multiset())
                    =~= before.to_multiset().insert(b@[j as int]));
                if i < a@.len() {
                    assert(a@[i as int].file_idx != b@[j as int].file_idx);
                    assert forall|y: int| i <= y < a@.len() implies comes_before(
                        b@[j as int],
                        #[trigger] a@[y],
                    ) by {
                        if y > i {
                            assert(comes_before(a@[i as int], a@[y]));
                        }
                    }
                }
            }
            out.push(b[j].clone());
            proof {
                lemma_push(before, b@[j as int]);
                assert(out@ =~= before.push(b@[j as int]));
            }
            j += 1;
        }
    }
    proof {
        assert(a@.take(a@.len() as int) =~= a@);
        assert(b@.take(b@.len() as int) =~= b@);
    }
    out
}

proof fn lemma_classes_differ(p: Presence, c: Classification, i: int, j: int)
    requires
        diff::is_classification(p, c),
        0 <= i < c.needs_download@.len(),
        0 <= j < c.bcast_only@.len(),
    ensures
        c.needs_download@[i] < p.num_files,
        c.bcast_only@[j].0 < p.num_files,
        c.needs_download@[i] != c.bcast_only@[j].0,
{
    diff::lemma_class_order(p, p.num_files as nat);
    let d = diff::downloads(p, p.num_files as nat);
    let b = diff::broadcasts(p, p.num_files as nat);
    assert(b[j] == c.bcast_only@[j].0);
    assert(diff::need(p, d[i] as int) is Download);
    assert(diff::need(p, b[j] as int) is Broadcast);
}

/// Everything that is broadcast, in the order in which all ranks broadcast it: the shards of
/// the downloaded files, and each file that some rank already has, whole.
pub fn bcast_shards(
    presence: &Presence,
    entries: &Vec<BlobItem>,
    c: &Classification,
    downloads: &Vec<ShardSpec>,
    shard_size: u64,
) -> (out: Vec<ShardSpec>)
    requires
        presence.num_files == entries@.len(),
        diff::is_classification(*presence, *c),
        shards::plan_pieces(downloads@) == shards::all_pieces(
            models::sizes_of(entries_at(entries@, c.needs_download@)),
            shard_size,
        ),
    ensures
        in_order(out@),
        out@.to_multiset() == renumbered(downloads@, c.needs_download@).to_multiset().add(
            peer_shards(entries@, c.bcast_only@).to_multiset(),
        ),
{
    let ghost sizes = models::sizes_of(entries_at(entries@, c.needs_download@));
    let ghost needs = c.needs_download@;
    proof {
        diff::lemma_class_order(*presence, presence.num_files as nat);
        assert forall|i: int| 0 <= i < downloads@.len() implies (#[trigger] downloads@[i]).file_idx
            < needs.len() by {
            shards::lemma_piece_file(sizes, shard_size, i);
            assert(shards::plan_pieces(downloads@)[i] == shards::piece(downloads@[i]));
        }
    }
    let mut a: Vec<ShardSpec> = Vec::new();
    let mut i: usize = 0;
    while i < downloads.len()
        invariant
            i <= downloads@.len(),
            needs == c.needs_download@,
            forall|k: int|
                0 <= k < downloads@.len() ==> (#[trigger] downloads@[k]).file_idx < needs.len(),
            a@ == renumbered(downloads@, needs).take(i as int),
        decreases downloads@.len() - i,
    {
        let s = &downloads[i];
        a.push(
            ShardSpec {
                file_idx: c.needs_download[s.file_idx],
                shard_idx: s.shard_idx,
                byte_offset: s.byte_offset,
                byte_len: s.byte_len,
                owner_rank: s.owner_rank,
            },
        );
        assert(a@ =~= renumbered(downloads@, needs).take(i + 1));
        i += 1;
    }
    assert(a@ =~= renumbered(downloads@, needs));
    let mut b: Vec<ShardSpec> = Vec::new();
    let mut j: usize = 0;
    while j < c.bcast_only.len()
        invariant
            j <= c.bcast_only@.len(),
            presence.num_files == entries@.len(),
            diff::is_classification(*presence, *c),
            b@ == peer_shards(entries@, c.bcast_only@).take(j as int),
        decreases c.bcast_only@.len() - j,
    {
        proof {
            diff::lemma_class_order(*presence, presence.num_files as nat);
            assert(diff::broadcasts(*presence, presence.num_files as nat)[j as int]
                == c.bcast_only@[j as int].0);
        }
        let (file_idx, owner_rank) = c.bcast_only[j];
        b.push(
            ShardSpec {
                file_idx,
                shard_idx: 0,
                byte_offset: 0,
                byte_len: item_size(&entries[file_idx]),
                owner_rank,
            },
        );
        assert(b@ =~= peer_shards(entries@, c.bcast_only@).take(j + 1));
        j += 1;
    }
    assert(b@ =~= peer_shards(entries@, c.bcast_only@));
    proof {
        assert forall|x: int, y: int| 0 <= x < y < a@.len() implies comes_before(
            #[trigger] a@[x],
            #[trigger] a@[y],
        ) by {
            shards::law_pieces_in_order(sizes, shard_size, x, y);
            assert(shards::plan_pieces(downloads@)[x] == shards::piece(downloads@[x]));
            assert(shards::plan_pieces(downloads@)[y] == shards::piece(downloads@[y]));
            assert(downloads@[x].file_idx < needs.len());
            assert(downloads@[y].file_idx < needs.len());
        }
        assert forall|x: int, y: int| 0 <= x < y < b@.len() implies comes_before(
            #[trigger] b@[x],
            #[trigger] b@[y],
        ) by {
            let all = diff::broadcasts(*presence, presence.num_files as nat);
            assert(all[x] == c.bcast_only@[x].0);
            assert(all[y] == c.bcast_only@[y].0);
        }
        assert forall|x: int, y: int| 0 <= x < a@.len() && 0 <= y < b@.len() implies (
        #[trigger] a@[x]).file_idx != (#[trigger] b@[y]).file_idx by {
            assert(downloads@[x].file_idx < needs.len());
            lemma_classes_differ(*presence, *c, downloads@[x].file_idx as int, y);
        }
    }
    merge(&a, &b)
}

/// What is broadcast is fixed: two orderly lists of the same shards are the same list, so all
/// ranks broadcast the same shards in the same order.
pub proof fn law_order_is_unique(a: Seq<ShardSpec>, b: Seq<ShardSpec>)
    requires
        in_order(a),
        in_order(b),
        a.to_multiset() == b.to_multiset(),
    ensures
        a == b,
    decreases a.len(),
{
    broadcast use vstd::seq_lib::group_to_multiset_ensures;

    assert(a.len() == a.to_multiset().len());
    assert(b.len() == b.to_multiset().len());
    if a.len() > 0 {
        assert(a.to_multiset().contains(a.last())) by {
            assert(a.contains(a.last()));
        }
        assert(b.to_multiset().contains(b.last())) by {
            assert(b.contains(b.last()));
        }
        assert(b.contains(a.last()));
        assert(a.contains(b.last()));
        let i = b.index_of(a.last());
        let j = a.index_of(b.last());
        if i < b.len() - 1 && j < a.len() - 1 {
            assert(comes_before(b[i], b[b.len() - 1]));
            assert(comes_before(a[j], a[a.len() - 1]));
        }
        assert(a.last() == b.last());
        assert(a =~= a.drop_last().push(a.last()));
        assert(b =~= b.drop_last().push(b.last()));
        assert(a.drop_last().to_multiset() =~= a.to_multiset().remove(a.last()));
        assert(b.drop_last().to_multiset() =~= b.to_multiset().remove(b.last()));
        law_order_is_unique(a.drop_last(), b.drop_last());
    } else {
        assert(a =~= b);
    }
}

/// A file has a shard in what is broadcast exactly where some rank lacks it.
pub proof fn law_every_missing_file_is_broadcast(
    p: Presence,
    entries: Seq<BlobItem>,
    c: Classification,
    downloads: Seq<ShardSpec>,
    shard_size: u64,
    plan: Seq<ShardSpec>,
    f: int,
)
    requires
        p.num_files == entries.len(),
        diff::is_classification(p, c),
        shards::plan_pieces(downloads) == shards::all_pieces(
            models::sizes_of(entries_at(entries, c.needs_download@)),
            shard_size,
        ),
        plan.to_multiset() == renumbered(downloads, c.needs_download@).to_multiset().add(
            peer_shards(entries, c.bcast_only@).to_multiset(),
        ),
        0 <= f < p.num_files,
    ensures
        (exists|i: int| 0 <= i < plan.len() && (#[trigger] plan[i]).file_idx == f)
            <==> !(diff::need(p, f) is Nothing),
{
    broadcast use vstd::seq_lib::group_to_multiset_ensures;

    let n = p.num_files as nat;
    let needs = c.needs_download@;
    let sizes = models::sizes_of(entries_at(entries, needs));
    let first = renumbered(downloads, needs);
    let second = peer_shards(entries, c.bcast_only@);
    diff::lemma_class_order(p, n);
    if exists|i: int| 0 <= i < plan.len() && (#[trigger] plan[i]).file_idx == f {
        let i = choose|i: int| 0 <= i < plan.len() && (#[trigger] plan[i]).file_idx == f;
        assert(plan.contains(plan[i]));
        assert(plan.to_multiset().count(plan[i]) > 0);
        if first.to_multiset().count(plan[i]) > 0 {
            assert(first.contains(plan[i]));
            let k = first.index_of(plan[i]);
            assert(first[k].file_idx == needs[downloads[k].file_idx as int]);
            assert(shards::plan_pieces(downloads)[k] == shards::piece(downloads[k]));
            shards::lemma_piece_file(sizes, shard_size, k);
            assert(diff::need(p, diff::downloads(p, n)[downloads[k].file_idx as int] as int)
                is Download);
        } else {
            assert(second.to_multiset().count(plan[i]) > 0);
            assert(second.contains(plan[i]));
            let k = second.index_of(plan[i]);
            assert(diff::broadcasts(p, n)[k] == c.bcast_only@[k].0);
            assert(diff::need(p, diff::broadcasts(p, n)[k] as int) is Broadcast);
        }
    }
    lemma_class_holds(p, n, f);
    if diff::need(p, f) is Download {
        let k = choose|k: int| 0 <= k < needs.len() && #[trigger] needs[k] == f;
        lemma_file_has_piece(sizes, shard_size, k);
        let t = choose|t: int|
            0 <= t < shards::all_pieces(sizes, shard_size).len() && (
            #[trigger] shards::all_pieces(sizes, shard_size)[t]).file_idx == k;
        assert(shards::plan_pieces(downloads)[t] == shards::piece(downloads[t]));
        assert(first[t].file_idx == f);
        assert(first.contains(first[t]));
        assert(first.to_multiset().count(first[t]) > 0);
        lemma_in_sum(plan, first, second, first[t]);
    } else if diff::need(p, f) is Broadcast {
        let all = diff::broadcasts(p, n);
        let k = choose|k: int| 0 <= k < all.len() && #[trigger] all[k] == f;
        assert(all[k] == c.bcast_only@[k].0);
        assert(second[k].file_idx == f);
        assert(second.contains(second[k]));
        assert(second.to_multiset().count(second[k]) > 0);
        lemma_in_sum(plan, first, second, second[k]);
    }
}

proof fn lemma_in_sum(
    plan: Seq<ShardSpec>,
    first: Seq<ShardSpec>,
    second: Seq<ShardSpec>,
    s: ShardSpec,
)
    requires
        plan.to_multiset() == first.to_multiset().add(second.to_multiset()),
        first.to_multiset().count(s) > 0 || second.to_multiset().count(s) > 0,
    ensures
        exists|i: int| 0 <= i < plan.len() && (#[trigger] plan[i]).file_idx == s.file_idx,
{
    broadcast use vstd::seq_lib::group_to_multiset_ensures;

    assert(plan.to_multiset().count(s) > 0);
    assert(plan.contains(s));
    let i = plan.index_of(s);
    assert(plan[i].file_idx == s.file_idx);
}

proof fn lemma_class_holds(p: Presence, n: nat, f: int)
    requires
        n <= usize::MAX,
        0 <= f < n,
    ensures
        diff::need(p, f) is Download ==> exists|k: int|
            0 <= k < diff::downloads(p, n).len() && #[trigger] diff::downloads(p, n)[k] == f,
        diff::need(p, f) is Broadcast ==> exists|k: int|
            0 <= k < diff::broadcasts(p, n).len() && #[trigger] diff::broadcasts(p, n)[k] == f,
    decreases n,
{
    let m = (n - 1) as nat;
    let d = diff::downloads(p, n);
    let b = diff::broadcasts(p, n);
    if f < n - 1 {
        lemma_class_holds(p, m, f);
        if diff::need(p, f) is Download {
            let k = choose|k: int|
                0 <= k < diff::downloads(p, m).len() && #[trigger] diff::downloads(p, m)[k] == f;
            assert(d[k] == f);
        }
        if diff::need(p, f) is Broadcast {
            let k = choose|k: int|
                0 <= k < diff::broadcasts(p, m).len() && #[trigger] diff::broadcasts(p, m)[k]
                    == f;
            assert(b[k] == f);
        }
    } else {
        if diff::need(p, f) is Download {
            assert(d[d.len() - 1] == f);
        }
        if diff::need(p, f) is Broadcast {
            assert(b[b.len() - 1] == f);
        }
    }
}

proof fn lemma_file_has_piece(sizes: Seq<u64>, shard_size: u64, f: int)
    requires
        0 <= f < sizes.len(),
    ensures
        exists|t: int|
            0 <= t < shards::all_pieces(sizes, shard_size).len() && (
            #[trigger] shards::all_pieces(sizes, shard_size)[t]).file_idx == f,
    decreases sizes.len(),
{
    let all = shards::all_pieces(sizes, shard_size);
    let front = shards::all_pieces(sizes.drop_last(), shard_size);
    if f < sizes.len() - 1 {
        lemma_file_has_piece(sizes.drop_last(), shard_size, f);
        let t = choose|t: int| 0 <= t < front.len() && (#[trigger] front[t]).file_idx == f;
        assert(all[t].file_idx == f);
    } else {
        shards::lemma_piece_count(sizes.last(), shard_size);
        assert(all[front.len() as int].file_idx == f);
    }
}

/// A byte range that a rank downloads.
#[derive(Debug)]
pub struct DownloadRange {
    pub blob_name: String,
    /// The path below the destination.
    pub local_path: String,
    pub byte_offset: u64,
    pub byte_len: u64,
}

impl View for DownloadRange {
    type V = (Seq<char>, Seq<char>, u64, u64);

    open spec fn view(&self) -> (Seq<char>, Seq<char>, u64, u64) {
        (self.blob_name@, self.local_path@, self.byte_offset, self.byte_len)
    }
}

/// The byte ranges of the shards that a rank owns, in the order of the plan.
pub open spec fn owned_ranges(
    prefix: Seq<char>,
    entries: Seq<BlobItem>,
    plan: Seq<ShardSpec>,
    rank: int,
) -> Seq<(Seq<char>, Seq<char>, u64, u64)>
    decreases plan.len(),
{
    if plan.len() == 0 {
        Seq::empty()
    } else {
        let front = owned_ranges(prefix, entries, plan.drop_last(), rank);
        let s = plan.last();
        if s.owner_rank == rank {
            let name = entries[s.file_idx as int].name@;
            front.push((name, paths::rel_path(prefix, name), s.byte_offset, s.byte_len))
        } else {
            front
        }
    }
}

/// What a rank downloads.
pub fn my_ranges(
    prefix: &str,
    downloads: &Vec<BlobItem>,
    plan: &Vec<ShardSpec>,
    rank: usize,
) -> (out: Vec<DownloadRange>)
    requires
        forall|i: int|
            0 <= i < plan@.len() ==> (#[trigger] plan@[i]).file_idx < downloads@.len(),
    ensures
        out@.map_values(|r: DownloadRange| r@) == owned_ranges(
            prefix@,
            downloads@,
            plan@,
            rank as int,
        ),
{
    let mut out: Vec<DownloadRange> = Vec::new();
    let mut i: usize = 0;
    assert(out@.map_values(|r: DownloadRange| r@) =~= owned_ranges(
        prefix@,
        downloads@,
        plan@.take(0),
        rank as int,
    ));
    while i < plan.len()
        invariant
            i <= plan@.len(),
            forall|k: int|
                0 <= k < plan@.len() ==> (#[trigger] plan@[k]).file_idx < downloads@.len(),
            out@.map_values(|r: DownloadRange| r@) == owned_ranges(
                prefix@,
                downloads@,
                plan@.take(i as int),
                rank as int,
            ),
        decreases plan@.len() - i,
    {
        let s = &plan[i];
        assert(plan@.take(i + 1).drop_last() =~= plan@.take(i as int));
        if s.owner_rank == rank {
            let name = &downloads[s.file_idx].name;
            let ghost before = out@;
            let r = DownloadRange {
                blob_name: owned(name.as_str()),
                local_path: rel_below(prefix, name.as_str()),
                byte_offset: s.byte_offset,
                byte_len: s.byte_len,
            };
            out.push(r);
            assert(out@.map_values(|r: DownloadRange| r@) =~= before.map_values(
                |r: DownloadRange| r@,
            ).push(r@));
        }
        i += 1;
    }
    assert(plan@.take(plan@.len() as int) =~= plan@);
    out
}

/// The files that a rank has to make before anything is written: those that are broadcast and
/// that it lacks, each once, in order.
pub fn files_to_create(presence: &Presence, plan: &Vec<ShardSpec>, rank: usize) -> (out: Vec<
    usize,
>)
    requires
        presence.wf(),
        rank < presence.world_size,
        in_order(plan@),
        forall|i: int|
            0 <= i < plan@.len() ==> (#[trigger] plan@[i]).file_idx < presence.num_files,
    ensures
        forall|i: int, j: int| 0 <= i < j < out@.len() ==> #[trigger] out@[i] < #[trigger] out@[j],
        forall|f: usize| #[trigger]
            out@.contains(f) <==> is_broadcast(plan@, f as int) && !presence.bit_at(
                rank as int,
                f as int,
            ),
{
    let mut out: Vec<usize> = Vec::new();
    let mut i: usize = 0;
    while i < plan.len()
        invariant
            i <= plan@.len(),
            presence.wf(),
            rank < presence.world_size,
            in_order(plan@),
            forall|k: int|
                0 <= k < plan@.len() ==> (#[trigger] plan@[k]).file_idx < presence.num_files,
            forall|x: int, y: int|
                0 <= x < y < out@.len() ==> #[trigger] out@[x] < #[trigger] out@[y],
            forall|x: int, y: int|
                0 <= x < out@.len() && i <= y < plan@.len() ==> #[trigger] out@[x] <= (
                #[trigger] plan@[y]).file_idx,
            forall|f: usize| #[trigger]
                out@.contains(f) <==> is_broadcast(plan@.take(i as int), f as int)
                    && !presence.bit_at(rank as int, f as int),
        decreases plan@.len() - i,
    {
        let f: usize = plan[i].file_idx;
        let n: usize = out.len();
        let ghost before = out@;
        let ghost done = plan@.take(i as int);
        let ghost next = plan@.take(i + 1);
        let missing = !presence.has(rank, f);
        let known = n > 0 && out[n - 1] == f;
        if missing && !known {
            out.push(f);
        }
        proof {
            assert forall|g: usize| #[trigger] out@.contains(g) <==> is_broadcast(next, g as int)
                && !presence.bit_at(rank as int, g as int) by {
                lemma_broadcast_next(plan@, i as int, g as int);
                assert(before.contains(g) <==> is_broadcast(done, g as int) && !presence.bit_at(
                    rank as int,
                    g as int,
                ));
                if known && g == f {
                    assert(before[n - 1] == g);
                    assert(before.contains(g));
                }
                if missing && !known {
                    if before.contains(g) {
                        let k = before.index_of(g);
                        assert(out@[k] == g);
                    }
                    if out@.contains(g) {
                        let k = out@.index_of(g);
                        if k < before.len() {
                            assert(before[k] == g);
                        }
                    }
                    if g == f {
                        assert(out@[before.len() as int] == g);
                    }
                }
            }
            assert forall|x: int, y: int| 0 <= x < out@.len() && i + 1 <= y < plan@.len() implies (
            #[trigger] out@[x]) <= (#[trigger] plan@[y]).file_idx by {
                assert(comes_before(plan@[i as int], plan@[y]));
            }
            if missing && !known && n > 0 {
                assert(before[n - 1] <= f);
                assert forall|x: int| 0 <= x < n implies (#[trigger] before[x]) < f by {
                    if x < n - 1 {
                        assert(before[x] < before[n - 1]);
                    }
                }
            }
        }
        i += 1;
    }
    assert(plan@.take(plan@.len() as int) =~= plan@);
    out
}

/// Whether a shard of the file is broadcast.
pub open spec fn is_broadcast(plan: Seq<ShardSpec>, f: int) -> bool {
    exists|i: int| 0 <= i < plan.len() && (#[trigger] plan[i]).file_idx == f
}

proof fn lemma_broadcast_next(plan: Seq<ShardSpec>, i: int, f: int)
    requires
        0 <= i < plan.len(),
    ensures
        is_broadcast(plan.take(i + 1), f) <==> is_broadcast(plan.take(i), f) || plan[i].file_idx
            == f,
{
    let a = plan.take(i);
    let b = plan.take(i + 1);
    if is_broadcast(a, f) {
        let k = choose|k: int| 0 <= k < a.len() && (#[trigger] a[k]).file_idx == f;
        assert(b[k].file_idx == f);
    }
    if plan[i].file_idx == f {
        assert(b[i].file_idx == f);
    }
    if is_broadcast(b, f) {
        let k = choose|k: int| 0 <= k < b.len() && (#[trigger] b[k]).file_idx == f;
        if k < i {
            assert(a[k].file_idx == f);
        }
    }
}

/// How many files of a plan there are before place `n`, counting each once.
pub open spec fn file_count(plan: Seq<ShardSpec>, n: nat) -> nat
    decreases n,
{
    if n == 0 {
        0
    } else {
        file_count(plan, (n - 1) as nat) + if n == 1 || plan[n - 2].file_idx != plan[n
            - 1].file_idx {
            1nat
        } else {
            0
        }
    }
}

/// How many files are broadcast. The shards of a file stand together.
pub fn count_files(plan: &Vec<ShardSpec>) -> (out: usize)
    ensures
        out == file_count(plan@, plan@.len()),
{
    let mut out: usize = 0;
    let mut i: usize = 0;
    while i < plan.len()
        invariant
            i <= plan@.len(),
            out <= i,
            out == file_count(plan@, i as nat),
        decreases plan@.len() - i,
    {
        if i == 0 || plan[i - 1].file_idx != plan[i].file_idx {
            out += 1;
        }
        i += 1;
    }
    out
}

/// The lengths of the shards.
pub open spec fn lengths(plan: Seq<ShardSpec>) -> Seq<u64> {
    plan.map_values(|s: ShardSpec| s.byte_len)
}

/// How many bytes are broadcast.
pub fn plan_bytes(plan: &Vec<ShardSpec>) -> (out: u64)
    requires
        engine::sum(lengths(plan@)) <= u64::MAX,
    ensures
        out == engine::sum(lengths(plan@)),
{
    let mut total: u64 = 0;
    let mut i: usize = 0;
    let ghost all = lengths(plan@);
    assert(all.take(0) =~= Seq::<u64>::empty());
    while i < plan.len()
        invariant
            i <= plan@.len(),
            all == lengths(plan@),
            engine::sum(all) <= u64::MAX,
            total == engine::sum(all.take(i as int)),
        decreases plan@.len() - i,
    {
        proof {
            assert(all.take(i + 1).drop_last() =~= all.take(i as int));
            engine::lemma_sum_grows(all, i + 1);
        }
        total = total + plan[i].byte_len;
        i += 1;
    }
    assert(all.take(all.len() as int) =~= all);
    total
}

/// The lengths of the ranges.
pub open spec fn range_lengths(ranges: Seq<DownloadRange>) -> Seq<u64> {
    ranges.map_values(|r: DownloadRange| r.byte_len)
}

/// How many bytes a rank downloads.
pub fn ranges_bytes(ranges: &Vec<DownloadRange>) -> (out: u64)
    requires
        engine::sum(range_lengths(ranges@)) <= u64::MAX,
    ensures
        out == engine::sum(range_lengths(ranges@)),
{
    let mut total: u64 = 0;
    let mut i: usize = 0;
    let ghost all = range_lengths(ranges@);
    assert(all.take(0) =~= Seq::<u64>::empty());
    while i < ranges.len()
        invariant
            i <= ranges@.len(),
            all == range_lengths(ranges@),
            engine::sum(all) <= u64::MAX,
            total == engine::sum(all.take(i as int)),
        decreases ranges@.len() - i,
    {
        proof {
            assert(all.take(i + 1).drop_last() =~= all.take(i as int));
            engine::lemma_sum_grows(all, i + 1);
        }
        total = total + ranges[i].byte_len;
        i += 1;
    }
    assert(all.take(all.len() as int) =~= all);
    total
}

/// A file has a shard in what is broadcast exactly where some rank does not have it, by the bits
/// that the ranks gathered.
pub proof fn law_a_file_is_broadcast_where_a_rank_lacks_it(
    p: Presence,
    entries: Seq<BlobItem>,
    c: Classification,
    downloads: Seq<ShardSpec>,
    shard_size: u64,
    plan: Seq<ShardSpec>,
    f: int,
)
    requires
        p.num_files == entries.len(),
        p.world_size > 0,
        diff::is_classification(p, c),
        shards::plan_pieces(downloads) == shards::all_pieces(
            models::sizes_of(entries_at(entries, c.needs_download@)),
            shard_size,
        ),
        plan.to_multiset() == renumbered(downloads, c.needs_download@).to_multiset().add(
            peer_shards(entries, c.bcast_only@).to_multiset(),
        ),
        0 <= f < p.num_files,
    ensures
        (exists|i: int| 0 <= i < plan.len() && (#[trigger] plan[i]).file_idx == f) <==> exists|
            r: int,
        |
            0 <= r < p.world_size && !#[trigger] p.bit_at(r, f),
{
    law_every_missing_file_is_broadcast(p, entries, c, downloads, shard_size, plan, f);
    diff::law_files_are_classed_by_who_has_them(p, c, f);
    diff::lemma_in_class(p, p.num_files as nat, f);
    let b = diff::broadcasts(p, p.num_files as nat);
    if diff::need(p, f) is Broadcast {
        let i = b.index_of(f as usize);
        assert(c.bcast_only@[i].0 == b[i]);
    }
    if exists|i: int| 0 <= i < c.bcast_only@.len() && (#[trigger] c.bcast_only@[i]).0 == f {
        let i = choose|i: int| 0 <= i < c.bcast_only@.len() && (#[trigger] c.bcast_only@[i]).0 == f;
        assert(b[i] == c.bcast_only@[i].0);
        assert(b.contains(f as usize));
    }
}

/// Of the bytes that are broadcast of a file: each byte of a file that some rank lacks is in a
/// shard, and the owner of the shard is a rank that has the file, or one that downloads these
/// bytes.
pub proof fn law_every_missing_byte_is_broadcast(
    p: Presence,
    entries: Seq<BlobItem>,
    c: Classification,
    downloads: Seq<ShardSpec>,
    count: int,
    shard_size: u64,
    plan: Seq<ShardSpec>,
    f: int,
    x: int,
)
    requires
        p.num_files == entries.len(),
        p.world_size > 0,
        diff::is_classification(p, c),
        shards::is_plan(
            models::sizes_of(entries_at(entries, c.needs_download@)),
            count,
            shard_size,
            downloads,
        ),
        plan.to_multiset() == renumbered(downloads, c.needs_download@).to_multiset().add(
            peer_shards(entries, c.bcast_only@).to_multiset(),
        ),
        0 <= f < p.num_files,
        exists|r: int| 0 <= r < p.world_size && !#[trigger] p.bit_at(r, f),
        0 <= x < models::size_of(entries[f]),
    ensures
        exists|i: int|
            0 <= i < plan.len() && (#[trigger] plan[i]).file_idx == f && plan[i].byte_offset <= x
                < plan[i].byte_offset + plan[i].byte_len && (p.bit_at(
                plan[i].owner_rank as int,
                f,
            ) && plan[i].owner_rank < p.world_size || exists|k: int|
                0 <= k < downloads.len() && c.needs_download@[(
                #[trigger] downloads[k]).file_idx as int] == f && downloads[k].owner_rank
                    == plan[i].owner_rank && downloads[k].byte_offset == plan[i].byte_offset
                    && downloads[k].byte_len == plan[i].byte_len),
{
    broadcast use vstd::seq_lib::group_to_multiset_ensures;

    let needs = c.needs_download@;
    let sizes = models::sizes_of(entries_at(entries, needs));
    let first = renumbered(downloads, needs);
    let second = peer_shards(entries, c.bcast_only@);
    diff::law_files_are_classed_by_who_has_them(p, c, f);
    if needs.contains(f as usize) {
        let k = needs.index_of(f as usize);
        assert(sizes[k] == models::size_of(entries[f]));
        shards::law_every_byte_is_in_one_range(sizes, count, shard_size, downloads, k, x);
        let t = choose|t: int|
            0 <= t < downloads.len() && (#[trigger] downloads[t]).file_idx == k
                && downloads[t].byte_offset <= x < downloads[t].byte_offset
                + downloads[t].byte_len;
        assert(first[t].file_idx == f);
        assert(first.contains(first[t]));
        assert(plan.to_multiset().count(first[t]) > 0);
        assert(plan.contains(first[t]));
        let i = plan.index_of(first[t]);
        assert(plan[i] == first[t]);
        assert(needs[downloads[t].file_idx as int] == f);
    } else {
        let k = choose|k: int| 0 <= k < c.bcast_only@.len() && (#[trigger] c.bcast_only@[k]).0 == f;
        assert(second[k].file_idx == f);
        assert(second.contains(second[k]));
        assert(plan.to_multiset().count(second[k]) > 0);
        assert(plan.contains(second[k]));
        let i = plan.index_of(second[k]);
        assert(plan[i] == second[k]);
    }
}

/// What is downloaded of a shard.
spec fn range_of_shard(prefix: Seq<char>, entries: Seq<BlobItem>, s: ShardSpec) -> (
    Seq<char>,
    Seq<char>,
    u64,
    u64,
) {
    (
        entries[s.file_idx as int].name@,
        paths::rel_path(prefix, entries[s.file_idx as int].name@),
        s.byte_offset,
        s.byte_len,
    )
}

proof fn lemma_owned_ranges(
    prefix: Seq<char>,
    entries: Seq<BlobItem>,
    plan: Seq<ShardSpec>,
    rank: int,
)
    ensures
        owned_ranges(prefix, entries, plan, rank) == plan.filter(
            |s: ShardSpec| s.owner_rank == rank,
        ).map_values(|s: ShardSpec| range_of_shard(prefix, entries, s)),
    decreases plan.len(),
{
    reveal(Seq::filter);
    let p = |s: ShardSpec| s.owner_rank == rank;
    let f = |s: ShardSpec| range_of_shard(prefix, entries, s);
    if plan.len() > 0 {
        lemma_owned_ranges(prefix, entries, plan.drop_last(), rank);
        let front = plan.drop_last().filter(p);
        assert(front.push(plan.last()).map_values(f) =~= front.map_values(f).push(f(plan.last())));
    }
    assert(owned_ranges(prefix, entries, plan, rank) =~= plan.filter(p).map_values(f));
}

/// A rank downloads exactly the shards that it owns: for each of them the file of the shard, at
/// the offset and with the length of the shard, and nothing else.
pub proof fn law_a_rank_downloads_its_shards(
    prefix: Seq<char>,
    entries: Seq<BlobItem>,
    plan: Seq<ShardSpec>,
    rank: int,
    ranges: Seq<(Seq<char>, Seq<char>, u64, u64)>,
)
    requires
        ranges == owned_ranges(prefix, entries, plan, rank),
    ensures
        ranges == plan.filter(|s: ShardSpec| s.owner_rank == rank).map_values(
            |s: ShardSpec|
                (
                    entries[s.file_idx as int].name@,
                    paths::rel_path(prefix, entries[s.file_idx as int].name@),
                    s.byte_offset,
                    s.byte_len,
                ),
        ),
        forall|i: int|
            0 <= i < plan.len() && (#[trigger] plan[i]).owner_rank == rank ==> ranges.contains(
                (
                    entries[plan[i].file_idx as int].name@,
                    paths::rel_path(prefix, entries[plan[i].file_idx as int].name@),
                    plan[i].byte_offset,
                    plan[i].byte_len,
                ),
            ),
{
    let p = |s: ShardSpec| s.owner_rank == rank;
    let mine = plan.filter(p);
    lemma_owned_ranges(prefix, entries, plan, rank);
    assert(ranges =~= mine.map_values(
        |s: ShardSpec|
            (
                entries[s.file_idx as int].name@,
                paths::rel_path(prefix, entries[s.file_idx as int].name@),
                s.byte_offset,
                s.byte_len,
            ),
    ));
    assert forall|i: int|
        0 <= i < plan.len() && (#[trigger] plan[i]).owner_rank == rank implies ranges.contains(
        (
            entries[plan[i].file_idx as int].name@,
            paths::rel_path(prefix, entries[plan[i].file_idx as int].name@),
            plan[i].byte_offset,
            plan[i].byte_len,
        ),
    ) by {
        plan.lemma_filter_contains(p, i);
        let j = mine.index_of(plan[i]);
        assert(ranges[j] == range_of_shard(prefix, entries, mine[j]));
    }
}

/// Nothing is left out and nothing is fetched twice: every byte of every file is in the range of
/// some rank, and of the shards of the plan only one holds it.
pub proof fn law_every_byte_is_downloaded(
    prefix: Seq<char>,
    entries: Seq<BlobItem>,
    count: int,
    shard_size: u64,
    plan: Seq<ShardSpec>,
    f: int,
    x: int,
)
    requires
        shards::is_plan(models::sizes_of(entries), count, shard_size, plan),
        count > 0,
        0 <= f < entries.len(),
        entries[f].properties is Some,
        entries[f].properties->0.content_length is Some,
        0 <= x < entries[f].properties->0.content_length->0,
    ensures
        exists|rank: int, j: int|
            0 <= rank < count && 0 <= j < owned_ranges(prefix, entries, plan, rank).len() && (
            #[trigger] owned_ranges(prefix, entries, plan, rank)[j]).0 == entries[f].name@
                && owned_ranges(prefix, entries, plan, rank)[j].2 <= x < owned_ranges(
                prefix,
                entries,
                plan,
                rank,
            )[j].2 + owned_ranges(prefix, entries, plan, rank)[j].3,
        forall|i: int, k: int|
            0 <= i < plan.len() && 0 <= k < plan.len() && (#[trigger] plan[i]).file_idx == f && (
            #[trigger] plan[k]).file_idx == f && plan[i].byte_offset <= x < plan[i].byte_offset
                + plan[i].byte_len && plan[k].byte_offset <= x < plan[k].byte_offset
                + plan[k].byte_len ==> i == k,
{
    let sizes = models::sizes_of(entries);
    assert(sizes[f] == entries[f].properties->0.content_length->0);
    shards::law_every_byte_is_in_one_range(sizes, count, shard_size, plan, f, x);
    shards::law_owners_are_ranks(sizes, count, shard_size, plan);
    let i = choose|i: int|
        0 <= i < plan.len() && (#[trigger] plan[i]).file_idx == f && plan[i].byte_offset <= x
            < plan[i].byte_offset + plan[i].byte_len;
    let rank = plan[i].owner_rank as int;
    let ranges = owned_ranges(prefix, entries, plan, rank);
    law_a_rank_downloads_its_shards(prefix, entries, plan, rank, ranges);
    let r = (
        entries[plan[i].file_idx as int].name@,
        paths::rel_path(prefix, entries[plan[i].file_idx as int].name@),
        plan[i].byte_offset,
        plan[i].byte_len,
    );
    assert(ranges.contains(r));
    let j = ranges.index_of(r);
    assert(owned_ranges(prefix, entries, plan, rank)[j] == r);
}

/// The ranks share the bandwidth evenly: together they leave less than a byte a second for each.
pub proof fn law_shares_are_even(bw: u64, download_ranks: usize)
    requires
        bw >= download_ranks,
        download_ranks > 0,
    ensures
        bw < (share_of(bw, download_ranks) + 1) * download_ranks,
{
    let n = download_ranks as int;
    let q = bw as int / n;
    vstd::arithmetic::div_mod::lemma_fundamental_div_mod(bw as int, n);
    vstd::arithmetic::div_mod::lemma_mod_bound(bw as int, n);
    assert((q + 1) * n == n * q + n) by (nonlinear_arith);
    assert((share_of(bw, download_ranks) + 1) * n >= (q + 1) * n) by (nonlinear_arith)
        requires
            share_of(bw, download_ranks) >= q,
            n > 0,
    ;
}

/// Every file of an orderly plan is counted once, however many shards it has.
pub proof fn law_files_are_counted_once(plan: Seq<ShardSpec>)
    requires
        in_order(plan),
    ensures
        file_count(plan, plan.len()) == plan.map_values(|s: ShardSpec| s.file_idx).to_set().len(),
    decreases plan.len(),
{
    let files = plan.map_values(|s: ShardSpec| s.file_idx);
    if plan.len() == 0 {
        assert(files.to_set() =~= Set::<usize>::empty());
    } else {
        let front = plan.drop_last();
        let before = front.map_values(|s: ShardSpec| s.file_idx);
        let last = plan.last().file_idx;
        assert forall|i: int, j: int| 0 <= i < j < front.len() implies comes_before(
            #[trigger] front[i],
            #[trigger] front[j],
        ) by {
            assert(comes_before(plan[i], plan[j]));
        }
        law_files_are_counted_once(front);
        lemma_file_count_prefix(plan, front, front.len());
        assert(files.drop_last() =~= before);
        assert(files =~= before.push(last));
        assert(files.to_set() =~= before.to_set().insert(last)) by {
            assert forall|x: usize| files.contains(x) <==> before.contains(x) || x == last by {
                if before.contains(x) {
                    let k = before.index_of(x);
                    assert(files[k] == x);
                }
                if x == last {
                    assert(files[plan.len() - 1] == x);
                }
                if files.contains(x) {
                    let k = files.index_of(x);
                    if k < before.len() {
                        assert(before[k] == x);
                    }
                }
            }
        }
        vstd::seq_lib::seq_to_set_is_finite(before);
        if before.contains(last) {
            let k = before.index_of(last);
            let m = plan.len() - 2;
            assert(plan[k].file_idx == last);
            if k < m {
                assert(comes_before(plan[k], plan[m]));
            }
            assert(comes_before(plan[m], plan[m + 1]));
            assert(plan[m].file_idx == last);
            assert(before.to_set().contains(last));
            assert(before.to_set().insert(last) =~= before.to_set());
        } else if front.len() > 0 {
            assert(before[front.len() - 1] == plan[plan.len() - 2].file_idx);
            assert(plan[plan.len() - 2].file_idx != last);
        }
    }
}

proof fn lemma_file_count_prefix(a: Seq<ShardSpec>, b: Seq<ShardSpec>, n: nat)
    requires
        n <= a.len(),
        n <= b.len(),
        forall|i: int| 0 <= i < n ==> #[trigger] a[i] == b[i],
    ensures
        file_count(a, n) == file_count(b, n),
    decreases n,
{
    if n > 0 {
        lemma_file_count_prefix(a, b, (n - 1) as nat);
        assert(a[n - 1] == b[n - 1]);
        if n > 1 {
            assert(a[n - 2] == b[n - 2]);
        }
    }
}

/// The shard size of a run is the one that is given; else, where a number of shards is given, one
/// that splits no file into more of them; else files are not split.
pub proof fn law_shard_size_is_as_asked(args: Args, sizes: Seq<u64>, shard_size: u64, f: int)
    requires
        shard_size == shard_size_of(args, sizes),
        0 <= f < sizes.len(),
        args.bcast_chunk > 0,
        args.file_shards matches Some(n) ==> n >= 1,
    ensures
        args.shard_size > 0 ==> shard_size == args.shard_size,
        args.shard_size == 0 && args.file_shards is None ==> shard_size == 0,
        args.shard_size == 0 && args.file_shards is Some ==> shard_size as int
            % args.bcast_chunk as int == 0 && shards::piece_count(sizes[f], shard_size)
            <= args.file_shards->0,
{
    match args.file_shards {
        Some(n) => {
            if args.shard_size == 0 {
                shards::law_derived_shard_size_is_aligned(
                    sizes,
                    n as int,
                    args.bcast_chunk as int,
                );
                shards::law_derived_shard_size_splits_enough(
                    sizes,
                    n as int,
                    args.bcast_chunk as int,
                    shard_size,
                    f,
                );
            }
        },
        None => {},
    }
}

/// Shards that are renumbered stay what they are but for the number of their file, and a file
/// that a rank has is one shard as long as the file.
pub proof fn law_renumbered_shards_stay_what_they_are(
    downloads: Seq<ShardSpec>,
    needs_download: Seq<usize>,
    entries: Seq<BlobItem>,
    bcast_only: Seq<(usize, usize)>,
    i: int,
)
    ensures
        renumbered(downloads, needs_download).len() == downloads.len(),
        0 <= i < downloads.len() ==> ({
            let s = renumbered(downloads, needs_download)[i];
            &&& s.file_idx == needs_download[downloads[i].file_idx as int]
            &&& s.shard_idx == downloads[i].shard_idx
            &&& s.byte_offset == downloads[i].byte_offset
            &&& s.byte_len == downloads[i].byte_len
            &&& s.owner_rank == downloads[i].owner_rank
        }),
        peer_shards(entries, bcast_only).len() == bcast_only.len(),
        0 <= i < bcast_only.len() ==> ({
            let s = peer_shards(entries, bcast_only)[i];
            &&& s.file_idx == bcast_only[i].0
            &&& s.owner_rank == bcast_only[i].1
            &&& s.shard_idx == 0
            &&& s.byte_offset == 0
            &&& entries[s.file_idx as int].properties matches Some(p) ==> (
            p.content_length matches Some(n) ==> s.byte_len == n)
        }),
{
}

/// Shards that stand in order go file by file, and through each file from its front to its end.
pub proof fn law_order_goes_file_by_file(plan: Seq<ShardSpec>, i: int, j: int)
    requires
        in_order(plan),
        0 <= i < j < plan.len(),
    ensures
        plan[i].file_idx <= plan[j].file_idx,
        plan[i].file_idx == plan[j].file_idx ==> plan[i].shard_idx < plan[j].shard_idx,
{
    assert(comes_before(plan[i], plan[j]));
}

/// The blobs at places of a listing are those that stand there.
pub proof fn law_entries_stand_at_their_places(entries: Seq<BlobItem>, at: Seq<usize>, i: int)
    requires
        0 <= i < at.len(),
    ensures
        entries_at(entries, at).len() == at.len(),
        entries_at(entries, at)[i] == entries[at[i] as int],
{
}

} // verus!
