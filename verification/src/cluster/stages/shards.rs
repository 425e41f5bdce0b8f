//! The range-shard plan: every file is split into one or more byte ranges, and each range has
//! one owner rank, which downloads it and broadcasts it to the rest of the cluster.
//!
//! A shard size of 0 gives one shard per file. Owners come from the same LPT bin packing as the
//! partition of a single-host run, so every rank computes the same plan from the same listing.

use crate::engine;
use crate::engine::lpt;
use crate::engine::lpt::{lpt_owners, Weight};
use crate::storage::blob::models;
use crate::storage::blob::models::{item_size, BlobItem};
use vstd::prelude::*;

verus! {

/// One byte range of a file, with its owner rank.
#[derive(Debug, PartialEq, Eq)]
pub struct ShardSpec {
    /// The position of the file in the listing.
    pub file_idx: usize,
    /// The position of the range in its file. Every file has a range 0.
    pub shard_idx: usize,
    /// Where the range begins in its file.
    pub byte_offset: u64,
    /// How long the range is: 0 for the range of an empty file.
    pub byte_len: u64,
    /// The rank that downloads the range and broadcasts it.
    pub owner_rank: usize,
}

impl Clone for ShardSpec {
    fn clone(&self) -> (out: Self)
        ensures
            out == *self,
    {
        ShardSpec {
            file_idx: self.file_idx,
            shard_idx: self.shard_idx,
            byte_offset: self.byte_offset,
            byte_len: self.byte_len,
            owner_rank: self.owner_rank,
        }
    }
}

/// A byte range of a file.
pub struct Piece {
    pub file_idx: int,
    pub shard_idx: int,
    pub byte_offset: int,
    pub byte_len: int,
}

/// The least integer not below `a / b`.
pub open spec fn ceil_div(a: int, b: int) -> int {
    (a + b - 1) / b
}

/// How many ranges a file of `size` bytes has.
pub open spec fn piece_count(size: u64, shard_size: u64) -> int {
    if shard_size == 0 || size <= shard_size {
        1
    } else {
        ceil_div(size as int, shard_size as int)
    }
}

/// Range `j` of file `f`.
pub open spec fn piece_of(f: int, size: u64, shard_size: u64, j: int) -> Piece {
    let from = j * shard_size;
    Piece {
        file_idx: f,
        shard_idx: j,
        byte_offset: from,
        byte_len: if shard_size == 0 || size - from <= shard_size {
            size - from
        } else {
            shard_size as int
        },
    }
}

/// The ranges of file `f`.
pub open spec fn file_pieces(f: int, size: u64, shard_size: u64) -> Seq<Piece> {
    Seq::new(piece_count(size, shard_size) as nat, |j: int| piece_of(f, size, shard_size, j))
}

/// The ranges of all files, file by file.
pub open spec fn all_pieces(sizes: Seq<u64>, shard_size: u64) -> Seq<Piece>
    decreases sizes.len(),
{
    if sizes.len() == 0 {
        Seq::empty()
    } else {
        all_pieces(sizes.drop_last(), shard_size) + file_pieces(
            sizes.len() - 1,
            sizes.last(),
            shard_size,
        )
    }
}

/// The range of a shard.
pub open spec fn piece(s: ShardSpec) -> Piece {
    Piece {
        file_idx: s.file_idx as int,
        shard_idx: s.shard_idx as int,
        byte_offset: s.byte_offset as int,
        byte_len: s.byte_len as int,
    }
}

/// The ranges of a plan.
pub open spec fn plan_pieces(plan: Seq<ShardSpec>) -> Seq<Piece> {
    plan.map_values(|s: ShardSpec| piece(s))
}

/// The owners of a plan.
pub open spec fn plan_owners(plan: Seq<ShardSpec>) -> Seq<usize> {
    plan.map_values(|s: ShardSpec| s.owner_rank)
}

/// The keys by which the ranges are assigned: their lengths, ties broken by position.
pub open spec fn piece_keys(pieces: Seq<Piece>) -> Seq<(u64, Seq<char>)> {
    pieces.map_values(|p: Piece| (p.byte_len as u64, Seq::<char>::empty()))
}

/// Whether `plan` splits files of these sizes as asked and assigns the ranges to `count` ranks.
pub open spec fn is_plan(
    sizes: Seq<u64>,
    count: int,
    shard_size: u64,
    plan: Seq<ShardSpec>,
) -> bool {
    &&& plan_pieces(plan) == all_pieces(sizes, shard_size)
    &&& if count <= 1 {
        forall|i: int| 0 <= i < plan.len() ==> (#[trigger] plan[i]).owner_rank == 0
    } else {
        lpt::is_lpt(piece_keys(plan_pieces(plan)), count, plan_owners(plan))
    }
}

/// The largest of the sizes, 0 where there is none.
pub open spec fn largest(sizes: Seq<u64>) -> u64
    decreases sizes.len(),
{
    if sizes.len() == 0 {
        0
    } else if sizes.last() >= largest(sizes.drop_last()) {
        sizes.last()
    } else {
        largest(sizes.drop_last())
    }
}

/// The shard size that splits the largest file into about `file_shards` pieces: its share,
/// rounded up to a multiple of `bcast_chunk`. 0 where there is nothing to split.
pub open spec fn derived_shard_size(sizes: Seq<u64>, file_shards: int, bcast_chunk: int) -> int {
    if largest(sizes) == 0 {
        0
    } else {
        ceil_div(ceil_div(largest(sizes) as int, file_shards), bcast_chunk) * bcast_chunk
    }
}

proof fn lemma_ceil(a: int, b: int)
    requires
        a > 0,
        b > 0,
    ensures
        ceil_div(a, b) >= 1,
        ceil_div(a, b) <= a,
        (ceil_div(a, b) - 1) * b < a,
        a <= ceil_div(a, b) * b,
{
    let q = ceil_div(a, b);
    vstd::arithmetic::div_mod::lemma_fundamental_div_mod(a + b - 1, b);
    let r = (a + b - 1) % b;
    vstd::arithmetic::div_mod::lemma_mod_bound(a + b - 1, b);
    assert(a + b - 1 == b * q + r);
    assert((q - 1) * b == b * q - b) by (nonlinear_arith);
    assert(q * b == b * q) by (nonlinear_arith);
    if q < 1 {
        assert(b * q <= 0) by (nonlinear_arith)
            requires
                q < 1,
                b > 0,
        ;
    }
    if q > a {
        assert((q - 1) * b >= q - 1) by (nonlinear_arith)
            requires
                q >= 1,
                b >= 1,
        ;
    }
}

/// The least integer not below `a / b`.
fn div_up(a: u64, b: u64) -> (out: u64)
    requires
        a > 0,
        b > 0,
    ensures
        out == ceil_div(a as int, b as int),
{
    let q = a / b;
    let r = a % b;
    proof {
        lemma_ceil(a as int, b as int);
        vstd::arithmetic::div_mod::lemma_fundamental_div_mod(a as int, b as int);
        let c = ceil_div(a as int, b as int);
        assert(b * q == q * b) by (nonlinear_arith);
        assert((q + 1) * b == q * b + b) by (nonlinear_arith);
        if r > 0 {
            if c <= q {
                assert(c * b <= q * b) by (nonlinear_arith)
                    requires
                        c <= q,
                        b > 0,
                ;
            }
            if c >= q + 2 {
                assert((c - 1) * b >= (q + 1) * b) by (nonlinear_arith)
                    requires
                        c - 1 >= q + 1,
                        b > 0,
                ;
            }
        } else {
            if c < q {
                assert(c * b < q * b) by (nonlinear_arith)
                    requires
                        c < q,
                        b > 0,
                ;
            }
            if c > q {
                assert((c - 1) * b >= q * b) by (nonlinear_arith)
                    requires
                        c - 1 >= q,
                        b > 0,
                ;
            }
        }
    }
    if r > 0 {
        q + 1
    } else {
        q
    }
}

/// Derives the shard size from a wanted number of pieces of the largest file. It is a multiple
/// of `bcast_chunk`, so the alignment of direct writes holds.
pub fn compute_shard_size_from_file_shards(
    entries: &[BlobItem],
    file_shards: usize,
    bcast_chunk: u64,
) -> (out: u64)
    requires
        file_shards >= 1,
        bcast_chunk > 0,
        derived_shard_size(models::sizes_of(entries@), file_shards as int, bcast_chunk as int) <= u64::MAX,
    ensures
        out == derived_shard_size(models::sizes_of(entries@), file_shards as int, bcast_chunk as int),
{
    let mut max_size: u64 = 0;
    let mut i: usize = 0;
    let ghost sizes = models::sizes_of(entries@);
    while i < entries.len()
        invariant
            i <= entries@.len(),
            sizes == models::sizes_of(entries@),
            max_size == largest(sizes.take(i as int)),
        decreases entries@.len() - i,
    {
        let size = item_size(&entries[i]);
        assert(sizes.take(i + 1).drop_last() == sizes.take(i as int));
        if size > max_size {
            max_size = size;
        }
        i += 1;
    }
    assert(sizes.take(sizes.len() as int) == sizes);
    if max_size == 0 {
        return 0;
    }
    let raw = div_up(max_size, file_shards as u64);
    proof {
        lemma_ceil(max_size as int, file_shards as int);
    }
    let units = div_up(raw, bcast_chunk);
    units * bcast_chunk
}

/// A derived shard size is a multiple of the broadcast chunk.
pub proof fn law_derived_shard_size_is_aligned(sizes: Seq<u64>, file_shards: int, bcast_chunk: int)
    requires
        file_shards >= 1,
        bcast_chunk > 0,
    ensures
        derived_shard_size(sizes, file_shards, bcast_chunk) % bcast_chunk == 0,
{
    if largest(sizes) != 0 {
        let n = ceil_div(ceil_div(largest(sizes) as int, file_shards), bcast_chunk);
        vstd::arithmetic::div_mod::lemma_mod_multiples_basic(n, bcast_chunk);
    } else {
        vstd::arithmetic::div_mod::lemma_small_mod(0, bcast_chunk as nat);
    }
}

/// A derived shard size splits no file into more than the wanted number of pieces.
pub proof fn law_derived_shard_size_splits_enough(
    sizes: Seq<u64>,
    file_shards: int,
    bcast_chunk: int,
    shard_size: u64,
    f: int,
)
    requires
        file_shards >= 1,
        bcast_chunk > 0,
        0 <= f < sizes.len(),
        shard_size == derived_shard_size(sizes, file_shards, bcast_chunk),
    ensures
        1 <= piece_count(sizes[f], shard_size) <= file_shards,
{
    lemma_largest(sizes, f);
    let size = sizes[f] as int;
    let m = largest(sizes) as int;
    if shard_size != 0 && size > shard_size {
        lemma_ceil(m, file_shards);
        let share = ceil_div(m, file_shards);
        lemma_ceil(share, bcast_chunk);
        assert(share <= shard_size);
        lemma_ceil(size, shard_size as int);
        let c = ceil_div(size, shard_size as int);
        if c > file_shards {
            assert((c - 1) * shard_size >= file_shards * share) by (nonlinear_arith)
                requires
                    c - 1 >= file_shards,
                    shard_size >= share,
                    share >= 1,
                    file_shards >= 1,
            ;
            assert(share * file_shards == file_shards * share) by (nonlinear_arith);
        }
    }
}

proof fn lemma_largest(sizes: Seq<u64>, f: int)
    requires
        0 <= f < sizes.len(),
    ensures
        sizes[f] <= largest(sizes),
    decreases sizes.len(),
{
    if f < sizes.len() - 1 {
        lemma_largest(sizes.drop_last(), f);
    }
}

/// Every file has a range.
pub proof fn lemma_piece_count(size: u64, shard_size: u64)
    ensures
        piece_count(size, shard_size) >= 1,
{
    if shard_size != 0 && size > shard_size {
        lemma_ceil(size as int, shard_size as int);
    }
}

/// Where a range of a file begins, and whether more than a shard is left there.
pub proof fn lemma_piece_bounds(size: u64, shard_size: u64, j: int)
    requires
        0 <= j < piece_count(size, shard_size),
    ensures
        0 <= j * shard_size <= size,
        size > 0 ==> j * shard_size < size,
        j + 1 < piece_count(size, shard_size) ==> size - j * shard_size > shard_size && shard_size
            > 0,
        j + 1 == piece_count(size, shard_size) ==> shard_size == 0 || size - j * shard_size
            <= shard_size,
{
    if shard_size == 0 || size <= shard_size {
        assert(j == 0);
    } else {
        lemma_ceil(size as int, shard_size as int);
        let n = piece_count(size, shard_size);
        assert(j * shard_size <= (n - 1) * shard_size) by (nonlinear_arith)
            requires
                0 <= j <= n - 1,
                shard_size > 0,
        ;
        assert(j * shard_size >= 0) by (nonlinear_arith)
            requires
                0 <= j,
                shard_size > 0,
        ;
        if j + 1 < n {
            assert((j + 1) * shard_size <= (n - 1) * shard_size) by (nonlinear_arith)
                requires
                    0 <= j + 1 <= n - 1,
                    shard_size > 0,
            ;
            assert((j + 1) * shard_size == j * shard_size + shard_size) by (nonlinear_arith);
        } else {
            assert(n * shard_size == j * shard_size + shard_size) by (nonlinear_arith)
                requires
                    n == j + 1,
            ;
        }
    }
}

/// The ranges of a file are adjacent and cover it: the first begins at 0, each next one begins
/// where the one before ends, and the last ends at the end of the file.
pub proof fn law_pieces_cover_file(f: int, size: u64, shard_size: u64, j: int)
    requires
        0 <= j < piece_count(size, shard_size),
    ensures
        piece_count(size, shard_size) >= 1,
        piece_of(f, size, shard_size, 0).byte_offset == 0,
        piece_of(f, size, shard_size, j).byte_offset + piece_of(f, size, shard_size, j).byte_len
            == if j + 1 < piece_count(size, shard_size) {
            piece_of(f, size, shard_size, j + 1).byte_offset
        } else {
            size as int
        },
{
    lemma_piece_bounds(size, shard_size, j);
    assert((j + 1) * shard_size == j * shard_size + shard_size) by (nonlinear_arith);
}

/// No range is longer than the shard size, and only an empty file has an empty range.
pub proof fn law_piece_lengths(f: int, size: u64, shard_size: u64, j: int)
    requires
        0 <= j < piece_count(size, shard_size),
    ensures
        shard_size > 0 ==> piece_of(f, size, shard_size, j).byte_len <= shard_size,
        size > 0 ==> piece_of(f, size, shard_size, j).byte_len > 0,
        size == 0 ==> piece_of(f, size, shard_size, j).byte_len == 0,
{
    lemma_piece_bounds(size, shard_size, j);
}

/// A plan lists the files in order and the ranges of each file in order.
pub proof fn law_pieces_in_order(sizes: Seq<u64>, shard_size: u64, a: int, b: int)
    requires
        0 <= a < b < all_pieces(sizes, shard_size).len(),
    ensures
        ({
            let p = all_pieces(sizes, shard_size)[a];
            let q = all_pieces(sizes, shard_size)[b];
            p.file_idx < q.file_idx || p.file_idx == q.file_idx && p.shard_idx < q.shard_idx
        }),
    decreases sizes.len(),
{
    if sizes.len() > 0 {
        let front = all_pieces(sizes.drop_last(), shard_size);
        if b < front.len() {
            law_pieces_in_order(sizes.drop_last(), shard_size, a, b);
        } else if a < front.len() {
            lemma_piece_file(sizes.drop_last(), shard_size, a);
        }
    }
}

/// Each range of a plan belongs to a file of the listing and is one of its ranges.
pub proof fn lemma_piece_file(sizes: Seq<u64>, shard_size: u64, i: int)
    requires
        0 <= i < all_pieces(sizes, shard_size).len(),
    ensures
        ({
            let p = all_pieces(sizes, shard_size)[i];
            &&& 0 <= p.file_idx < sizes.len()
            &&& 0 <= p.shard_idx < piece_count(sizes[p.file_idx], shard_size)
            &&& p == piece_of(p.file_idx, sizes[p.file_idx], shard_size, p.shard_idx)
            &&& 0 <= p.byte_len <= u64::MAX
        }),
    decreases sizes.len(),
{
    if sizes.len() > 0 {
        let front = all_pieces(sizes.drop_last(), shard_size);
        if i < front.len() {
            lemma_piece_file(sizes.drop_last(), shard_size, i);
        } else {
            lemma_piece_bounds(sizes.last(), shard_size, i - front.len());
        }
    }
}

proof fn lemma_pieces_grow(sizes: Seq<u64>, shard_size: u64, n: int)
    requires
        0 <= n <= sizes.len(),
    ensures
        all_pieces(sizes.take(n), shard_size).len() <= all_pieces(sizes, shard_size).len(),
        n < sizes.len() ==> all_pieces(sizes.take(n + 1), shard_size) == all_pieces(
            sizes.take(n),
            shard_size,
        ) + file_pieces(n, sizes[n], shard_size),
    decreases sizes.len(),
{
    if n < sizes.len() {
        assert(sizes.take(n + 1).drop_last() == sizes.take(n));
        lemma_pieces_grow(sizes.drop_last(), shard_size, n);
        assert(sizes.drop_last().take(n) == sizes.take(n));
    } else {
        assert(sizes.take(n) == sizes);
    }
}

/// Splits the files into ranges and assigns each range to one of `count` ranks.
///
/// With a shard size of 0 each file is one range. With one rank, or none, rank 0 owns them all.
pub fn compute_shards(entries: &[BlobItem], count: usize, shard_size: u64) -> (plan: Vec<ShardSpec>)
    requires
        all_pieces(models::sizes_of(entries@), shard_size).len() <= usize::MAX,
    ensures
        is_plan(models::sizes_of(entries@), count as int, shard_size, plan@),
{
    let mut shards: Vec<ShardSpec> = Vec::new();
    let ghost sizes = models::sizes_of(entries@);
    let mut file_idx: usize = 0;
    while file_idx < entries.len()
        invariant
            file_idx <= entries@.len(),
            sizes == models::sizes_of(entries@),
            all_pieces(sizes, shard_size).len() <= usize::MAX,
            plan_pieces(shards@) == all_pieces(sizes.take(file_idx as int), shard_size),
            forall|i: int| 0 <= i < shards@.len() ==> (#[trigger] shards@[i]).owner_rank == 0,
        decreases entries@.len() - file_idx,
    {
        let size = item_size(&entries[file_idx]);
        let n: u64 = if shard_size == 0 || size <= shard_size {
            1
        } else {
            div_up(size, shard_size)
        };
        proof {
            lemma_pieces_grow(sizes, shard_size, file_idx as int);
            lemma_pieces_grow(sizes, shard_size, file_idx + 1);
            assert(sizes[file_idx as int] == size);
            if shard_size != 0 && size > shard_size {
                lemma_ceil(size as int, shard_size as int);
            }
            assert(n == piece_count(size, shard_size));
            assert(file_pieces(file_idx as int, size, shard_size).len() == n);
        }
        let ghost base = plan_pieces(shards@);
        let mut shard_idx: usize = 0;
        assert(base + file_pieces(file_idx as int, size, shard_size).take(0) == base);
        while (shard_idx as u64) < n
            invariant
                shard_idx <= n,
                n <= usize::MAX,
                n == piece_count(size, shard_size),
                plan_pieces(shards@) == base + file_pieces(
                    file_idx as int,
                    size,
                    shard_size,
                ).take(shard_idx as int),
                forall|i: int| 0 <= i < shards@.len() ==> (#[trigger] shards@[i]).owner_rank == 0,
            decreases n - shard_idx,
        {
            proof {
                lemma_piece_bounds(size, shard_size, shard_idx as int);
            }
            let byte_offset: u64 = shard_idx as u64 * shard_size;
            let remaining: u64 = size - byte_offset;
            let byte_len: u64 = if shard_size == 0 || remaining <= shard_size {
                remaining
            } else {
                shard_size
            };
            let ghost before = shards@;
            shards.push(
                ShardSpec { file_idx, shard_idx, byte_offset, byte_len, owner_rank: 0 },
            );
            proof {
                let fp = file_pieces(file_idx as int, size, shard_size);
                assert(plan_pieces(shards@) =~= plan_pieces(before).push(
                    piece(shards@[before.len() as int]),
                ));
                assert(fp.take(shard_idx + 1) =~= fp.take(shard_idx as int).push(
                    fp[shard_idx as int],
                ));
                assert(plan_pieces(shards@) =~= base + fp.take(shard_idx + 1));
            }
            shard_idx += 1;
        }
        assert(file_pieces(file_idx as int, size, shard_size).take(n as int) == file_pieces(
            file_idx as int,
            size,
            shard_size,
        ));
        file_idx += 1;
    }
    assert(sizes.take(sizes.len() as int) == sizes);
    if count <= 1 {
        return shards;
    }
    let mut weights: Vec<Weight> = Vec::new();
    let mut i: usize = 0;
    while i < shards.len()
        invariant
            i <= shards@.len(),
            lpt::keys(weights@) == piece_keys(plan_pieces(shards@)).take(i as int),
        decreases shards@.len() - i,
    {
        let ghost before = weights@;
        weights.push(Weight { size: shards[i].byte_len, name: Vec::new() });
        proof {
            assert(lpt::keys(weights@) =~= lpt::keys(before).push(weights@[before.len() as int]@));
            assert(weights@[before.len() as int]@.1 =~= Seq::<char>::empty());
            assert(lpt::keys(weights@) =~= piece_keys(plan_pieces(shards@)).take(i + 1));
        }
        i += 1;
    }
    let owners = lpt_owners(&weights, count);
    assert(piece_keys(plan_pieces(shards@)).take(shards@.len() as int) == piece_keys(
        plan_pieces(shards@),
    ));
    let ghost raw = shards@;
    let mut t: usize = 0;
    while t < shards.len()
        invariant
            t <= shards@.len(),
            shards@.len() == raw.len(),
            owners@.len() == raw.len(),
            forall|j: int| 0 <= j < raw.len() ==> piece(#[trigger] shards@[j]) == piece(raw[j]),
            forall|j: int| 0 <= j < t ==> (#[trigger] shards@[j]).owner_rank == owners@[j],
        decreases shards@.len() - t,
    {
        let s = ShardSpec {
            file_idx: shards[t].file_idx,
            shard_idx: shards[t].shard_idx,
            byte_offset: shards[t].byte_offset,
            byte_len: shards[t].byte_len,
            owner_rank: owners[t],
        };
        assert(piece(s) == piece(shards@[t as int]));
        shards.set(t, s);
        t += 1;
    }
    assert(plan_pieces(shards@) == plan_pieces(raw));
    assert(plan_owners(shards@) == owners@);
    shards
}

/// The plan is fixed by the sizes, the number of ranks and the shard size: every rank computes
/// the same one, so none has to be sent around.
pub proof fn law_plan_unique(
    sizes: Seq<u64>,
    count: int,
    shard_size: u64,
    a: Seq<ShardSpec>,
    b: Seq<ShardSpec>,
)
    requires
        is_plan(sizes, count, shard_size, a),
        is_plan(sizes, count, shard_size, b),
    ensures
        a == b,
{
    assert(plan_pieces(a).len() == plan_pieces(b).len());
    if count > 1 {
        lpt::law_partition_unique(piece_keys(plan_pieces(a)), count, plan_owners(a), plan_owners(b));
    }
    assert forall|i: int| 0 <= i < a.len() implies a[i] == b[i] by {
        assert(plan_pieces(a)[i] == plan_pieces(b)[i]);
        if count > 1 {
            assert(plan_owners(a)[i] == plan_owners(b)[i]);
        }
    }
    assert(a =~= b);
}

/// The lengths of the ranges of a plan.
pub open spec fn range_lengths(plan: Seq<ShardSpec>) -> Seq<u64> {
    plan.map_values(|s: ShardSpec| s.byte_len)
}

/// How many bytes of a plan belong to a rank.
pub open spec fn rank_bytes(plan: Seq<ShardSpec>, r: int) -> nat {
    engine::sum(lpt::owned_by(range_lengths(plan), plan_owners(plan), r))
}

/// The ranks of a plan get about the same number of bytes: one gets at most the longest range
/// more than another.
pub proof fn law_ranks_are_balanced(
    sizes: Seq<u64>,
    count: int,
    shard_size: u64,
    plan: Seq<ShardSpec>,
    longest: u64,
    a: int,
    b: int,
)
    requires
        is_plan(sizes, count, shard_size, plan),
        engine::sum(range_lengths(plan)) <= u64::MAX,
        forall|i: int| 0 <= i < plan.len() ==> (#[trigger] plan[i]).byte_len <= longest,
        0 <= a < count,
        0 <= b < count,
    ensures
        rank_bytes(plan, a) <= rank_bytes(plan, b) + longest,
{
    if count > 1 {
        let k = piece_keys(plan_pieces(plan));
        assert(lpt::key_sizes(k) =~= range_lengths(plan));
        assert forall|i: int| 0 <= i < k.len() implies (#[trigger] k[i]).0 <= longest by {
            assert(k[i].0 == plan[i].byte_len);
        }
        lpt::law_bins_are_balanced(k, count, plan_owners(plan), longest, a, b);
    }
}

/// Range `j` of file `f` stands in the list of all ranges.
proof fn lemma_piece_listed(sizes: Seq<u64>, shard_size: u64, f: int, j: int) -> (t: int)
    requires
        0 <= f < sizes.len(),
        0 <= j < piece_count(sizes[f], shard_size),
    ensures
        0 <= t < all_pieces(sizes, shard_size).len(),
        all_pieces(sizes, shard_size)[t] == piece_of(f, sizes[f], shard_size, j),
    decreases sizes.len(),
{
    let front = all_pieces(sizes.drop_last(), shard_size);
    if f < sizes.len() - 1 {
        let t = lemma_piece_listed(sizes.drop_last(), shard_size, f, j);
        assert(all_pieces(sizes, shard_size)[t] == front[t]);
        t
    } else {
        let t = front.len() + j;
        assert(all_pieces(sizes, shard_size)[t] == file_pieces(f, sizes[f], shard_size)[j]);
        t
    }
}

/// The range of a file that holds the byte at `x`.
proof fn lemma_piece_with_byte(size: u64, shard_size: u64, x: int) -> (j: int)
    requires
        0 <= x < size,
    ensures
        0 <= j < piece_count(size, shard_size),
        j * shard_size <= x,
        shard_size > 0 && size > shard_size ==> x < (j + 1) * shard_size,
{
    if shard_size == 0 || size <= shard_size {
        0
    } else {
        let n = shard_size as int;
        let j = x / n;
        vstd::arithmetic::div_mod::lemma_fundamental_div_mod(x, n);
        vstd::arithmetic::div_mod::lemma_mod_bound(x, n);
        lemma_ceil(size as int, n);
        assert(j * n <= x < (j + 1) * n) by (nonlinear_arith)
            requires
                x == n * j + x % n,
                0 <= x % n < n,
        ;
        assert(j >= 0) by (nonlinear_arith)
            requires
                j == x / n,
                x >= 0,
                n > 0,
        ;
        assert(j < piece_count(size, shard_size)) by (nonlinear_arith)
            requires
                j * n <= x,
                x < size,
                size <= piece_count(size, shard_size) * n,
                n > 0,
        ;
        j
    }
}

/// Every byte of every file is in exactly one range of a plan, and no range reaches beyond its
/// file. A file without bytes has a range too.
pub proof fn law_every_byte_is_in_one_range(
    sizes: Seq<u64>,
    count: int,
    shard_size: u64,
    plan: Seq<ShardSpec>,
    f: int,
    x: int,
)
    requires
        is_plan(sizes, count, shard_size, plan),
        0 <= f < sizes.len(),
    ensures
        0 <= x < sizes[f] ==> exists|i: int|
            0 <= i < plan.len() && (#[trigger] plan[i]).file_idx == f && plan[i].byte_offset <= x
                < plan[i].byte_offset + plan[i].byte_len,
        forall|i: int, k: int|
            0 <= i < plan.len() && 0 <= k < plan.len() && (#[trigger] plan[i]).file_idx == f && (
            #[trigger] plan[k]).file_idx == f && plan[i].byte_offset <= x < plan[i].byte_offset
                + plan[i].byte_len && plan[k].byte_offset <= x < plan[k].byte_offset
                + plan[k].byte_len ==> i == k,
        forall|i: int|
            0 <= i < plan.len() ==> (#[trigger] plan[i]).file_idx < sizes.len()
                && plan[i].byte_offset + plan[i].byte_len <= sizes[plan[i].file_idx as int],
        exists|i: int| 0 <= i < plan.len() && (#[trigger] plan[i]).file_idx == f,
{
    let all = all_pieces(sizes, shard_size);
    assert forall|i: int| 0 <= i < plan.len() implies (#[trigger] plan[i]).file_idx < sizes.len()
        && plan[i].byte_offset + plan[i].byte_len <= sizes[plan[i].file_idx as int] && piece(
        plan[i],
    ) == all[i] by {
        assert(plan_pieces(plan)[i] == piece(plan[i]));
        lemma_piece_file(sizes, shard_size, i);
        lemma_piece_bounds(sizes[all[i].file_idx], shard_size, all[i].shard_idx);
    }
    lemma_piece_count(sizes[f], shard_size);
    let first = lemma_piece_listed(sizes, shard_size, f, 0);
    assert(plan[first].file_idx == f);
    if 0 <= x < sizes[f] {
        let j = lemma_piece_with_byte(sizes[f], shard_size, x);
        let t = lemma_piece_listed(sizes, shard_size, f, j);
        lemma_piece_bounds(sizes[f], shard_size, j);
        assert((j + 1) * shard_size == j * shard_size + shard_size) by (nonlinear_arith);
        assert(piece(plan[t]) == all[t]);
        assert(plan[t].file_idx == f && plan[t].byte_offset <= x < plan[t].byte_offset
            + plan[t].byte_len);
    }
    assert forall|i: int, k: int|
        0 <= i < plan.len() && 0 <= k < plan.len() && (#[trigger] plan[i]).file_idx == f && (
        #[trigger] plan[k]).file_idx == f && plan[i].byte_offset <= x < plan[i].byte_offset
            + plan[i].byte_len && plan[k].byte_offset <= x < plan[k].byte_offset
            + plan[k].byte_len implies i == k by {
        if i < k {
            lemma_ranges_apart(sizes, shard_size, i, k);
        }
        if k < i {
            lemma_ranges_apart(sizes, shard_size, k, i);
        }
    }
}

/// Of two ranges of one file the later one begins where the earlier one has ended.
proof fn lemma_ranges_apart(sizes: Seq<u64>, shard_size: u64, a: int, b: int)
    requires
        0 <= a < b < all_pieces(sizes, shard_size).len(),
        all_pieces(sizes, shard_size)[a].file_idx == all_pieces(sizes, shard_size)[b].file_idx,
    ensures
        all_pieces(sizes, shard_size)[a].byte_offset + all_pieces(sizes, shard_size)[a].byte_len
            <= all_pieces(sizes, shard_size)[b].byte_offset,
{
    let p = all_pieces(sizes, shard_size)[a];
    let q = all_pieces(sizes, shard_size)[b];
    law_pieces_in_order(sizes, shard_size, a, b);
    lemma_piece_file(sizes, shard_size, a);
    lemma_piece_file(sizes, shard_size, b);
    let size = sizes[p.file_idx];
    lemma_piece_bounds(size, shard_size, p.shard_idx);
    lemma_piece_bounds(size, shard_size, q.shard_idx);
    assert((p.shard_idx + 1) * shard_size <= q.shard_idx * shard_size) by (nonlinear_arith)
        requires
            p.shard_idx + 1 <= q.shard_idx,
            shard_size >= 0,
    ;
    assert((p.shard_idx + 1) * shard_size == p.shard_idx * shard_size + shard_size)
        by (nonlinear_arith);
}

/// Every range belongs to one of the ranks.
pub proof fn law_owners_are_ranks(
    sizes: Seq<u64>,
    count: int,
    shard_size: u64,
    plan: Seq<ShardSpec>,
)
    requires
        is_plan(sizes, count, shard_size, plan),
        count > 0,
    ensures
        forall|i: int| 0 <= i < plan.len() ==> (#[trigger] plan[i]).owner_rank < count,
{
    if count > 1 {
        lpt::law_owners_are_bins(piece_keys(plan_pieces(plan)), count, plan_owners(plan));
        assert forall|i: int| 0 <= i < plan.len() implies (#[trigger] plan[i]).owner_rank
            < count by {
            assert(plan_owners(plan)[i] == plan[i].owner_rank);
        }
    }
}

/// A derived shard size is no larger than it has to be: with a chunk less, the largest file would
/// be in more pieces than were asked for. Where all files are empty it is zero.
pub proof fn law_derived_shard_size_is_least(
    sizes: Seq<u64>,
    file_shards: int,
    bcast_chunk: int,
    f: int,
)
    requires
        file_shards >= 1,
        bcast_chunk > 0,
        0 <= f < sizes.len(),
        forall|i: int| 0 <= i < sizes.len() ==> #[trigger] sizes[i] <= sizes[f],
    ensures
        sizes[f] > 0 ==> (derived_shard_size(sizes, file_shards, bcast_chunk) - bcast_chunk)
            * file_shards < sizes[f],
        sizes[f] > 0 ==> derived_shard_size(sizes, file_shards, bcast_chunk) * file_shards
            >= sizes[f],
        sizes[f] == 0 ==> derived_shard_size(sizes, file_shards, bcast_chunk) == 0,
{
    lemma_largest(sizes, f);
    lemma_largest_occurs(sizes);
    let big = sizes[f] as int;
    assert(largest(sizes) == big);
    if big > 0 {
        lemma_ceil(big, file_shards);
        let share = ceil_div(big, file_shards);
        lemma_ceil(share, bcast_chunk);
        let chunks = ceil_div(share, bcast_chunk);
        let derived = chunks * bcast_chunk;
        assert(derived - bcast_chunk == (chunks - 1) * bcast_chunk) by (nonlinear_arith)
            requires
                derived == chunks * bcast_chunk,
        ;
        assert((derived - bcast_chunk) * file_shards <= (share - 1) * file_shards)
            by (nonlinear_arith)
            requires
                derived - bcast_chunk <= share - 1,
                file_shards >= 1,
        ;
        assert(derived * file_shards >= share * file_shards) by (nonlinear_arith)
            requires
                derived >= share,
                file_shards >= 1,
        ;
    }
}

proof fn lemma_largest_occurs(sizes: Seq<u64>)
    requires
        sizes.len() > 0,
    ensures
        exists|i: int| 0 <= i < sizes.len() && #[trigger] sizes[i] == largest(sizes),
    decreases sizes.len(),
{
    reveal_with_fuel(largest, 2);
    let front = sizes.drop_last();
    assert(sizes[sizes.len() - 1] == sizes.last());
    if front.len() > 0 {
        lemma_largest_occurs(front);
        let i = choose|i: int| 0 <= i < front.len() && #[trigger] front[i] == largest(front);
        assert(sizes[i] == front[i]);
    }
}

/// A file is in as many ranges as there are shards needed to hold it, one at least.
pub proof fn law_pieces_are_as_few_as_can_be(size: u64, shard_size: u64)
    requires
        shard_size > 0,
        size > 0,
    ensures
        (piece_count(size, shard_size) - 1) * shard_size < size,
        size <= piece_count(size, shard_size) * shard_size,
        piece_count(size, 0) == 1,
{
    lemma_ceil(size as int, shard_size as int);
    if size <= shard_size {
        assert(1 * shard_size == shard_size) by (nonlinear_arith);
        assert(0 * shard_size == 0) by (nonlinear_arith);
    }
}

} // verus!
