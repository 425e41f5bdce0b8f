//! One owner rank per file.

use crate::cluster::stages::shards;
use crate::cluster::stages::shards::{compute_shards, ShardSpec};
use crate::engine::lpt;
use crate::storage::blob::models;
use crate::storage::blob::models::BlobItem;
use vstd::prelude::*;

verus! {

/// The keys of whole files: their sizes, ties broken by position.
pub open spec fn file_keys(sizes: Seq<u64>) -> Seq<(u64, Seq<char>)> {
    sizes.map_values(|n: u64| (n, Seq::<char>::empty()))
}

/// With no shard size, the plan is one range per file, each as long as its file.
pub proof fn lemma_whole_files(sizes: Seq<u64>)
    ensures
        shards::all_pieces(sizes, 0).len() == sizes.len(),
        shards::piece_keys(shards::all_pieces(sizes, 0)) == file_keys(sizes),
        forall|i: int|
            0 <= i < sizes.len() ==> (#[trigger] shards::all_pieces(sizes, 0)[i]).file_idx == i
                && shards::all_pieces(sizes, 0)[i].byte_len == sizes[i] && shards::all_pieces(
                sizes,
                0,
            )[i].byte_offset == 0,
    decreases sizes.len(),
{
    if sizes.len() > 0 {
        lemma_whole_files(sizes.drop_last());
        let front = shards::all_pieces(sizes.drop_last(), 0);
        let all = shards::all_pieces(sizes, 0);
        assert(shards::file_pieces(sizes.len() - 1, sizes.last(), 0).len() == 1);
        assert forall|i: int| 0 <= i < sizes.len() implies (#[trigger] all[i]).file_idx == i
            && all[i].byte_len == sizes[i] && all[i].byte_offset == 0 by {
            if i < front.len() {
                assert(all[i] == front[i]);
            }
        }
        assert(shards::piece_keys(all) =~= file_keys(sizes));
    } else {
        assert(shards::piece_keys(shards::all_pieces(sizes, 0)) =~= file_keys(sizes));
    }
}

/// The owner rank of each file: the owners of the plan with one range per file.
pub fn compute(entries: &[BlobItem], count: usize) -> (owners: Vec<usize>)
    ensures
        owners@.len() == entries@.len(),
        exists|plan: Seq<ShardSpec>| #[trigger]
            shards::is_plan(models::sizes_of(entries@), count as int, 0, plan) && owners@ == shards::plan_owners(plan),
        count <= 1 ==> forall|i: int| 0 <= i < owners@.len() ==> #[trigger] owners@[i] == 0,
        count > 1 ==> lpt::is_lpt(file_keys(models::sizes_of(entries@)), count as int, owners@),
{
    let n: usize = entries.len();
    proof {
        lemma_whole_files(models::sizes_of(entries@));
        assert(models::sizes_of(entries@).len() == n);
    }
    let plan = compute_shards(entries, count, 0);
    let mut owners: Vec<usize> = Vec::new();
    let mut i: usize = 0;
    assert(shards::plan_pieces(plan@).len() == plan@.len());
    while i < plan.len()
        invariant
            i <= plan@.len(),
            owners@ == shards::plan_owners(plan@).take(i as int),
        decreases plan@.len() - i,
    {
        let ghost before = owners@;
        owners.push(plan[i].owner_rank);
        assert(shards::plan_owners(plan@).take(i + 1) == shards::plan_owners(plan@).take(i as int).push(
            shards::plan_owners(plan@)[i as int],
        ));
        i += 1;
    }
    assert(shards::plan_owners(plan@).take(plan@.len() as int) == shards::plan_owners(plan@));
    owners
}

/// The owners of whole files are the partition that `apply_shard` computes from the same
/// listing, where files of equal size are listed in the order of their names.
pub proof fn law_owners_match_apply_shard(
    items: Seq<BlobItem>,
    k: Seq<(u64, Seq<char>)>,
    count: int,
    named: Seq<usize>,
    owners: Seq<usize>,
)
    requires
        k.len() == items.len(),
        forall|i: int|
            0 <= i < items.len() ==> (#[trigger] k[i]) == (models::size_of(items[i]), items[i].name@),
        forall|i: int, j: int|
            0 <= i < j < k.len() && k[i].0 == k[j].0 ==> !lpt::lex_less(
                (#[trigger] k[j]).1,
                (#[trigger] k[i]).1,
            ),
        lpt::is_lpt(k, count, named),
        lpt::is_lpt(file_keys(models::sizes_of(items)), count, owners),
    ensures
        named == owners,
{
    lpt::law_names_do_not_matter_in_name_order(k, count, named);
    assert(lpt::unnamed(k) =~= file_keys(models::sizes_of(items)));
    lpt::law_partition_unique(lpt::unnamed(k), count, named, owners);
}

} // verus!
