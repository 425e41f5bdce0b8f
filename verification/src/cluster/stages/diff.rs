//! What has to be done for each file: nothing, a broadcast, or a download and a broadcast.
use crate::cluster::stages::presence;
use crate::cluster::stages::presence::Presence;
use vstd::prelude::*;

verus! {

#[derive(Debug)]
pub struct Classification {
    /// How many files every rank has.
    pub skipped: usize,
    /// The files that some rank has, with the lowest such rank.
    pub bcast_only: Vec<(usize, usize)>,
    /// The files that no rank has.
    pub needs_download: Vec<usize>,
}

/// What has to be done for a file.
pub enum Need {
    Nothing,
    Broadcast,
    Download,
}

/// What has to be done for `file`.
pub open spec fn need(p: Presence, file: int) -> Need {
    let n = presence::haver_count(p, file, p.world_size as nat);
    if n == p.world_size {
        Need::Nothing
    } else if n == 0 {
        Need::Download
    } else {
        Need::Broadcast
    }
}

/// Whether `r` is the lowest rank that has `file`.
pub open spec fn is_first_haver(p: Presence, file: int, r: int) -> bool {
    0 <= r < p.world_size && p.bit_at(r, file) && forall|q: int|
        0 <= q < r ==> !#[trigger] p.bit_at(q, file)
}

/// How many of the first `n` files need nothing.
pub open spec fn settled_count(p: Presence, n: nat) -> nat
    decreases n,
{
    if n == 0 {
        0
    } else {
        settled_count(p, (n - 1) as nat) + if need(p, n - 1) is Nothing {
            1nat
        } else {
            0
        }
    }
}

/// Those of the first `n` files that need a download, in order.
pub open spec fn downloads(p: Presence, n: nat) -> Seq<usize>
    decreases n,
{
    if n == 0 {
        Seq::empty()
    } else {
        let front = downloads(p, (n - 1) as nat);
        if need(p, n - 1) is Download {
            front.push((n - 1) as usize)
        } else {
            front
        }
    }
}

/// Those of the first `n` files that only need a broadcast, in order.
pub open spec fn broadcasts(p: Presence, n: nat) -> Seq<usize>
    decreases n,
{
    if n == 0 {
        Seq::empty()
    } else {
        let front = broadcasts(p, (n - 1) as nat);
        if need(p, n - 1) is Broadcast {
            front.push((n - 1) as usize)
        } else {
            front
        }
    }
}

proof fn lemma_some_haver(p: Presence, file: int, n: nat)
    ensures
        presence::haver_count(p, file, n) > 0 ==> exists|r: int|
            0 <= r < n && #[trigger] p.bit_at(r, file),
    decreases n,
{
    if n > 0 {
        lemma_some_haver(p, file, (n - 1) as nat);
        if p.bit_at(n - 1, file) {
        }
    }
}

/// Whether the files are sorted by what has to be done for them.
pub open spec fn is_classification(p: Presence, c: Classification) -> bool {
    &&& c.skipped == settled_count(p, p.num_files as nat)
    &&& c.needs_download@ == downloads(p, p.num_files as nat)
    &&& c.bcast_only@.map_values(|x: (usize, usize)| x.0) == broadcasts(p, p.num_files as nat)
    &&& forall|i: int|
        0 <= i < c.bcast_only@.len() ==> is_first_haver(
            p,
            (#[trigger] c.bcast_only@[i]).0 as int,
            c.bcast_only@[i].1 as int,
        )
}

/// The files of a class stand in order, and are in the class.
pub proof fn lemma_class_order(p: Presence, n: nat)
    requires
        n <= usize::MAX,
    ensures
        forall|i: int|
            0 <= i < downloads(p, n).len() ==> (#[trigger] downloads(p, n)[i]) < n && need(
                p,
                downloads(p, n)[i] as int,
            ) is Download,
        forall|i: int, j: int|
            0 <= i < j < downloads(p, n).len() ==> (#[trigger] downloads(p, n)[i])
                < #[trigger] downloads(p, n)[j],
        forall|i: int|
            0 <= i < broadcasts(p, n).len() ==> (#[trigger] broadcasts(p, n)[i]) < n && need(
                p,
                broadcasts(p, n)[i] as int,
            ) is Broadcast,
        forall|i: int, j: int|
            0 <= i < j < broadcasts(p, n).len() ==> (#[trigger] broadcasts(p, n)[i])
                < #[trigger] broadcasts(p, n)[j],
    decreases n,
{
    if n > 0 {
        lemma_class_order(p, (n - 1) as nat);
    }
}

/// Sorts the files by what has to be done for them.
pub fn classify(presence: &Presence) -> (out: Classification)
    requires
        presence.wf(),
    ensures
        is_classification(*presence, out),
{
    let mut skipped: usize = 0;
    let mut bcast_only: Vec<(usize, usize)> = Vec::new();
    let mut needs_download: Vec<usize> = Vec::new();
    let mut i: usize = 0;
    assert(bcast_only@.map_values(|x: (usize, usize)| x.0) =~= Seq::<usize>::empty());
    while i < presence.num_files
        invariant
            presence.wf(),
            i <= presence.num_files,
            skipped <= i,
            skipped == settled_count(*presence, i as nat),
            needs_download@ == downloads(*presence, i as nat),
            bcast_only@.map_values(|x: (usize, usize)| x.0) == broadcasts(*presence, i as nat),
            forall|j: int|
                0 <= j < bcast_only@.len() ==> is_first_haver(
                    *presence,
                    (#[trigger] bcast_only@[j]).0 as int,
                    bcast_only@[j].1 as int,
                ),
        decreases presence.num_files - i,
    {
        let count = presence.count(i);
        if count == presence.world_size {
            skipped += 1;
        } else if count == 0 {
            needs_download.push(i);
        } else {
            proof {
                lemma_some_haver(*presence, i as int, presence.world_size as nat);
            }
            match presence.first_haver(i) {
                Some(r) => {
                    let ghost before = bcast_only@;
                    bcast_only.push((i, r));
                    assert(bcast_only@.map_values(|x: (usize, usize)| x.0) =~= before.map_values(
                        |x: (usize, usize)| x.0,
                    ).push(i));
                },
                None => {
                    assert(false);
                },
            }
        }
        i += 1;
    }
    Classification { skipped, bcast_only, needs_download }
}

proof fn lemma_haver_count(p: Presence, file: int, n: nat)
    ensures
        presence::haver_count(p, file, n) <= n,
        presence::haver_count(p, file, n) == n <==> forall|r: int|
            0 <= r < n ==> #[trigger] p.bit_at(r, file),
        presence::haver_count(p, file, n) == 0 <==> forall|r: int|
            0 <= r < n ==> !#[trigger] p.bit_at(r, file),
    decreases n,
{
    if n > 0 {
        let m = (n - 1) as nat;
        lemma_haver_count(p, file, m);
        assert(p.bit_at(n - 1, file) || !p.bit_at(n - 1, file));
    }
}

/// A file is in a class exactly where it has the need of the class.
pub proof fn lemma_in_class(p: Presence, n: nat, f: int)
    requires
        n <= usize::MAX,
        0 <= f < n,
    ensures
        downloads(p, n).contains(f as usize) <==> need(p, f) is Download,
        broadcasts(p, n).contains(f as usize) <==> need(p, f) is Broadcast,
    decreases n,
{
    let m = (n - 1) as nat;
    lemma_class_order(p, n);
    let d = downloads(p, n);
    let b = broadcasts(p, n);
    if d.contains(f as usize) {
        let i = d.index_of(f as usize);
        assert(need(p, d[i] as int) is Download);
    }
    if b.contains(f as usize) {
        let i = b.index_of(f as usize);
        assert(need(p, b[i] as int) is Broadcast);
    }
    if f < m {
        lemma_in_class(p, m, f);
        if need(p, f) is Download {
            let i = downloads(p, m).index_of(f as usize);
            assert(d[i] == f);
        }
        if need(p, f) is Broadcast {
            let i = broadcasts(p, m).index_of(f as usize);
            assert(b[i] == f);
        }
    } else {
        if need(p, f) is Download {
            assert(d.last() == f);
        }
        if need(p, f) is Broadcast {
            assert(b.last() == f);
        }
    }
}

/// What is done for a file goes by who has it: it is downloaded where no rank has it, broadcast
/// by the lowest rank that has it where only some have it, and left alone exactly where every
/// rank has it.
pub proof fn law_files_are_classed_by_who_has_them(p: Presence, c: Classification, f: int)
    requires
        is_classification(p, c),
        p.world_size > 0,
        0 <= f < p.num_files,
    ensures
        c.needs_download@.contains(f as usize) <==> forall|r: int|
            0 <= r < p.world_size ==> !#[trigger] p.bit_at(r, f),
        (exists|i: int| 0 <= i < c.bcast_only@.len() && (#[trigger] c.bcast_only@[i]).0 == f) <==> (
        exists|r: int| 0 <= r < p.world_size && #[trigger] p.bit_at(r, f)) && (exists|r: int|
            0 <= r < p.world_size && !#[trigger] p.bit_at(r, f)),
        (forall|r: int| 0 <= r < p.world_size ==> #[trigger] p.bit_at(r, f)) <==> (
        !c.needs_download@.contains(f as usize) && forall|i: int|
            0 <= i < c.bcast_only@.len() ==> (#[trigger] c.bcast_only@[i]).0 != f),
        forall|i: int|
            0 <= i < c.bcast_only@.len() && (#[trigger] c.bcast_only@[i]).0 == f
                ==> c.bcast_only@[i].1 < p.world_size && p.bit_at(c.bcast_only@[i].1 as int, f)
                && forall|q: int| 0 <= q < c.bcast_only@[i].1 ==> !#[trigger] p.bit_at(q, f),
        c.skipped + c.bcast_only@.len() + c.needs_download@.len() == p.num_files,
{
    let n = p.num_files as nat;
    lemma_haver_count(p, f, p.world_size as nat);
    lemma_in_class(p, n, f);
    law_classes_are_complete(p, n);
    let b = broadcasts(p, n);
    let firsts = c.bcast_only@.map_values(|x: (usize, usize)| x.0);
    assert(p.bit_at(0, f) || !p.bit_at(0, f));
    if b.contains(f as usize) {
        let i = b.index_of(f as usize);
        assert(firsts[i] == c.bcast_only@[i].0);
        assert(c.bcast_only@[i].0 == f);
    }
    assert forall|i: int|
        0 <= i < c.bcast_only@.len() && (#[trigger] c.bcast_only@[i]).0 == f implies b.contains(
        f as usize,
    ) && is_first_haver(p, f, c.bcast_only@[i].1 as int) by {
        assert(firsts[i] == c.bcast_only@[i].0);
        assert(b[i] == f);
    }
}

/// Every file is in exactly one of the three classes.
pub proof fn law_classes_are_complete(p: Presence, n: nat)
    ensures
        settled_count(p, n) + broadcasts(p, n).len() + downloads(p, n).len() == n,
    decreases n,
{
    if n > 0 {
        law_classes_are_complete(p, (n - 1) as nat);
    }
}

} // verus!
