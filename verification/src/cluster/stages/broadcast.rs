//! The broadcast pipeline: which chunk is posted next, into which buffer, and what becomes of a
//! chunk that has arrived.
//!
//! The pipeline holds no file and no request. It is told what happened (a request completed, a
//! write was acknowledged) and says what to do next (open, post, write, close).
use crate::cluster::stages::presence::Presence;
use crate::cluster::stages::shards;
use crate::cluster::stages::shards::ShardSpec;
use crate::text;
use crate::text::{clone_opt, decimal_text, owned};
use std::collections::{HashMap, VecDeque};
use vstd::prelude::*;

verus! {

/// Direct writes begin at and extend to multiples of this.
pub const ALIGN: usize = 4096;

/// One broadcast call moves at most this many bytes.
pub const MAX_SUB_BCAST: usize = 1_073_741_824;

/// What a rank knows of a file while it is broadcast.
#[derive(Debug, Clone, Copy)]
pub struct FileState {
    pub needs_write: bool,
    pub opened: bool,
    pub closed: bool,
    pub size: u64,
    pub shards_total: usize,
    pub shards_posted: usize,
    pub chunks_in_flight: usize,
    pub writes_in_flight: usize,
}

/// The shard that is being posted, and how far it is posted.
#[derive(Debug, Clone, Copy)]
pub struct ShardCursor {
    pub file_idx: usize,
    pub byte_offset: u64,
    pub byte_len: u64,
    pub next_post_offset: u64,
    pub is_owner: bool,
    pub broadcaster: usize,
}

/// What a buffer is used for.
#[derive(Debug, Clone, Copy)]
pub enum SlotUse {
    Free,
    /// The buffer holds `n` bytes for `offset` of the file, under way over the network.
    Sending { file_idx: usize, n: usize, offset: u64 },
    /// The buffer is with the writer of the file.
    Writing { file_idx: usize },
}

/// A shard begins.
#[derive(Debug, Clone, Copy)]
pub struct Begin {
    pub file_idx: usize,
    pub byte_offset: u64,
    /// Whether this rank reads the shard from its own copy, from `byte_offset` on.
    pub read: bool,
    /// Whether the file is now opened for writing.
    pub open: bool,
    /// The size of the whole file.
    pub size: u64,
    /// Whether the file is finished and closed.
    pub close: bool,
}

/// A chunk is posted.
#[derive(Debug)]
pub struct Post {
    pub slot: usize,
    pub file_idx: usize,
    pub n: usize,
    pub offset: u64,
    /// Whether this rank fills the buffer first.
    pub read: bool,
    pub broadcaster: usize,
    /// The offset in the buffer and the length of each broadcast call.
    pub calls: Vec<(usize, usize)>,
}

/// What to do to fill the pipeline.
#[derive(Debug)]
pub enum Fill {
    Idle,
    Begin(Begin),
    Post(Post),
}

/// What to do when a broadcast call has completed.
#[derive(Debug, Clone, Copy)]
pub enum Arrival {
    /// Other calls of the chunk are still under way.
    Partial,
    /// The chunk goes to the writer of its file.
    Write { file_idx: usize, slot: usize, n: usize, offset: u64 },
    /// The chunk is not needed here. `close` says whether the file is finished and closed.
    Release { file_idx: usize, slot: usize, close: bool },
}

/// What the pipeline waits for.
#[derive(Debug, Clone, Copy)]
pub enum Phase {
    Done,
    /// A slot is free again and takes the next chunk; there is nothing to wait for.
    Refill,
    WaitAck,
    WaitRequest,
}

pub struct Pipeline {
    pub plan: Vec<ShardSpec>,
    pub rank: usize,
    pub chunk: usize,
    pub files: Vec<FileState>,
    pub slots: Vec<SlotUse>,
    pub slot_calls: Vec<usize>,
    pub free_slots: VecDeque<usize>,
    /// The slot of each broadcast call that is under way.
    pub in_flight: Vec<usize>,
    pub next_plan_idx: usize,
    pub active: Option<ShardCursor>,
    pub writes_pending: usize,
}

/// How many elements satisfy `p`.
pub open spec fn tally<T>(s: Seq<T>, p: spec_fn(T) -> bool) -> nat
    decreases s.len(),
{
    if s.len() == 0 {
        0
    } else {
        tally(s.drop_last(), p) + if p(s.last()) {
            1nat
        } else {
            0
        }
    }
}

pub open spec fn of_file(f: int) -> spec_fn(ShardSpec) -> bool {
    |s: ShardSpec| s.file_idx == f
}

pub open spec fn sends(f: int) -> spec_fn(SlotUse) -> bool {
    |u: SlotUse| u is Sending && u->Sending_file_idx == f
}

pub open spec fn writes_to(f: int) -> spec_fn(SlotUse) -> bool {
    |u: SlotUse| u is Writing && u->Writing_file_idx == f
}

pub open spec fn writing() -> spec_fn(SlotUse) -> bool {
    |u: SlotUse| u is Writing
}

pub open spec fn in_slot(s: int) -> spec_fn(usize) -> bool {
    |x: usize| x == s
}

proof fn lemma_tally_bound<T>(s: Seq<T>, p: spec_fn(T) -> bool)
    ensures
        tally(s, p) <= s.len(),
        (forall|i: int| 0 <= i < s.len() ==> !p(#[trigger] s[i])) ==> tally(s, p) == 0,
        (forall|i: int| 0 <= i < s.len() ==> p(#[trigger] s[i])) ==> tally(s, p) == s.len(),
    decreases s.len(),
{
    if s.len() > 0 {
        lemma_tally_bound(s.drop_last(), p);
        assert(forall|i: int| 0 <= i < s.len() - 1 ==> s.drop_last()[i] == s[i]);
        assert(s.last() == s[s.len() - 1]);
    }
}

proof fn lemma_tally_positive<T>(s: Seq<T>, p: spec_fn(T) -> bool, i: int)
    requires
        0 <= i < s.len(),
        p(s[i]),
    ensures
        tally(s, p) > 0,
    decreases s.len(),
{
    if i < s.len() - 1 {
        lemma_tally_positive(s.drop_last(), p, i);
    }
}

proof fn lemma_tally_update<T>(s: Seq<T>, p: spec_fn(T) -> bool, i: int, v: T)
    requires
        0 <= i < s.len(),
    ensures
        tally(s.update(i, v), p) + (if p(s[i]) { 1nat } else { 0 }) == tally(s, p) + (if p(v) {
            1nat
        } else {
            0
        }),
    decreases s.len(),
{
    let t = s.update(i, v);
    if i == s.len() - 1 {
        assert(t.drop_last() == s.drop_last());
    } else {
        assert(t.drop_last() == s.drop_last().update(i, v));
        assert(t.last() == s.last());
        lemma_tally_update(s.drop_last(), p, i, v);
    }
}

proof fn lemma_tally_take<T>(s: Seq<T>, p: spec_fn(T) -> bool, n: int)
    requires
        0 <= n < s.len(),
    ensures
        tally(s.take(n + 1), p) == tally(s.take(n), p) + if p(s[n]) {
            1nat
        } else {
            0
        },
{
    assert(s.take(n + 1).drop_last() == s.take(n));
}

proof fn lemma_tally_monotone<T>(s: Seq<T>, p: spec_fn(T) -> bool, n: int)
    requires
        0 <= n <= s.len(),
    ensures
        tally(s.take(n), p) <= tally(s, p),
    decreases s.len() - n,
{
    if n < s.len() {
        lemma_tally_take(s, p, n);
        lemma_tally_monotone(s, p, n + 1);
    } else {
        assert(s.take(n) == s);
    }
}

proof fn lemma_tally_swap_remove<T>(s: Seq<T>, p: spec_fn(T) -> bool, i: int)
    requires
        0 <= i < s.len(),
    ensures
        tally(s.update(i, s.last()).drop_last(), p) + (if p(s[i]) {
            1nat
        } else {
            0
        }) == tally(s, p),
{
    lemma_tally_update(s, p, i, s.last());
    let t = s.update(i, s.last());
    assert(t.last() == s.last());
}

/// Whether a file is open, all its shards are posted and nothing of it is under way.
pub open spec fn finished(f: FileState) -> bool {
    f.opened && !f.closed && f.shards_posted == f.shards_total && f.chunks_in_flight == 0
        && f.writes_in_flight == 0
}

/// The file after it was closed, if it is finished.
pub open spec fn settled(f: FileState) -> FileState {
    if finished(f) {
        FileState { closed: true, ..f }
    } else {
        f
    }
}

/// The broadcast calls that move `n` bytes.
pub open spec fn calls_of(n: int) -> Seq<(usize, usize)> {
    Seq::new(
        shards::piece_count(n as u64, MAX_SUB_BCAST as u64) as nat,
        |k: int|
            {
                let p = shards::piece_of(0, n as u64, MAX_SUB_BCAST as u64, k);
                (p.byte_offset as usize, p.byte_len as usize)
            },
    )
}

/// `n` times the slot `s`.
pub open spec fn repeated(s: usize, n: nat) -> Seq<usize> {
    Seq::new(n, |i: int| s)
}

/// What a step of filling does to the pipeline.
pub open spec fn filled(before: Pipeline, after: Pipeline, step: Fill) -> bool {
    match step {
        Fill::Idle => !before.can_fill() && after == before,
        Fill::Begin(b) => {
            let s = before.plan@[before.next_plan_idx as int];
            let f = before.files@[s.file_idx as int];
            let opened = FileState { opened: f.opened || f.needs_write, ..f };
            let state = if s.byte_len == 0 {
                FileState { shards_posted: (f.shards_posted + 1) as usize, ..opened }
            } else {
                opened
            };
            &&& before.can_fill() && before.active is None
            &&& b.file_idx == s.file_idx
            &&& b.byte_offset == s.byte_offset
            &&& b.read == (s.owner_rank == before.rank && s.byte_len > 0)
            &&& b.open == (f.needs_write && !f.opened)
            &&& b.size == f.size
            &&& b.close == (s.byte_len == 0 && finished(state))
            &&& after.next_plan_idx == before.next_plan_idx + 1
            &&& after.active == if s.byte_len == 0 {
                None
            } else {
                Some(
                    ShardCursor {
                        file_idx: s.file_idx,
                        byte_offset: s.byte_offset,
                        byte_len: s.byte_len,
                        next_post_offset: 0,
                        is_owner: s.owner_rank == before.rank,
                        broadcaster: s.owner_rank,
                    },
                )
            }
            &&& after.files@ == before.files@.update(
                s.file_idx as int,
                if s.byte_len == 0 {
                    settled(state)
                } else {
                    state
                },
            )
            &&& after.slots@ == before.slots@
            &&& after.free_slots@ == before.free_slots@
            &&& after.in_flight@ == before.in_flight@
            &&& after.writes_pending == before.writes_pending
        },
        Fill::Post(p) => {
            let c = before.active->0;
            let left = c.byte_len - c.next_post_offset;
            let last = left <= before.chunk;
            let f = before.files@[c.file_idx as int];
            let sent = FileState { chunks_in_flight: (f.chunks_in_flight + 1) as usize, ..f };
            let state = if last {
                FileState { shards_posted: (f.shards_posted + 1) as usize, ..sent }
            } else {
                sent
            };
            &&& before.can_fill() && before.active is Some
            &&& p.slot == before.free_slots@[0]
            &&& p.file_idx == c.file_idx
            &&& p.n == if last {
                left
            } else {
                before.chunk as int
            }
            &&& p.offset == c.byte_offset + c.next_post_offset
            &&& p.read == c.is_owner
            &&& p.broadcaster == c.broadcaster
            &&& p.calls@ == calls_of(p.n as int)
            &&& after.active == if last {
                None
            } else {
                Some(
                    ShardCursor {
                        next_post_offset: (c.next_post_offset + p.n) as u64,
                        ..c
                    },
                )
            }
            &&& after.next_plan_idx == before.next_plan_idx
            &&& after.files@ == before.files@.update(c.file_idx as int, state)
            &&& after.slots@ == before.slots@.update(
                p.slot as int,
                SlotUse::Sending { file_idx: c.file_idx, n: p.n, offset: p.offset },
            )
            &&& after.free_slots@ == before.free_slots@.drop_first()
            &&& after.in_flight@ == before.in_flight@ + repeated(p.slot, p.calls@.len())
            &&& after.writes_pending == before.writes_pending
        },
    }
}

/// A chunk that goes out: where it belongs, and the rank that it comes from.
pub struct Chunk {
    pub file_idx: int,
    pub offset: int,
    pub len: int,
    pub broadcaster: int,
}

/// How many chunks a shard has.
pub open spec fn chunk_count(len: u64, chunk: usize) -> int {
    if len == 0 {
        0
    } else {
        shards::piece_count(len, chunk as u64)
    }
}

/// Chunk `k` of a shard.
pub open spec fn chunk_of(s: ShardSpec, chunk: usize, k: int) -> Chunk {
    let p = shards::piece_of(s.file_idx as int, s.byte_len, chunk as u64, k);
    Chunk {
        file_idx: s.file_idx as int,
        offset: s.byte_offset + p.byte_offset,
        len: p.byte_len,
        broadcaster: s.owner_rank as int,
    }
}

pub open spec fn shard_chunks(s: ShardSpec, chunk: usize) -> Seq<Chunk> {
    Seq::new(chunk_count(s.byte_len, chunk) as nat, |k: int| chunk_of(s, chunk, k))
}

/// The chunks of a plan, shard by shard.
pub open spec fn all_chunks(plan: Seq<ShardSpec>, chunk: usize) -> Seq<Chunk>
    decreases plan.len(),
{
    if plan.len() == 0 {
        Seq::empty()
    } else {
        all_chunks(plan.drop_last(), chunk) + shard_chunks(plan.last(), chunk)
    }
}

impl Pipeline {
    /// How many shards are posted in full.
    pub open spec fn posted(&self) -> int {
        if self.active is Some {
            self.next_plan_idx - 1
        } else {
            self.next_plan_idx as int
        }
    }

    /// How many chunks are posted.
    pub open spec fn chunks_posted(&self) -> int {
        all_chunks(self.plan@.take(self.posted()), self.chunk).len() + match self.active {
            Some(c) => c.next_post_offset as int / self.chunk as int,
            None => 0,
        }
    }

    pub open spec fn plan_ok(&self) -> bool {
        &&& self.chunk > 0
        &&& self.next_plan_idx <= self.plan@.len()
        &&& forall|i: int|
            0 <= i < self.plan@.len() ==> (#[trigger] self.plan@[i]).file_idx < self.files@.len()
                && self.plan@[i].byte_offset + self.plan@[i].byte_len <= u64::MAX
    }

    pub open spec fn cursor_ok(&self) -> bool {
        match self.active {
            Some(c) => {
                &&& self.next_plan_idx > 0
                &&& c.file_idx == self.plan@[self.next_plan_idx - 1].file_idx
                &&& c.byte_offset == self.plan@[self.next_plan_idx - 1].byte_offset
                &&& c.byte_len == self.plan@[self.next_plan_idx - 1].byte_len
                &&& c.broadcaster == self.plan@[self.next_plan_idx - 1].owner_rank
                &&& c.is_owner == (c.broadcaster == self.rank)
                &&& c.next_post_offset < c.byte_len
                &&& c.next_post_offset as int % self.chunk as int == 0
            },
            None => true,
        }
    }

    /// The free slots are listed once each, in `free_slots`.
    pub open spec fn free_ok(&self) -> bool {
        &&& 0 < self.slots@.len() <= usize::MAX
        &&& self.free_slots@.no_duplicates()
        &&& forall|i: int|
            0 <= i < self.free_slots@.len() ==> (#[trigger] self.free_slots@[i])
                < self.slots@.len() && self.slots@[self.free_slots@[i] as int] is Free
        &&& forall|s: int|
            0 <= s < self.slots@.len() && (#[trigger] self.slots@[s]) is Free
                ==> self.free_slots@.contains(s as usize)
    }

    /// A slot is sending while, and only while, calls of it are under way.
    pub open spec fn calls_ok(&self) -> bool {
        &&& self.slot_calls@.len() == self.slots@.len()
        &&& forall|i: int|
            0 <= i < self.in_flight@.len() ==> (#[trigger] self.in_flight@[i]) < self.slots@.len()
        &&& forall|s: int|
            #![trigger self.slots@[s]]
            0 <= s < self.slots@.len() ==> {
                &&& self.slot_calls@[s] == tally(self.in_flight@, in_slot(s))
                &&& self.slots@[s] is Sending <==> self.slot_calls@[s] > 0
                &&& self.slots@[s] is Sending ==> self.slots@[s]->Sending_file_idx
                    < self.files@.len()
                &&& self.slots@[s] is Writing ==> self.slots@[s]->Writing_file_idx
                    < self.files@.len()
            }
    }

    /// The counters of file `f` say what they are named for.
    pub open spec fn file_ok(&self, f: int) -> bool {
        let s = self.files@[f];
        &&& s.shards_total == tally(self.plan@, of_file(f))
        &&& s.shards_posted == tally(self.plan@.take(self.posted()), of_file(f))
        &&& s.chunks_in_flight == tally(self.slots@, sends(f))
        &&& s.writes_in_flight == tally(self.slots@, writes_to(f))
        &&& s.opened ==> s.needs_write
        &&& s.needs_write && tally(self.plan@.take(self.next_plan_idx as int), of_file(f)) > 0
            ==> s.opened
        &&& s.closed ==> s.opened && s.shards_posted == s.shards_total && s.chunks_in_flight == 0
            && s.writes_in_flight == 0
        &&& !finished(s)
    }

    pub open spec fn files_ok(&self) -> bool {
        forall|f: int| 0 <= f < self.files@.len() ==> #[trigger] self.file_ok(f)
    }

    pub open spec fn wf(&self) -> bool {
        &&& self.plan_ok()
        &&& self.cursor_ok()
        &&& self.free_ok()
        &&& self.calls_ok()
        &&& self.files_ok()
        &&& self.writes_pending == tally(self.slots@, writing())
    }

    /// Whether there is a free slot and something left to post.
    pub open spec fn can_fill(&self) -> bool {
        self.free_slots@.len() > 0 && (self.active is Some || self.next_plan_idx
            < self.plan@.len())
    }

    /// Whether everything is posted, has arrived and is written.
    pub open spec fn done(&self) -> bool {
        self.in_flight@.len() == 0 && self.writes_pending == 0 && self.next_plan_idx
            >= self.plan@.len() && self.active is None
    }

    /// Whether the two hold the same plan for the same rank.
    pub open spec fn same_job(&self, other: &Pipeline) -> bool {
        &&& self.plan@ == other.plan@
        &&& self.rank == other.rank
        &&& self.chunk == other.chunk
    }

    /// The pipeline before anything is posted. `needs_write` says of each file whether this rank
    /// writes it.
    pub fn new(
        plan: Vec<ShardSpec>,
        sizes: &Vec<u64>,
        needs_write: &Vec<bool>,
        rank: usize,
        chunk: usize,
        depth: usize,
    ) -> (out: Pipeline)
        requires
            chunk > 0,
            depth > 0,
            needs_write@.len() == sizes@.len(),
            forall|i: int|
                0 <= i < plan@.len() ==> (#[trigger] plan@[i]).file_idx < sizes@.len()
                    && plan@[i].byte_offset + plan@[i].byte_len <= u64::MAX,
        ensures
            out.wf(),
            out.plan@ == plan@,
            out.rank == rank,
            out.chunk == chunk,
            out.next_plan_idx == 0,
            out.active is None,
            out.writes_pending == 0,
            out.in_flight@.len() == 0,
            out.slots@.len() == depth,
            out.free_slots@ == Seq::new(depth as nat, |i: int| i as usize),
            out.files@.len() == sizes@.len(),
            forall|f: int|
                0 <= f < sizes@.len() ==> {
                    &&& (#[trigger] out.files@[f]).size == sizes@[f]
                    &&& out.files@[f].needs_write == needs_write@[f]
                    &&& !out.files@[f].opened
                    &&& !out.files@[f].closed
                },
    {
        let mut files: Vec<FileState> = Vec::new();
        let mut f: usize = 0;
        while f < sizes.len()
            invariant
                f <= sizes@.len(),
                needs_write@.len() == sizes@.len(),
                files@.len() == f,
                forall|i: int|
                    0 <= i < f ==> #[trigger] files@[i] == (FileState {
                        needs_write: needs_write@[i],
                        opened: false,
                        closed: false,
                        size: sizes@[i],
                        shards_total: 0,
                        shards_posted: 0,
                        chunks_in_flight: 0,
                        writes_in_flight: 0,
                    }),
            decreases sizes@.len() - f,
        {
            files.push(
                FileState {
                    needs_write: needs_write[f],
                    opened: false,
                    closed: false,
                    size: sizes[f],
                    shards_total: 0,
                    shards_posted: 0,
                    chunks_in_flight: 0,
                    writes_in_flight: 0,
                },
            );
            f += 1;
        }
        let mut i: usize = 0;
        while i < plan.len()
            invariant
                i <= plan@.len(),
                files@.len() == sizes@.len(),
                needs_write@.len() == sizes@.len(),
                forall|j: int|
                    0 <= j < plan@.len() ==> (#[trigger] plan@[j]).file_idx < sizes@.len(),
                forall|f: int|
                    0 <= f < sizes@.len() ==> #[trigger] files@[f] == (FileState {
                        needs_write: needs_write@[f],
                        opened: false,
                        closed: false,
                        size: sizes@[f],
                        shards_total: tally(plan@.take(i as int), of_file(f)) as usize,
                        shards_posted: 0,
                        chunks_in_flight: 0,
                        writes_in_flight: 0,
                    }) && tally(plan@.take(i as int), of_file(f)) <= i,
            decreases plan@.len() - i,
        {
            let file_idx = plan[i].file_idx;
            let old_state = files[file_idx];
            proof {
                assert forall|f: int| 0 <= f < sizes@.len() implies #[trigger] tally(
                    plan@.take(i + 1),
                    of_file(f),
                ) == tally(plan@.take(i as int), of_file(f)) + (if f == file_idx {
                    1nat
                } else {
                    0
                }) by {
                    lemma_tally_take(plan@, of_file(f), i as int);
                }
                assert(files@[file_idx as int].shards_total <= i);
            }
            files.set(
                file_idx,
                FileState { shards_total: old_state.shards_total + 1, ..old_state },
            );
            i += 1;
        }
        let mut free_slots: VecDeque<usize> = VecDeque::new();
        let mut slots: Vec<SlotUse> = Vec::new();
        let mut slot_calls: Vec<usize> = Vec::new();
        let mut s: usize = 0;
        while s < depth
            invariant
                s <= depth,
                free_slots@ == Seq::new(s as nat, |i: int| i as usize),
                slots@ == Seq::new(s as nat, |i: int| SlotUse::Free),
                slot_calls@ == Seq::new(s as nat, |i: int| 0usize),
            decreases depth - s,
        {
            free_slots.push_back(s);
            slots.push(SlotUse::Free);
            slot_calls.push(0);
            s += 1;
        }
        let out = Pipeline {
            plan,
            rank,
            chunk,
            files,
            slots,
            slot_calls,
            free_slots,
            in_flight: Vec::new(),
            next_plan_idx: 0,
            active: None,
            writes_pending: 0,
        };
        proof {
            assert(plan@.take(plan@.len() as int) == plan@);
            lemma_tally_bound(out.slots@, writing());
            assert forall|f: int| 0 <= f < out.files@.len() implies #[trigger] out.file_ok(f) by {
                lemma_tally_bound(out.slots@, sends(f));
                lemma_tally_bound(out.slots@, writes_to(f));
                assert(out.files@[f] == files@[f]);
            }
            assert forall|s: int| 0 <= s < out.slots@.len() && (#[trigger] out.slots@[s]) is Free
                implies out.free_slots@.contains(s as usize) by {
                assert(out.free_slots@[s] == s);
            }
        }
        out
    }

    /// The next thing to do to fill the pipeline: begin the next shard, post the next chunk of
    /// the shard at hand, or nothing, where no slot is free or everything is posted.
    #[verifier::rlimit(40)]
    pub fn fill(&mut self) -> (step: Fill)
        requires
            old(self).wf(),
        ensures
            final(self).wf(),
            final(self).same_job(old(self)),
            filled(*old(self), *final(self), step),
    {
        if self.free_slots.len() == 0 {
            return Fill::Idle;
        }
        match self.active {
            None => {
                if self.next_plan_idx >= self.plan.len() {
                    return Fill::Idle;
                }
                Fill::Begin(self.begin())
            },
            Some(c) => Fill::Post(self.post(c)),
        }
    }

    fn begin(&mut self) -> (b: Begin)
        requires
            old(self).wf(),
            old(self).can_fill(),
            old(self).active is None,
        ensures
            final(self).wf(),
            final(self).same_job(old(self)),
            filled(*old(self), *final(self), Fill::Begin(b)),
    {
        let ghost before = *self;
        let s = self.plan[self.next_plan_idx].clone();
        let k = self.next_plan_idx;
        let total: usize = self.plan.len();
        assert(k < total);
        let file_idx = s.file_idx;
        let is_owner = s.owner_rank == self.rank;
        let mut f = self.files[file_idx];
        let open = f.needs_write && !f.opened;
        let size = f.size;
        proof {
            assert(self.file_ok(file_idx as int));
            lemma_tally_take(self.plan@, of_file(file_idx as int), k as int);
            lemma_tally_monotone(self.plan@, of_file(file_idx as int), k + 1);
            lemma_tally_bound(self.plan@, of_file(file_idx as int));
        }
        if open {
            f = FileState { opened: true, ..f };
        }
        let mut close = false;
        self.next_plan_idx = k + 1;
        if s.byte_len == 0 {
            f = FileState { shards_posted: f.shards_posted + 1, ..f };
            close = close_if_finished(&mut f);
        } else {
            self.active = Some(
                ShardCursor {
                    file_idx,
                    byte_offset: s.byte_offset,
                    byte_len: s.byte_len,
                    next_post_offset: 0,
                    is_owner,
                    broadcaster: s.owner_rank,
                },
            );
            proof {
                vstd::arithmetic::div_mod::lemma_small_mod(0, self.chunk as nat);
            }
        }
        self.files.set(file_idx, f);
        proof {
            assert forall|g: int| 0 <= g < self.files@.len() implies #[trigger] self.file_ok(g) by {
                assert(before.file_ok(g));
                lemma_tally_take(self.plan@, of_file(g), k as int);
            }
            assert(forall|x: int| 0 <= x < self.slots@.len() ==> self.slots@[x] == before.slots@[x]);
        }
        Begin {
            file_idx,
            byte_offset: s.byte_offset,
            read: is_owner && s.byte_len > 0,
            open,
            size,
            close,
        }
    }

    #[verifier::rlimit(60)]
    fn post(&mut self, c: ShardCursor) -> (p: Post)
        requires
            old(self).wf(),
            old(self).active == Some(c),
            old(self).free_slots@.len() > 0,
        ensures
            final(self).wf(),
            final(self).same_job(old(self)),
            filled(*old(self), *final(self), Fill::Post(p)),
    {
        let ghost before = *self;
        let k = self.next_plan_idx;
        let file_idx = c.file_idx;
        let remaining: u64 = c.byte_len - c.next_post_offset;
        let n: usize = if remaining <= self.chunk as u64 {
            remaining as usize
        } else {
            self.chunk
        };
        let offset: u64 = c.byte_offset + c.next_post_offset;
        let slot: usize = match self.free_slots.pop_front() {
            Some(s) => s,
            None => 0,
        };
        assert(slot == before.free_slots@[0]);
        assert(before.slots@[slot as int] is Free);
        let calls = sub_bcasts(n);
        proof {
            assert(before.slot_calls@[slot as int] == 0);
            lemma_tally_bound(before.in_flight@, in_slot(slot as int));
        }
        let mut t: usize = 0;
        assert(before.in_flight@ + repeated(slot, 0) == before.in_flight@);
        while t < calls.len()
            invariant
                t <= calls@.len(),
                self.in_flight@ == before.in_flight@ + repeated(slot, t as nat),
                slot < before.slots@.len(),
                self.free_slots@ == before.free_slots@.drop_first(),
                self.plan == before.plan,
                self.rank == before.rank,
                self.chunk == before.chunk,
                self.files == before.files,
                self.slots == before.slots,
                self.slot_calls == before.slot_calls,
                self.next_plan_idx == before.next_plan_idx,
                self.active == before.active,
                self.writes_pending == before.writes_pending,
            decreases calls@.len() - t,
        {
            self.in_flight.push(slot);
            assert(before.in_flight@ + repeated(slot, (t + 1) as nat) == (before.in_flight@
                + repeated(slot, t as nat)).push(slot));
            t += 1;
        }
        let last = remaining <= self.chunk as u64;
        let f = self.files[file_idx];
        proof {
            assert(before.file_ok(file_idx as int));
            lemma_tally_bound(before.slots@, sends(file_idx as int));
            lemma_tally_update(
                before.slots@,
                sends(file_idx as int),
                slot as int,
                SlotUse::Sending { file_idx, n, offset },
            );
            lemma_tally_bound(
                before.slots@.update(slot as int, SlotUse::Sending { file_idx, n, offset }),
                sends(file_idx as int),
            );
            lemma_tally_take(before.plan@, of_file(file_idx as int), k - 1);
            lemma_tally_monotone(before.plan@, of_file(file_idx as int), k as int);
            lemma_tally_bound(before.plan@, of_file(file_idx as int));
        }
        let sent = FileState { chunks_in_flight: f.chunks_in_flight + 1, ..f };
        let after = if last {
            FileState { shards_posted: f.shards_posted + 1, ..sent }
        } else {
            sent
        };
        self.slots.set(slot, SlotUse::Sending { file_idx, n, offset });
        self.slot_calls.set(slot, calls.len());
        self.files.set(file_idx, after);
        if last {
            self.active = None;
        } else {
            self.active = Some(ShardCursor { next_post_offset: c.next_post_offset + n as u64, ..c });
            proof {
                vstd::arithmetic::div_mod::lemma_mod_add_multiples_vanish(
                    c.next_post_offset as int,
                    self.chunk as int,
                );
            }
        }
        proof {
            assert forall|g: int| 0 <= g < self.files@.len() implies #[trigger] self.file_ok(g) by {
                assert(before.file_ok(g));
                lemma_tally_update(
                    before.slots@,
                    sends(g),
                    slot as int,
                    SlotUse::Sending { file_idx, n, offset },
                );
                lemma_tally_update(
                    before.slots@,
                    writes_to(g),
                    slot as int,
                    SlotUse::Sending { file_idx, n, offset },
                );
                lemma_tally_take(before.plan@, of_file(g), k - 1);
            }
            lemma_tally_update(
                before.slots@,
                writing(),
                slot as int,
                SlotUse::Sending { file_idx, n, offset },
            );
            assert forall|s: int| 0 <= s < self.slots@.len() implies tally(
                self.in_flight@,
                #[trigger] in_slot(s),
            ) == tally(before.in_flight@, in_slot(s)) + (if s == slot {
                calls@.len()
            } else {
                0
            }) by {
                lemma_tally_repeated(before.in_flight@, slot, calls@.len(), s);
            }
            assert forall|s: int| 0 <= s < self.slots@.len() implies ({
                &&& self.slot_calls@[s] == tally(self.in_flight@, in_slot(s))
                &&& (#[trigger] self.slots@[s]) is Sending <==> self.slot_calls@[s] > 0
                &&& self.slots@[s] is Sending ==> self.slots@[s]->Sending_file_idx
                    < self.files@.len()
                &&& self.slots@[s] is Writing ==> self.slots@[s]->Writing_file_idx
                    < self.files@.len()
            }) by {
                assert(before.slots@[s] is Sending <==> before.slot_calls@[s] > 0);
                assert(tally(self.in_flight@, in_slot(s)) >= 0);
            }
            assert forall|s: int| 0 <= s < self.slots@.len() && (#[trigger] self.slots@[s]) is Free
                implies self.free_slots@.contains(s as usize) by {
                assert(before.slots@[s] is Free);
                assert(before.free_slots@.contains(s as usize));
                let i = choose|i: int|
                    0 <= i < before.free_slots@.len() && before.free_slots@[i] == s as usize;
                assert(self.free_slots@[i - 1] == s as usize);
            }
            assert forall|i: int| 0 <= i < self.free_slots@.len() implies (
            #[trigger] self.free_slots@[i]) < self.slots@.len()
                && self.slots@[self.free_slots@[i] as int] is Free by {
                assert(self.free_slots@[i] == before.free_slots@[i + 1]);
                assert(before.free_slots@[i + 1] != before.free_slots@[0]);
            }
            assert forall|i: int| 0 <= i < self.in_flight@.len() implies (
            #[trigger] self.in_flight@[i]) < self.slots@.len() by {
                if i < before.in_flight@.len() {
                    assert(self.in_flight@[i] == before.in_flight@[i]);
                }
            }
        }
        Post {
            slot,
            file_idx,
            n,
            offset,
            read: c.is_owner,
            broadcaster: c.broadcaster,
            calls,
        }
    }

    /// Whether a write of a chunk of `file_idx` from `slot` is under way.
    pub fn is_writing(&self, slot: usize, file_idx: usize) -> (out: bool)
        ensures
            out == (slot < self.slots@.len() && self.slots@[slot as int] == (SlotUse::Writing {
                file_idx,
            })),
    {
        if slot >= self.slots.len() {
            return false;
        }
        match self.slots[slot] {
            SlotUse::Writing { file_idx: f } => f == file_idx,
            _ => false,
        }
    }

    /// A write was acknowledged: its slot is free again. Says whether the file is finished and
    /// closed.
    pub fn on_ack(&mut self, slot: usize, file_idx: usize) -> (close: bool)
        requires
            old(self).wf(),
            slot < old(self).slots@.len(),
            old(self).slots@[slot as int] == (SlotUse::Writing { file_idx }),
        ensures
            final(self).wf(),
            final(self).same_job(old(self)),
            ({
                let f = old(self).files@[file_idx as int];
                let after = FileState { writes_in_flight: (f.writes_in_flight - 1) as usize, ..f };
                &&& close == finished(after)
                &&& final(self).files@ == old(self).files@.update(file_idx as int, settled(after))
            }),
            final(self).slots@ == old(self).slots@.update(slot as int, SlotUse::Free),
            final(self).free_slots@ == old(self).free_slots@.push(slot),
            final(self).writes_pending == old(self).writes_pending - 1,
            final(self).in_flight@ == old(self).in_flight@,
            final(self).active == old(self).active,
            final(self).next_plan_idx == old(self).next_plan_idx,
    {
        let ghost before = *self;
        proof {
            assert(before.file_ok(file_idx as int));
            lemma_tally_positive(before.slots@, writes_to(file_idx as int), slot as int);
            lemma_tally_positive(before.slots@, writing(), slot as int);
        }
        let mut f = self.files[file_idx];
        f = FileState { writes_in_flight: f.writes_in_flight - 1, ..f };
        let close = close_if_finished(&mut f);
        self.files.set(file_idx, f);
        self.slots.set(slot, SlotUse::Free);
        self.free_slots.push_back(slot);
        self.writes_pending = self.writes_pending - 1;
        proof {
            self.lemma_released(&before, slot, file_idx);
        }
        close
    }

    /// The invariants that hold again once a slot that was written or sent is free.
    proof fn lemma_released(&self, before: &Pipeline, slot: usize, file_idx: usize)
        requires
            before.wf(),
            slot < before.slots@.len(),
            before.slots@[slot as int] == (SlotUse::Writing { file_idx }),
            self.same_job(before),
            self.slots@ == before.slots@.update(slot as int, SlotUse::Free),
            self.slot_calls@ == before.slot_calls@,
            self.in_flight@ == before.in_flight@,
            self.free_slots@ == before.free_slots@.push(slot),
            self.next_plan_idx == before.next_plan_idx,
            self.active == before.active,
            self.writes_pending == before.writes_pending - 1,
            ({
                let f = before.files@[file_idx as int];
                let after = FileState { writes_in_flight: (f.writes_in_flight - 1) as usize, ..f };
                self.files@ == before.files@.update(file_idx as int, settled(after))
            }),
            before.files@[file_idx as int].writes_in_flight > 0,
        ensures
            self.wf(),
    {
        assert forall|g: int| 0 <= g < self.files@.len() implies #[trigger] self.file_ok(g) by {
            assert(before.file_ok(g));
            lemma_tally_update(before.slots@, sends(g), slot as int, SlotUse::Free);
            lemma_tally_update(before.slots@, writes_to(g), slot as int, SlotUse::Free);
        }
        lemma_tally_update(before.slots@, writing(), slot as int, SlotUse::Free);
        assert(before.slots@[slot as int] is Writing);
        lemma_free_after_push(before, self, slot);
        assert forall|s: int| 0 <= s < self.slots@.len() implies ({
            &&& self.slot_calls@[s] == tally(self.in_flight@, in_slot(s))
            &&& (#[trigger] self.slots@[s]) is Sending <==> self.slot_calls@[s] > 0
            &&& self.slots@[s] is Sending ==> self.slots@[s]->Sending_file_idx < self.files@.len()
            &&& self.slots@[s] is Writing ==> self.slots@[s]->Writing_file_idx < self.files@.len()
        }) by {
            assert(before.slots@[s] is Sending <==> before.slot_calls@[s] > 0);
        }
    }

    /// A broadcast call has completed: the one at `index` of `in_flight`, whose place the last
    /// one takes.
    #[verifier::rlimit(60)]
    pub fn on_complete(&mut self, index: usize) -> (out: Arrival)
        requires
            old(self).wf(),
            index < old(self).in_flight@.len(),
        ensures
            final(self).wf(),
            final(self).same_job(old(self)),
            final(self).in_flight@ == old(self).in_flight@.update(
                index as int,
                old(self).in_flight@.last(),
            ).drop_last(),
            final(self).active == old(self).active,
            final(self).next_plan_idx == old(self).next_plan_idx,
            ({
                let slot = old(self).in_flight@[index as int];
                let u = old(self).slots@[slot as int];
                let file_idx = u->Sending_file_idx;
                let f = old(self).files@[file_idx as int];
                let here = FileState { chunks_in_flight: (f.chunks_in_flight - 1) as usize, ..f };
                &&& u is Sending
                &&& if tally(old(self).in_flight@, in_slot(slot as int)) > 1 {
                    &&& out is Partial
                    &&& final(self).files@ == old(self).files@
                    &&& final(self).slots@ == old(self).slots@
                    &&& final(self).free_slots@ == old(self).free_slots@
                    &&& final(self).writes_pending == old(self).writes_pending
                } else if f.needs_write {
                    &&& out == (Arrival::Write {
                        file_idx,
                        slot,
                        n: u->Sending_n,
                        offset: u->Sending_offset,
                    })
                    &&& final(self).files@ == old(self).files@.update(
                        file_idx as int,
                        FileState { writes_in_flight: (f.writes_in_flight + 1) as usize, ..here },
                    )
                    &&& final(self).slots@ == old(self).slots@.update(
                        slot as int,
                        SlotUse::Writing { file_idx },
                    )
                    &&& final(self).free_slots@ == old(self).free_slots@
                    &&& final(self).writes_pending == old(self).writes_pending + 1
                } else {
                    &&& out == (Arrival::Release { file_idx, slot, close: finished(here) })
                    &&& final(self).files@ == old(self).files@.update(
                        file_idx as int,
                        settled(here),
                    )
                    &&& final(self).slots@ == old(self).slots@.update(slot as int, SlotUse::Free)
                    &&& final(self).free_slots@ == old(self).free_slots@.push(slot)
                    &&& final(self).writes_pending == old(self).writes_pending
                }
            }),
    {
        let ghost before = *self;
        let slot = self.in_flight.swap_remove(index);
        proof {
            assert(slot == before.in_flight@[index as int]);
            assert(slot < before.slots@.len());
            lemma_tally_positive(before.in_flight@, in_slot(slot as int), index as int);
            assert(before.slot_calls@[slot as int] > 0 && before.slots@[slot as int] is Sending);
            assert forall|s: int| 0 <= s < before.slots@.len() implies tally(
                self.in_flight@,
                #[trigger] in_slot(s),
            ) + (if s == slot {
                1nat
            } else {
                0
            }) == tally(before.in_flight@, in_slot(s)) by {
                lemma_tally_swap_remove(before.in_flight@, in_slot(s), index as int);
            }
            assert forall|i: int| 0 <= i < self.in_flight@.len() implies (
            #[trigger] self.in_flight@[i]) < before.slots@.len() by {
                if i == index {
                    assert(self.in_flight@[i] == before.in_flight@[before.in_flight@.len() - 1]);
                } else {
                    assert(self.in_flight@[i] == before.in_flight@[i]);
                }
            }
        }
        let calls = self.slot_calls[slot];
        self.slot_calls.set(slot, calls - 1);
        if calls > 1 {
            proof {
                assert forall|g: int| 0 <= g < self.files@.len() implies #[trigger] self.file_ok(
                    g,
                ) by {
                    assert(before.file_ok(g));
                }
                assert forall|s: int| 0 <= s < self.slots@.len() implies ({
                    &&& self.slot_calls@[s] == tally(self.in_flight@, in_slot(s))
                    &&& (#[trigger] self.slots@[s]) is Sending <==> self.slot_calls@[s] > 0
                    &&& self.slots@[s] is Sending ==> self.slots@[s]->Sending_file_idx
                        < self.files@.len()
                    &&& self.slots@[s] is Writing ==> self.slots@[s]->Writing_file_idx
                        < self.files@.len()
                }) by {
                    assert(before.slots@[s] is Sending <==> before.slot_calls@[s] > 0);
                    assert(tally(self.in_flight@, in_slot(s)) >= 0);
                }
            }
            return Arrival::Partial;
        }
        let (file_idx, n, offset) = match self.slots[slot] {
            SlotUse::Sending { file_idx, n, offset } => (file_idx, n, offset),
            _ => (0, 0, 0),
        };
        proof {
            assert(before.file_ok(file_idx as int));
            lemma_tally_positive(before.slots@, sends(file_idx as int), slot as int);
            lemma_tally_update(
                before.slots@,
                writes_to(file_idx as int),
                slot as int,
                SlotUse::Writing { file_idx },
            );
            lemma_tally_bound(
                before.slots@.update(slot as int, SlotUse::Writing { file_idx }),
                writes_to(file_idx as int),
            );
            lemma_tally_update(
                before.slots@,
                writing(),
                slot as int,
                SlotUse::Writing { file_idx },
            );
            lemma_tally_bound(
                before.slots@.update(slot as int, SlotUse::Writing { file_idx }),
                writing(),
            );
        }
        let f = self.files[file_idx];
        let here = FileState { chunks_in_flight: f.chunks_in_flight - 1, ..f };
        if f.needs_write {
            self.files.set(
                file_idx,
                FileState { writes_in_flight: f.writes_in_flight + 1, ..here },
            );
            self.slots.set(slot, SlotUse::Writing { file_idx });
            self.writes_pending = self.writes_pending + 1;
            proof {
                self.lemma_arrived(&before, slot, file_idx, SlotUse::Writing { file_idx });
                assert forall|s: int|
                    0 <= s < self.slots@.len() && (#[trigger] self.slots@[s]) is Free implies self.free_slots@.contains(
                s as usize) by {
                    assert(before.slots@[s] is Free);
                }
                assert forall|i: int| 0 <= i < self.free_slots@.len() implies (
                #[trigger] self.free_slots@[i]) < self.slots@.len()
                    && self.slots@[self.free_slots@[i] as int] is Free by {
                    assert(before.slots@[before.free_slots@[i] as int] is Free);
                }
            }
            Arrival::Write { file_idx, slot, n, offset }
        } else {
            let mut done = here;
            let close = close_if_finished(&mut done);
            self.files.set(file_idx, done);
            self.slots.set(slot, SlotUse::Free);
            self.free_slots.push_back(slot);
            proof {
                lemma_tally_update(before.slots@, writing(), slot as int, SlotUse::Free);
                self.lemma_arrived(&before, slot, file_idx, SlotUse::Free);
                lemma_free_after_push(&before, self, slot);
            }
            Arrival::Release { file_idx, slot, close }
        }
    }

    /// The invariants of the files and the calls once the last call of a slot has completed.
    proof fn lemma_arrived(&self, before: &Pipeline, slot: usize, file_idx: usize, u: SlotUse)
        requires
            before.wf(),
            slot < before.slots@.len(),
            before.slots@[slot as int] is Sending,
            before.slots@[slot as int]->Sending_file_idx == file_idx,
            before.slot_calls@[slot as int] == 1,
            u == SlotUse::Free || u == (SlotUse::Writing { file_idx }),
            self.same_job(before),
            self.slots@ == before.slots@.update(slot as int, u),
            self.slot_calls@ == before.slot_calls@.update(slot as int, 0),
            forall|s: int|
                0 <= s < before.slots@.len() ==> tally(self.in_flight@, #[trigger] in_slot(s)) + (
                if s == slot {
                    1nat
                } else {
                    0
                }) == tally(before.in_flight@, in_slot(s)),
            forall|i: int|
                0 <= i < self.in_flight@.len() ==> (#[trigger] self.in_flight@[i])
                    < before.slots@.len(),
            self.next_plan_idx == before.next_plan_idx,
            self.active == before.active,
            before.files@[file_idx as int].chunks_in_flight > 0,
            ({
                let f = before.files@[file_idx as int];
                let here = FileState { chunks_in_flight: (f.chunks_in_flight - 1) as usize, ..f };
                if u is Free {
                    self.files@ == before.files@.update(file_idx as int, settled(here))
                } else {
                    &&& f.writes_in_flight < usize::MAX
                    &&& self.files@ == before.files@.update(
                        file_idx as int,
                        FileState { writes_in_flight: (f.writes_in_flight + 1) as usize, ..here },
                    )
                }
            }),
        ensures
            self.files_ok(),
            self.calls_ok(),
            self.plan_ok(),
            self.cursor_ok(),
    {
        assert(before.file_ok(file_idx as int));
        assert forall|g: int| 0 <= g < self.files@.len() implies #[trigger] self.file_ok(g) by {
            assert(before.file_ok(g));
            lemma_tally_update(before.slots@, sends(g), slot as int, u);
            lemma_tally_update(before.slots@, writes_to(g), slot as int, u);
        }
        assert forall|s: int| 0 <= s < self.slots@.len() implies ({
            &&& self.slot_calls@[s] == tally(self.in_flight@, in_slot(s))
            &&& (#[trigger] self.slots@[s]) is Sending <==> self.slot_calls@[s] > 0
            &&& self.slots@[s] is Sending ==> self.slots@[s]->Sending_file_idx < self.files@.len()
            &&& self.slots@[s] is Writing ==> self.slots@[s]->Writing_file_idx < self.files@.len()
        }) by {
            assert(before.slots@[s] is Sending <==> before.slot_calls@[s] > 0);
            assert(tally(self.in_flight@, in_slot(s)) >= 0);
        }
    }

    /// What the pipeline waits for: a call that is under way, else a write that is under way.
    pub fn phase(&self) -> (out: Phase)
        requires
            self.wf(),
        ensures
            out is Done <==> self.done(),
            out is WaitRequest <==> self.in_flight@.len() > 0,
            out is WaitAck <==> self.in_flight@.len() == 0 && self.writes_pending > 0,
            out is Refill <==> self.in_flight@.len() == 0 && self.writes_pending == 0
                && !self.done(),
            out is Refill ==> self.can_fill(),
    {
        proof {
            if self.in_flight@.len() == 0 && !self.done() && !self.can_fill() {
                law_no_deadlock(self);
            }
        }
        if self.in_flight.len() > 0 {
            Phase::WaitRequest
        } else if self.writes_pending > 0 {
            Phase::WaitAck
        } else if self.next_plan_idx >= self.plan.len() && self.active.is_none() {
            Phase::Done
        } else {
            Phase::Refill
        }
    }
}

proof fn lemma_tally_repeated(s: Seq<usize>, slot: usize, n: nat, x: int)
    ensures
        tally(s + repeated(slot, n), in_slot(x)) == tally(s, in_slot(x)) + if x == slot {
            n
        } else {
            0
        },
    decreases n,
{
    if n == 0 {
        assert(s + repeated(slot, 0) == s);
    } else {
        let m = (n - 1) as nat;
        lemma_tally_repeated(s, slot, m, x);
        assert((s + repeated(slot, n)).drop_last() == s + repeated(slot, m));
        assert((s + repeated(slot, n)).last() == slot);
    }
}

proof fn lemma_free_after_push(before: &Pipeline, after: &Pipeline, slot: usize)
    requires
        before.free_ok(),
        slot < before.slots@.len(),
        !(before.slots@[slot as int] is Free),
        after.slots@ == before.slots@.update(slot as int, SlotUse::Free),
        after.free_slots@ == before.free_slots@.push(slot),
    ensures
        after.free_ok(),
{
    let b = before.free_slots@;
    let a = after.free_slots@;
    assert forall|i: int| 0 <= i < a.len() implies (#[trigger] a[i]) < after.slots@.len()
        && after.slots@[a[i] as int] is Free by {
        if i < b.len() {
            assert(a[i] == b[i]);
        }
    }
    assert forall|s: int| 0 <= s < after.slots@.len() && (#[trigger] after.slots@[s]) is Free
        implies a.contains(s as usize) by {
        if s == slot {
            assert(a[b.len() as int] == slot);
        } else {
            assert(before.slots@[s] is Free);
            let i = choose|i: int| 0 <= i < b.len() && b[i] == s as usize;
            assert(a[i] == s as usize);
        }
    }
    assert forall|i: int, j: int| 0 <= i < a.len() && 0 <= j < a.len() && i != j implies a[i]
        != a[j] by {
        if i < b.len() {
            assert(b[i] == a[i]);
        }
        if j < b.len() {
            assert(b[j] == a[j]);
        }
    }
}

/// A pipeline with nothing left to fill and no request under way waits only for writes that
/// were handed out: it never waits for nothing.
pub proof fn law_no_deadlock(p: &Pipeline)
    requires
        p.wf(),
        p.in_flight@.len() == 0,
        !p.can_fill(),
        !p.done(),
    ensures
        p.writes_pending > 0,
{
    if p.free_slots@.len() == 0 {
        let s = p.slots@[0];
        assert(!(p.slots@[0] is Free)) by {
            if p.slots@[0] is Free {
                assert(p.free_slots@.contains(0usize));
            }
        }
        lemma_tally_bound(p.in_flight@, in_slot(0));
        assert(p.slots@[0] is Writing);
        lemma_tally_positive(p.slots@, writing(), 0);
    }
}

proof fn lemma_chunk_place(plan: Seq<ShardSpec>, chunk: usize, i: int, k: int)
    requires
        0 <= i < plan.len(),
        0 <= k < chunk_count(plan[i].byte_len, chunk),
    ensures
        all_chunks(plan.take(i), chunk).len() + k < all_chunks(plan, chunk).len(),
        all_chunks(plan, chunk)[all_chunks(plan.take(i), chunk).len() + k] == chunk_of(
            plan[i],
            chunk,
            k,
        ),
    decreases plan.len(),
{
    if i < plan.len() - 1 {
        assert(plan.drop_last().take(i) =~= plan.take(i));
        lemma_chunk_place(plan.drop_last(), chunk, i, k);
    } else {
        assert(plan.take(i) =~= plan.drop_last());
    }
}

/// Chunks go out in the order of the plan, each of them once, whatever arrives or is written
/// when: the next one that is posted is the next one of the plan. So all ranks that hold one
/// plan take part in the same broadcasts in the same order.
pub proof fn law_chunks_go_out_in_order(before: Pipeline, after: Pipeline, step: Fill)
    requires
        before.wf(),
        after.same_job(&before),
        filled(before, after, step),
    ensures
        match step {
            Fill::Post(p) => {
                let all = all_chunks(before.plan@, before.chunk);
                &&& 0 <= before.chunks_posted() < all.len()
                &&& all[before.chunks_posted()] == (Chunk {
                    file_idx: p.file_idx as int,
                    offset: p.offset as int,
                    len: p.n as int,
                    broadcaster: p.broadcaster as int,
                })
                &&& after.chunks_posted() == before.chunks_posted() + 1
            },
            _ => after.chunks_posted() == before.chunks_posted(),
        },
{
    let plan = before.plan@;
    let n = before.next_plan_idx as int;
    match step {
        Fill::Idle => {},
        Fill::Begin(_) => {
            assert(plan.take(n + 1).drop_last() =~= plan.take(n));
            if plan[n].byte_len > 0 {
                vstd::arithmetic::div_mod::lemma_div_basics(before.chunk as int);
            } else {
                assert(shard_chunks(plan[n], before.chunk) =~= Seq::<Chunk>::empty());
            }
        },
        Fill::Post(p) => {
            let c = before.active->0;
            let m = before.chunk as int;
            let s = plan[n - 1];
            let k = c.next_post_offset as int / m;
            vstd::arithmetic::div_mod::lemma_fundamental_div_mod(c.next_post_offset as int, m);
            assert(k * m == m * k) by (nonlinear_arith);
            lemma_chunk_index(s.byte_len, before.chunk, k);
            lemma_chunk_place(plan, before.chunk, n - 1, k);
            assert(plan.take(n).drop_last() =~= plan.take(n - 1));
            if s.byte_len - c.next_post_offset > m {
                vstd::arithmetic::div_mod::lemma_div_plus_one(c.next_post_offset as int, m);
            }
        },
    }
}

proof fn lemma_chunk_index(len: u64, chunk: usize, k: int)
    requires
        chunk > 0,
        0 <= k,
        k * chunk < len,
    ensures
        k < chunk_count(len, chunk),
        len - k * chunk <= chunk ==> k + 1 == chunk_count(len, chunk),
{
    let n = shards::piece_count(len, chunk as u64);
    shards::lemma_piece_count(len, chunk as u64);
    shards::law_pieces_cover_file(0, len, chunk as u64, n - 1);
    shards::law_piece_lengths(0, len, chunk as u64, n - 1);
    shards::lemma_piece_bounds(len, chunk as u64, n - 1);
    if k >= n {
        assert(k * chunk >= n * chunk) by (nonlinear_arith)
            requires
                k >= n,
                chunk > 0,
        ;
        assert(n * chunk == (n - 1) * chunk + chunk) by (nonlinear_arith);
    } else if k + 1 < n {
        shards::lemma_piece_bounds(len, chunk as u64, k);
    }
}

/// A new pipeline has posted nothing, and one that is done has posted every chunk of its plan.
pub proof fn law_done_means_all_posted(p: Pipeline)
    requires
        p.wf(),
    ensures
        p.next_plan_idx == 0 && p.active is None ==> p.chunks_posted() == 0,
        p.done() ==> p.chunks_posted() == all_chunks(p.plan@, p.chunk).len(),
{
    if p.done() {
        assert(p.plan@.take(p.plan@.len() as int) =~= p.plan@);
    }
}

/// The chunks of a shard are adjacent and cover it.
pub proof fn law_chunks_cover_shard(s: ShardSpec, chunk: usize, k: int)
    requires
        chunk > 0,
        0 <= k < chunk_count(s.byte_len, chunk),
    ensures
        chunk_of(s, chunk, 0).offset == s.byte_offset,
        0 < chunk_of(s, chunk, k).len <= chunk,
        chunk_of(s, chunk, k).offset + chunk_of(s, chunk, k).len == if k + 1 < chunk_count(
            s.byte_len,
            chunk,
        ) {
            chunk_of(s, chunk, k + 1).offset
        } else {
            s.byte_offset + s.byte_len
        },
{
    shards::law_pieces_cover_file(s.file_idx as int, s.byte_len, chunk as u64, k);
    shards::law_piece_lengths(s.file_idx as int, s.byte_len, chunk as u64, k);
}

/// When the pipeline is done, every file that this rank writes was opened and is closed, and
/// every buffer is free again.
pub proof fn law_done_means_written(p: &Pipeline, f: int)
    requires
        p.wf(),
        p.done(),
        0 <= f < p.files@.len(),
    ensures
        p.files@[f].shards_posted == p.files@[f].shards_total,
        p.files@[f].needs_write && p.files@[f].shards_total > 0 ==> p.files@[f].opened
            && p.files@[f].closed,
        forall|s: int| 0 <= s < p.slots@.len() ==> (#[trigger] p.slots@[s]) is Free,
{
    assert(p.file_ok(f));
    assert(p.plan@.take(p.plan@.len() as int) == p.plan@);
    assert forall|s: int| 0 <= s < p.slots@.len() implies (#[trigger] p.slots@[s]) is Free by {
        lemma_tally_bound(p.in_flight@, in_slot(s));
        if p.slots@[s] is Writing {
            lemma_tally_positive(p.slots@, writing(), s);
        }
    }
    lemma_tally_bound(p.slots@, sends(f));
    lemma_tally_bound(p.slots@, writes_to(f));
}

/// A file is closed only after all its shards were posted and all its chunks were written, and
/// nothing of it is posted after that.
pub proof fn law_closed_is_final(p: &Pipeline, f: int)
    requires
        p.wf(),
        0 <= f < p.files@.len(),
        p.files@[f].closed,
    ensures
        tally(p.plan@.take(p.posted()), of_file(f)) == tally(p.plan@, of_file(f)),
        p.active matches Some(c) ==> c.file_idx != f,
        forall|s: int|
            0 <= s < p.slots@.len() ==> match #[trigger] p.slots@[s] {
                SlotUse::Free => true,
                SlotUse::Sending { file_idx, .. } => file_idx != f,
                SlotUse::Writing { file_idx } => file_idx != f,
            },
        forall|i: int| p.next_plan_idx <= i < p.plan@.len() ==> (#[trigger] p.plan@[i]).file_idx != f,
{
    assert(p.file_ok(f));
    assert forall|i: int| p.posted() <= i < p.plan@.len() implies (#[trigger] p.plan@[i]).file_idx
        != f by {
        if p.plan@[i].file_idx == f {
            lemma_tally_take(p.plan@, of_file(f), i);
            lemma_tally_monotone(p.plan@, of_file(f), i + 1);
            lemma_tally_monotone(p.plan@.take(i), of_file(f), p.posted());
            assert(p.plan@.take(i).take(p.posted()) == p.plan@.take(p.posted()));
        }
    }
    if p.active is Some {
        assert(p.plan@[p.next_plan_idx - 1].file_idx != f);
    }
    assert forall|s: int| 0 <= s < p.slots@.len() implies match #[trigger] p.slots@[s] {
        SlotUse::Free => true,
        SlotUse::Sending { file_idx, .. } => file_idx != f,
        SlotUse::Writing { file_idx } => file_idx != f,
    } by {
        if sends(f)(p.slots@[s]) {
            lemma_tally_positive(p.slots@, sends(f), s);
        }
        if writes_to(f)(p.slots@[s]) {
            lemma_tally_positive(p.slots@, writes_to(f), s);
        }
    }
}

/// Where shards and chunks are aligned, every chunk of a shard but its last one begins and ends
/// at a multiple of the alignment, and the last one begins at one.
pub proof fn law_chunks_are_aligned(byte_offset: int, next: int, chunk: int, k: int)
    requires
        0 <= byte_offset,
        0 <= k,
        chunk > 0,
        chunk % (ALIGN as int) == 0,
        byte_offset % (ALIGN as int) == 0,
        next == k * chunk,
    ensures
        (byte_offset + next) % (ALIGN as int) == 0,
        (byte_offset + next + chunk) % (ALIGN as int) == 0,
{
    let a = ALIGN as int;
    let q = chunk / a;
    let b = byte_offset / a;
    assert(chunk == a * q);
    assert(byte_offset == a * b);
    assert(k * (a * q) == a * (k * q)) by (nonlinear_arith);
    assert(a * (b + k * q) == a * b + a * (k * q)) by (nonlinear_arith);
    vstd::arithmetic::div_mod::lemma_mod_multiples_basic(b + k * q, a);
    assert(a * (b + k * q) == (b + k * q) * a) by (nonlinear_arith);
    assert(a * (b + k * q + q) == a * (b + k * q) + a * q) by (nonlinear_arith);
    vstd::arithmetic::div_mod::lemma_mod_multiples_basic(b + k * q + q, a);
    assert(a * (b + k * q + q) == (b + k * q + q) * a) by (nonlinear_arith);
}

/// Marks a finished file as closed, and says whether it was one.
fn close_if_finished(f: &mut FileState) -> (close: bool)
    ensures
        close == finished(*old(f)),
        *final(f) == settled(*old(f)),
{
    if !f.opened || f.closed || f.shards_posted != f.shards_total || f.chunks_in_flight != 0
        || f.writes_in_flight != 0 {
        return false;
    }
    f.closed = true;
    true
}

/// The offset and the length of each broadcast call that moves `n` bytes.
pub fn sub_bcasts(n: usize) -> (out: Vec<(usize, usize)>)
    requires
        n > 0,
    ensures
        out@ == calls_of(n as int),
        out@.len() > 0,
{
    let mut out: Vec<(usize, usize)> = Vec::new();
    let mut at: usize = 0;
    let ghost size = n as u64;
    let ghost m = MAX_SUB_BCAST as u64;
    proof {
        shards::law_pieces_cover_file(0, size, m, 0);
    }
    while at < n
        invariant
            n > 0,
            size == n,
            m == MAX_SUB_BCAST,
            at <= n,
            out@.len() <= shards::piece_count(size, m),
            out@ == calls_of(n as int).take(out@.len() as int),
            at < n ==> at == out@.len() * m && out@.len() < shards::piece_count(size, m),
            at == n ==> out@.len() == shards::piece_count(size, m),
        decreases n - at,
    {
        let sub: usize = if n - at <= MAX_SUB_BCAST {
            n - at
        } else {
            MAX_SUB_BCAST
        };
        proof {
            let k = out@.len() as int;
            shards::law_pieces_cover_file(0, size, m, k);
            shards::law_piece_lengths(0, size, m, k);
            assert(calls_of(n as int)[k] == (at, sub));
            assert(calls_of(n as int).take(k + 1) == calls_of(n as int).take(k).push((at, sub)));
            assert((k + 1) * m == k * m + m) by (nonlinear_arith);
        }
        out.push((at, sub));
        at += sub;
    }
    assert(calls_of(n as int).take(out@.len() as int) == calls_of(n as int));
    out
}

/// Whether a rank writes file `f`: it does not have it, and some shard of it comes from another
/// rank.
pub open spec fn must_write(
    sizes: Seq<u64>,
    plan: Seq<ShardSpec>,
    presence: Presence,
    rank: int,
    f: int,
) -> bool {
    !presence.bit_at(rank, f) && sizes[f] > 0 && exists|i: int|
        0 <= i < plan.len() && (#[trigger] plan[i]).file_idx == f && plan[i].owner_rank != rank
}

/// Says of each file whether this rank writes it.
pub fn needs_write_flags(
    sizes: &Vec<u64>,
    plan: &Vec<ShardSpec>,
    presence: &Presence,
    rank: usize,
) -> (out: Vec<bool>)
    requires
        presence.wf(),
        presence.num_files == sizes@.len(),
        rank < presence.world_size,
        forall|i: int| 0 <= i < plan@.len() ==> (#[trigger] plan@[i]).file_idx < sizes@.len(),
    ensures
        out@.len() == sizes@.len(),
        forall|f: int|
            0 <= f < out@.len() ==> #[trigger] out@[f] == must_write(
                sizes@,
                plan@,
                *presence,
                rank as int,
                f,
            ),
{
    let mut foreign: Vec<bool> = vec![false; sizes.len()];
    let mut i: usize = 0;
    while i < plan.len()
        invariant
            i <= plan@.len(),
            foreign@.len() == sizes@.len(),
            forall|j: int| 0 <= j < plan@.len() ==> (#[trigger] plan@[j]).file_idx < sizes@.len(),
            forall|f: int|
                0 <= f < foreign@.len() ==> (#[trigger] foreign@[f] <==> exists|j: int|
                    0 <= j < i && (#[trigger] plan@[j]).file_idx == f && plan@[j].owner_rank
                        != rank),
        decreases plan@.len() - i,
    {
        if plan[i].owner_rank != rank {
            foreign.set(plan[i].file_idx, true);
        }
        i += 1;
    }
    let mut out: Vec<bool> = Vec::new();
    let mut f: usize = 0;
    while f < sizes.len()
        invariant
            f <= sizes@.len(),
            foreign@.len() == sizes@.len(),
            out@.len() == f,
            presence.wf(),
            presence.num_files == sizes@.len(),
            rank < presence.world_size,
            forall|g: int|
                0 <= g < foreign@.len() ==> (#[trigger] foreign@[g] <==> exists|j: int|
                    0 <= j < plan@.len() && (#[trigger] plan@[j]).file_idx == g
                        && plan@[j].owner_rank != rank),
            forall|g: int|
                0 <= g < f ==> #[trigger] out@[g] == must_write(
                    sizes@,
                    plan@,
                    *presence,
                    rank as int,
                    g,
                ),
        decreases sizes@.len() - f,
    {
        let have = presence.has(rank, f);
        out.push(!have && foreign[f] && sizes[f] > 0);
        f += 1;
    }
    out
}

/// How a broadcast is run.
#[derive(Debug, Clone, Copy)]
pub struct BcastSettings {
    pub chunk: usize,
    pub depth: usize,
    pub writers: usize,
    pub direct: bool,
}

/// The settings of a broadcast: at least one slot and one writer. Direct writes need a chunk
/// that is a multiple of the alignment.
pub fn bcast_settings(
    chunk: usize,
    pipeline: usize,
    writers: usize,
    no_direct: bool,
) -> (out: std::result::Result<BcastSettings, String>)
    ensures
        match out {
            Ok(s) => (no_direct || chunk % ALIGN == 0) && s == (BcastSettings {
                chunk,
                depth: if pipeline == 0 {
                    1
                } else {
                    pipeline
                },
                writers: if writers == 0 {
                    1
                } else {
                    writers
                },
                direct: !no_direct,
            }),
            Err(e) => !no_direct && chunk % ALIGN != 0 && e@
                == "--bcast-direct requires --bcast-chunk to be a multiple of 4096 (got "@
                + text::decimal(chunk as nat) + ")"@,
        },
{
    if !no_direct && chunk % ALIGN != 0 {
        let mut e = owned("--bcast-direct requires --bcast-chunk to be a multiple of 4096 (got ");
        e.append(decimal_text(chunk as u64).as_str());
        e.append(")");
        return Err(e);
    }
    Ok(
        BcastSettings {
            chunk,
            depth: if pipeline == 0 {
                1
            } else {
                pipeline
            },
            writers: if writers == 0 {
                1
            } else {
                writers
            },
            direct: !no_direct,
        },
    )
}

/// The writer that takes the commands of a file: always the same one, so they stay in order.
pub fn writer_of(file_idx: usize, writers: usize) -> (out: usize)
    requires
        writers > 0,
    ensures
        out == file_idx % writers,
        out < writers,
{
    file_idx % writers
}

/// The first of the errors, if any.
pub open spec fn first_error(errors: Seq<Option<String>>) -> Option<Seq<char>>
    decreases errors.len(),
{
    if errors.len() == 0 {
        None
    } else if errors[0] is Some {
        text::opt_view(errors[0])
    } else {
        first_error(errors.drop_first())
    }
}

/// What a broadcast ends with: the error of the pipeline, else the first error of a writer.
pub fn bcast_outcome(pipeline: Option<String>, writers: &Vec<Option<String>>) -> (out: Option<
    String,
>)
    ensures
        text::opt_view(out) == match pipeline {
            Some(e) => Some(e@),
            None => first_error(writers@),
        },
{
    if pipeline.is_some() {
        return pipeline;
    }
    let mut i: usize = 0;
    assert(writers@.skip(0) == writers@);
    while i < writers.len()
        invariant
            i <= writers@.len(),
            pipeline is None,
            first_error(writers@) == first_error(writers@.skip(i as int)),
        decreases writers@.len() - i,
    {
        assert(writers@.skip(i as int).drop_first() == writers@.skip(i + 1));
        if writers[i].is_some() {
            return clone_opt(&writers[i]);
        }
        i += 1;
    }
    None
}

/// How many bytes a write of `n` bytes extends over.
pub open spec fn write_extent(n: int, direct: bool, cap: int) -> int {
    let len = if direct {
        shards::ceil_div(n, ALIGN as int) * ALIGN
    } else {
        n
    };
    if len <= cap {
        len
    } else {
        cap
    }
}

/// A direct write covers its chunk, and where buffers are aligned its length is too.
pub proof fn law_write_extent(n: int, direct: bool, cap: int)
    requires
        0 <= n <= cap,
    ensures
        n <= write_extent(n, direct, cap) <= cap,
        direct && cap % (ALIGN as int) == 0 ==> write_extent(n, direct, cap) % (ALIGN as int) == 0,
{
}

/// What a writer thread knows: the files that are open with their sizes, and the first error of
/// closing one.
pub struct Writer {
    pub files: HashMap<usize, u64>,
    pub direct: bool,
    pub first: Option<String>,
}

impl Writer {
    pub fn new(direct: bool) -> (out: Writer)
        ensures
            out.files@ == Map::<usize, u64>::empty(),
            out.direct == direct,
            out.first is None,
    {
        Writer { files: HashMap::new(), direct, first: None }
    }

    /// A file was opened.
    pub fn on_open(&mut self, file_idx: usize, size: u64)
        ensures
            final(self).files@ == old(self).files@.insert(file_idx, size),
            final(self).direct == old(self).direct,
            final(self).first == old(self).first,
    {
        broadcast use vstd::std_specs::hash::group_hash_axioms;

        self.files.insert(file_idx, size);
    }

    /// How many bytes to write for a chunk of `n` bytes in a buffer of `cap`; nothing where the
    /// file is not open.
    pub fn on_write(&self, file_idx: usize, n: usize, cap: usize) -> (out: Option<usize>)
        requires
            n <= cap,
            cap + ALIGN <= usize::MAX,
        ensures
            out is Some <==> self.files@.contains_key(file_idx),
            out matches Some(len) ==> len == write_extent(n as int, self.direct, cap as int),
    {
        broadcast use vstd::std_specs::hash::group_hash_axioms;

        if !self.files.contains_key(&file_idx) {
            return None;
        }
        let mut len: usize = n;
        if self.direct {
            let over: usize = n % ALIGN;
            if over != 0 {
                len = n + (ALIGN - over);
            }
        }
        if len > cap {
            len = cap;
        }
        Some(len)
    }

    /// A file is closed. Gives the size to cut it to, where direct writes may have gone past
    /// its end; nothing at all where the file is not open.
    pub fn on_close(&mut self, file_idx: usize) -> (out: Option<Option<u64>>)
        ensures
            final(self).files@ == old(self).files@.remove(file_idx),
            final(self).direct == old(self).direct,
            final(self).first == old(self).first,
            out == if old(self).files@.contains_key(file_idx) {
                Some(
                    if old(self).direct {
                        Some(old(self).files@[file_idx])
                    } else {
                        None
                    },
                )
            } else {
                None
            },
    {
        broadcast use vstd::std_specs::hash::group_hash_axioms;

        match self.files.remove(&file_idx) {
            Some(size) => {
                if self.direct {
                    Some(Some(size))
                } else {
                    Some(None)
                }
            },
            None => {
                assert(old(self).files@.remove(file_idx) == old(self).files@);
                None
            },
        }
    }

    /// Closing a file failed: the first such error is what the writer ends with.
    pub fn on_close_error(&mut self, error: String)
        ensures
            final(self).files@ == old(self).files@,
            final(self).direct == old(self).direct,
            final(self).first == match old(self).first {
                Some(e) => Some(e),
                None => Some(error),
            },
    {
        if self.first.is_none() {
            self.first = Some(error);
        }
    }
}

/// The error of a write to a file that is not open.
pub fn unknown_file_message(file_idx: usize) -> (out: String)
    ensures
        out@ == "write to unknown file_idx="@ + text::decimal(file_idx as nat),
{
    let mut out = owned("write to unknown file_idx=");
    out.append(decimal_text(file_idx as u64).as_str());
    out
}

/// The error of a write that failed.
pub fn write_message(file_idx: usize, offset: u64, error: &str) -> (out: String)
    ensures
        out@ == "write file_idx="@ + text::decimal(file_idx as nat) + " offset="@ + text::decimal(
            offset as nat,
        ) + ": "@ + error@,
{
    let mut out = owned("write file_idx=");
    out.append(decimal_text(file_idx as u64).as_str());
    out.append(" offset=");
    out.append(decimal_text(offset).as_str());
    out.append(": ");
    out.append(error);
    out
}

/// The error of an operation on a whole file: `ftruncate` or `close`.
pub fn file_message(operation: &str, file_idx: usize, error: &str) -> (out: String)
    ensures
        out@ == operation@ + " file_idx="@ + text::decimal(file_idx as nat) + ": "@ + error@,
{
    let mut out = owned(operation);
    out.append(" file_idx=");
    out.append(decimal_text(file_idx as u64).as_str());
    out.append(": ");
    out.append(error);
    out
}

/// A chunk belongs to the file of its shard and is sent by the owner of the shard.
pub proof fn law_chunks_are_sent_by_the_owner(s: ShardSpec, chunk: usize, k: int)
    ensures
        chunk_of(s, chunk, k).file_idx == s.file_idx,
        chunk_of(s, chunk, k).broadcaster == s.owner_rank,
        s.byte_len == 0 ==> shard_chunks(s, chunk).len() == 0,
        0 <= k < shard_chunks(s, chunk).len() ==> shard_chunks(s, chunk)[k] == chunk_of(
            s,
            chunk,
            k,
        ),
{
}

/// The chunks of a plan are those of its shards, one shard after the other.
pub proof fn law_chunks_go_shard_by_shard(a: Seq<ShardSpec>, b: Seq<ShardSpec>, chunk: usize)
    ensures
        all_chunks(a + b, chunk) == all_chunks(a, chunk) + all_chunks(b, chunk),
    decreases b.len(),
{
    if b.len() == 0 {
        assert(a + b =~= a);
        assert(all_chunks(a, chunk) + all_chunks(b, chunk) =~= all_chunks(a, chunk));
    } else {
        law_chunks_go_shard_by_shard(a, b.drop_last(), chunk);
        assert((a + b).drop_last() =~= a + b.drop_last());
        assert((a + b).last() == b.last());
        assert(all_chunks(a + b, chunk) =~= all_chunks(a, chunk) + all_chunks(b, chunk));
    }
}

/// The calls that move a chunk follow each other from its first byte to its last, none of them
/// longer than a gibibyte.
pub proof fn law_calls_move_the_whole_chunk(n: int, k: int)
    requires
        0 < n <= usize::MAX,
        0 <= k < calls_of(n).len(),
    ensures
        calls_of(n)[0].0 == 0,
        0 < calls_of(n)[k].1 <= 1_073_741_824,
        calls_of(n)[k].0 + calls_of(n)[k].1 == if k + 1 < calls_of(n).len() {
            calls_of(n)[k + 1].0 as int
        } else {
            n
        },
{
    let size = n as u64;
    let cap = MAX_SUB_BCAST as u64;
    shards::lemma_piece_count(size, cap);
    shards::law_pieces_cover_file(0, size, cap, 0);
    shards::law_pieces_cover_file(0, size, cap, k);
    shards::law_piece_lengths(0, size, cap, k);
    shards::lemma_piece_bounds(size, cap, k);
    if k + 1 < calls_of(n).len() {
        shards::lemma_piece_bounds(size, cap, k + 1);
    }
}

/// A chunk is read by the rank that sends it and by no other, and it is what comes next of the
/// shard that is posted.
pub proof fn law_only_the_owner_reads(before: Pipeline, after: Pipeline, p: Post)
    requires
        before.wf(),
        filled(before, after, Fill::Post(p)),
    ensures
        p.read <==> p.broadcaster == before.rank,
        before.active matches Some(c) ==> p.file_idx == c.file_idx && p.offset == c.byte_offset
            + c.next_post_offset && 0 < p.n <= before.chunk,
        before.slots@[p.slot as int] is Free,
{
    assert(before.free_slots@[0] < before.slots@.len());
}

/// A shard that begins is the next one of the plan. Its file is opened before anything of it is
/// posted, once, and only where this rank writes it; it is read only where this rank owns the
/// shard.
pub proof fn law_files_are_opened_before_they_are_written(
    before: Pipeline,
    after: Pipeline,
    b: Begin,
)
    requires
        before.wf(),
        filled(before, after, Fill::Begin(b)),
    ensures
        ({
            let s = before.plan@[before.next_plan_idx as int];
            let f = s.file_idx as int;
            &&& b.file_idx == s.file_idx
            &&& b.byte_offset == s.byte_offset
            &&& b.read <==> s.owner_rank == before.rank && s.byte_len > 0
            &&& b.open <==> before.files@[f].needs_write && !before.files@[f].opened
            &&& before.files@[f].needs_write ==> after.files@[f].opened
            &&& b.size == before.files@[f].size
        }),
{
    let s = before.plan@[before.next_plan_idx as int];
    assert(s.file_idx < before.files@.len());
}

/// A rank writes a file that it does not have and of which another rank owns a shard, and never
/// one that it has or that is empty.
pub proof fn law_ranks_write_what_they_lack(
    sizes: Seq<u64>,
    plan: Seq<ShardSpec>,
    presence: Presence,
    rank: int,
    f: int,
    i: int,
)
    ensures
        presence.bit_at(rank, f) ==> !must_write(sizes, plan, presence, rank, f),
        sizes[f] == 0 ==> !must_write(sizes, plan, presence, rank, f),
        !presence.bit_at(rank, f) && sizes[f] > 0 && 0 <= i < plan.len() && plan[i].file_idx == f
            && plan[i].owner_rank != rank ==> must_write(sizes, plan, presence, rank, f),
        (forall|k: int|
            0 <= k < plan.len() && (#[trigger] plan[k]).file_idx == f ==> plan[k].owner_rank
                == rank) ==> !must_write(sizes, plan, presence, rank, f),
{
}

/// The error that is reported is the first one, and there is none exactly where all went well.
pub proof fn law_first_error_is_reported(errors: Seq<Option<String>>, i: int)
    requires
        0 <= i <= errors.len(),
        forall|k: int| 0 <= k < i ==> (#[trigger] errors[k]) is None,
        i < errors.len() ==> errors[i] is Some,
    ensures
        i == errors.len() ==> first_error(errors) is None,
        i < errors.len() ==> first_error(errors) == Some(errors[i]->0@),
    decreases errors.len(),
{
    if i > 0 {
        let rest = errors.drop_first();
        assert(errors[0] is None);
        assert forall|k: int| 0 <= k < i - 1 implies (#[trigger] rest[k]) is None by {
            assert(rest[k] == errors[k + 1]);
        }
        if i < errors.len() {
            assert(rest[i - 1] == errors[i]);
        }
        law_first_error_is_reported(rest, i - 1);
    }
}

/// A write that is not direct has the length of its bytes; a direct one the least multiple of
/// 4096 that holds them, unless the buffer ends before.
pub proof fn law_direct_writes_are_padded(n: int, cap: int)
    requires
        0 <= n <= cap,
    ensures
        write_extent(n, false, cap) == n,
        n + 4095 <= cap ==> write_extent(n, true, cap) % 4096 == 0 && n <= write_extent(
            n,
            true,
            cap,
        ) < n + 4096,
{
}

/// A file is closed once it is open, all its shards are posted and nothing of it is under way,
/// and not before; nothing else about it changes then.
pub proof fn law_finished_files_are_closed(f: FileState)
    ensures
        settled(f).closed <==> f.closed || f.opened && f.shards_posted == f.shards_total
            && f.chunks_in_flight == 0 && f.writes_in_flight == 0,
        settled(f).opened == f.opened,
        settled(f).needs_write == f.needs_write,
        settled(f).size == f.size,
        settled(f).shards_total == f.shards_total,
        settled(f).shards_posted == f.shards_posted,
        settled(f).chunks_in_flight == f.chunks_in_flight,
        settled(f).writes_in_flight == f.writes_in_flight,
{
}

} // verus!
