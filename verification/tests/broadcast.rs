use azcp::cluster::stages::broadcast::{
    bcast_outcome, bcast_settings, file_message, needs_write_flags, sub_bcasts,
    unknown_file_message, write_message, writer_of, Arrival, Fill, Phase, Pipeline, Writer,
};
use azcp::cluster::stages::presence::Presence;
use azcp::cluster::stages::shards::ShardSpec;

fn shard(file_idx: usize, shard_idx: usize, off: u64, len: u64, owner_rank: usize) -> ShardSpec {
    ShardSpec {
        file_idx,
        shard_idx,
        byte_offset: off,
        byte_len: len,
        owner_rank,
    }
}

fn plan() -> Vec<ShardSpec> {
    vec![
        shard(0, 0, 0, 10, 0),
        shard(0, 1, 10, 5, 1),
        shard(1, 0, 0, 0, 0),
        shard(2, 0, 0, 4, 1),
    ]
}

fn sizes() -> Vec<u64> {
    vec![15, 0, 4]
}

/// Runs a pipeline, taking completions from the end of what is under way or from its start, and
/// gives the chunks that it posted, the chunks that it wrote and the files that it closed.
fn run(
    rank: usize,
    needs_write: Vec<bool>,
    depth: usize,
    from_end: bool,
) -> (
    Vec<(usize, u64, usize, usize)>,
    Vec<(usize, u64, usize)>,
    Vec<usize>,
) {
    let mut p = Pipeline::new(plan(), &sizes(), &needs_write, rank, 4, depth);
    let mut posted = Vec::new();
    let mut written = Vec::new();
    let mut closed = Vec::new();
    let mut opened: Vec<usize> = Vec::new();
    let mut acks: Vec<(usize, usize)> = Vec::new();
    for _ in 0..1_000 {
        match p.fill() {
            Fill::Begin(b) => {
                if b.open {
                    opened.push(b.file_idx);
                    assert_eq!(b.size, sizes()[b.file_idx]);
                }
                if b.close {
                    closed.push(b.file_idx);
                }
                continue;
            }
            Fill::Post(c) => {
                assert_eq!(c.read, c.broadcaster == rank);
                assert_eq!(c.calls, vec![(0, c.n)]);
                posted.push((c.file_idx, c.offset, c.n, c.broadcaster));
                continue;
            }
            Fill::Idle => {}
        }
        match p.phase() {
            Phase::Done => return (posted, written, closed),
            Phase::Refill => panic!("nothing is left to fill"),
            Phase::WaitAck => {
                let (slot, file_idx) = acks.remove(0);
                assert!(p.is_writing(slot, file_idx));
                if p.on_ack(slot, file_idx) {
                    closed.push(file_idx);
                }
                assert!(!p.is_writing(slot, file_idx));
            }
            Phase::WaitRequest => {
                let at = if from_end { p.in_flight.len() - 1 } else { 0 };
                match p.on_complete(at) {
                    Arrival::Partial => panic!("one call for each chunk"),
                    Arrival::Write {
                        file_idx,
                        slot,
                        n,
                        offset,
                    } => {
                        assert!(opened.contains(&file_idx) && !closed.contains(&file_idx));
                        written.push((file_idx, offset, n));
                        acks.push((slot, file_idx));
                    }
                    Arrival::Release { close, .. } => assert!(!close),
                }
            }
        }
    }
    panic!("the pipeline does not end");
}

#[test]
fn all_ranks_post_the_same_chunks() {
    let expected = vec![
        (0, 0, 4, 0),
        (0, 4, 4, 0),
        (0, 8, 2, 0),
        (0, 10, 4, 1),
        (0, 14, 1, 1),
        (2, 0, 4, 1),
    ];
    for (rank, needs) in [
        (0, vec![true, false, true]),
        (1, vec![true, false, false]),
        (2, vec![true, true, true]),
        (3, vec![false, false, false]),
    ] {
        for depth in 1..5 {
            for from_end in [false, true] {
                assert_eq!(run(rank, needs.clone(), depth, from_end).0, expected);
            }
        }
    }
}

#[test]
fn every_chunk_is_written_and_every_file_closed() {
    for depth in 1..5 {
        for from_end in [false, true] {
            let (_, mut written, mut closed) = run(2, vec![true, true, true], depth, from_end);
            written.sort();
            closed.sort();
            assert_eq!(
                written,
                vec![
                    (0, 0, 4),
                    (0, 4, 4),
                    (0, 8, 2),
                    (0, 10, 4),
                    (0, 14, 1),
                    (2, 0, 4)
                ]
            );
            assert_eq!(closed, vec![0, 1, 2]);
        }
    }
    let (_, written, closed) = run(3, vec![false, false, false], 2, false);
    assert!(written.is_empty() && closed.is_empty());
}

#[test]
fn large_chunks_take_several_calls() {
    let gib = 1usize << 30;
    assert_eq!(sub_bcasts(5), vec![(0, 5)]);
    assert_eq!(sub_bcasts(gib), vec![(0, gib)]);
    assert_eq!(sub_bcasts(2 * gib + 1), vec![(0, gib), (gib, gib), (2 * gib, 1)]);
    let plan = vec![shard(0, 0, 0, 1 + gib as u64, 0)];
    let mut p = Pipeline::new(plan, &vec![1 + gib as u64], &vec![true], 1, 2 * gib, 1);
    assert!(matches!(p.fill(), Fill::Begin(b) if b.open && !b.read));
    assert!(matches!(p.fill(), Fill::Post(c) if c.calls.len() == 2));
    assert!(matches!(p.fill(), Fill::Idle));
    assert!(matches!(p.on_complete(0), Arrival::Partial));
    assert!(matches!(p.phase(), Phase::WaitRequest));
    assert!(matches!(p.on_complete(0), Arrival::Write { n, .. } if n == gib + 1));
    assert!(matches!(p.phase(), Phase::WaitAck));
    assert!(p.on_ack(0, 0));
    assert!(matches!(p.phase(), Phase::Done));
}

#[test]
fn a_free_slot_is_refilled() {
    let plan = vec![shard(0, 0, 0, 8, 0)];
    let mut p = Pipeline::new(plan, &vec![8], &vec![true], 1, 4, 1);
    assert!(matches!(p.phase(), Phase::Refill));
    assert!(matches!(p.fill(), Fill::Begin(_)));
    assert!(matches!(p.fill(), Fill::Post(_)));
    assert!(matches!(p.on_complete(0), Arrival::Write { .. }));
    assert!(matches!(p.phase(), Phase::WaitAck));
    assert!(!p.on_ack(0, 0));
    assert!(matches!(p.phase(), Phase::Refill));
}

#[test]
fn ranks_write_what_comes_from_others() {
    let presence = Presence::from_raw(2, 3, 1, vec![0b000, 0b100]);
    assert_eq!(
        needs_write_flags(&sizes(), &plan(), &presence, 0),
        vec![true, false, true]
    );
    assert_eq!(
        needs_write_flags(&sizes(), &plan(), &presence, 1),
        vec![true, false, false]
    );
}

#[test]
fn direct_writes_need_aligned_chunks() {
    let s = bcast_settings(8192, 0, 0, false).unwrap();
    assert_eq!((s.chunk, s.depth, s.writers, s.direct), (8192, 1, 1, true));
    let s = bcast_settings(5000, 3, 2, true).unwrap();
    assert_eq!((s.chunk, s.depth, s.writers, s.direct), (5000, 3, 2, false));
    assert_eq!(
        bcast_settings(5000, 3, 2, false).unwrap_err(),
        "--bcast-direct requires --bcast-chunk to be a multiple of 4096 (got 5000)"
    );
    assert_eq!(writer_of(7, 3), 1);
}

#[test]
fn writers_pad_and_cut() {
    let mut w = Writer::new(true);
    assert_eq!(w.on_write(1, 10, 8192), None);
    w.on_open(1, 10);
    assert_eq!(w.on_write(1, 10, 8192), Some(4096));
    assert_eq!(w.on_write(1, 4096, 8192), Some(4096));
    assert_eq!(w.on_write(1, 8000, 8100), Some(8100));
    assert_eq!(w.on_close(1), Some(Some(10)));
    assert_eq!(w.on_close(1), None);
    let mut w = Writer::new(false);
    w.on_open(2, 10);
    assert_eq!(w.on_write(2, 10, 8192), Some(10));
    assert_eq!(w.on_close(2), Some(None));
    w.on_close_error("first".to_string());
    w.on_close_error("second".to_string());
    assert_eq!(w.first.as_deref(), Some("first"));
}

#[test]
fn first_error_is_told() {
    let e = |s: &str| Some(s.to_string());
    assert_eq!(bcast_outcome(e("p"), &vec![e("w")]), e("p"));
    assert_eq!(bcast_outcome(None, &vec![None, e("w"), e("x")]), e("w"));
    assert_eq!(bcast_outcome(None, &vec![None]), None);
    assert_eq!(unknown_file_message(3), "write to unknown file_idx=3");
    assert_eq!(write_message(3, 9, "no"), "write file_idx=3 offset=9: no");
    assert_eq!(file_message("close", 3, "no"), "close file_idx=3: no");
}
