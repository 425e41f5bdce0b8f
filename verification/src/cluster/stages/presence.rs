//! Which rank already has which file.
//!
//! A packed matrix: bit (rank, file) is set where the rank has the file locally with the right
//! size. Every rank computes its own row and the rows are gathered, so every rank picks the
//! same broadcaster for a file without another round trip.
use crate::cluster::cli::Compare;
use crate::engine::index;
use crate::engine::index::NameIndex;
use crate::storage::blob::models;
use crate::storage::blob::models::BlobItem;
use crate::text;
use crate::text::{chars_of, same_text};
use vstd::prelude::*;

verus! {

pub struct Presence {
    pub world_size: usize,
    pub num_files: usize,
    pub bytes_per_rank: usize,
    pub data: Vec<u8>,
}

/// Bit `k` of a byte, the least significant one first.
pub open spec fn bit(b: u8, k: int) -> bool {
    (b >> (k as u8)) & 1 == 1
}

/// How many bytes hold `n` bits.
pub open spec fn row_bytes(n: int) -> int {
    (n + 7) / 8
}

/// How many of the ranks below `n` have the file.
pub open spec fn haver_count(p: Presence, file: int, n: nat) -> nat
    decreases n,
{
    if n == 0 {
        0
    } else {
        haver_count(p, file, (n - 1) as nat) + if p.bit_at(n - 1, file) {
            1nat
        } else {
            0
        }
    }
}

impl Presence {
    pub open spec fn wf(&self) -> bool {
        &&& self.bytes_per_rank == row_bytes(self.num_files as int)
        &&& self.data@.len() == self.world_size * self.bytes_per_rank
    }

    pub open spec fn bit_at(&self, rank: int, file: int) -> bool {
        bit(self.data@[rank * self.bytes_per_rank + file / 8], file % 8)
    }

    /// The matrix whose rows stand one after the other in `data`.
    pub fn from_raw(
        world_size: usize,
        num_files: usize,
        bytes_per_rank: usize,
        data: Vec<u8>,
    ) -> (out: Presence)
        requires
            bytes_per_rank == row_bytes(num_files as int),
            data@.len() == world_size * bytes_per_rank,
        ensures
            out.wf(),
            out.world_size == world_size,
            out.num_files == num_files,
            out.data@ == data@,
    {
        Presence { world_size, num_files, bytes_per_rank, data }
    }

    /// Whether `rank` has `file`.
    pub fn has(&self, rank: usize, file: usize) -> (out: bool)
        requires
            self.wf(),
            rank < self.world_size,
            file < self.num_files,
        ensures
            out == self.bit_at(rank as int, file as int),
    {
        let total: usize = self.data.len();
        proof {
            lemma_cell(
                self.world_size as int,
                self.bytes_per_rank as int,
                rank as int,
                file as int,
                self.num_files as int,
            );
        }
        let byte: u8 = self.data[rank * self.bytes_per_rank + file / 8];
        let k: u8 = (file % 8) as u8;
        (byte >> k) & 1 == 1
    }

    /// How many ranks have `file`.
    pub fn count(&self, file: usize) -> (out: usize)
        requires
            self.wf(),
            file < self.num_files,
        ensures
            out == haver_count(*self, file as int, self.world_size as nat),
            out <= self.world_size,
    {
        let mut n: usize = 0;
        let mut r: usize = 0;
        while r < self.world_size
            invariant
                self.wf(),
                file < self.num_files,
                r <= self.world_size,
                n <= r,
                n == haver_count(*self, file as int, r as nat),
            decreases self.world_size - r,
        {
            if self.has(r, file) {
                n += 1;
            }
            r += 1;
        }
        n
    }

    /// The lowest rank that has `file`.
    pub fn first_haver(&self, file: usize) -> (out: Option<usize>)
        requires
            self.wf(),
            file < self.num_files,
        ensures
            match out {
                Some(r) => r < self.world_size && self.bit_at(r as int, file as int) && forall|q: int|
                    0 <= q < r ==> !#[trigger] self.bit_at(q, file as int),
                None => forall|q: int|
                    0 <= q < self.world_size ==> !#[trigger] self.bit_at(q, file as int),
            },
    {
        let mut r: usize = 0;
        while r < self.world_size
            invariant
                self.wf(),
                file < self.num_files,
                r <= self.world_size,
                forall|q: int| 0 <= q < r ==> !#[trigger] self.bit_at(q, file as int),
            decreases self.world_size - r,
        {
            if self.has(r, file) {
                return Some(r);
            }
            r += 1;
        }
        None
    }
}

proof fn lemma_cell(world: int, width: int, rank: int, file: int, files: int)
    requires
        0 <= rank < world,
        0 <= file < files,
        width == row_bytes(files),
    ensures
        0 <= rank * width,
        rank * width + file / 8 < world * width,
{
    assert(0 <= rank * width) by (nonlinear_arith)
        requires
            0 <= rank,
            0 <= width,
    ;
    assert(rank * width + width <= world * width) by (nonlinear_arith)
        requires
            rank + 1 <= world,
            0 <= width,
    ;
}

/// The row of a rank: bit `i` says whether it has file `i`, and the bits that are left over are
/// 0.
pub open spec fn is_row(flags: Seq<bool>, row: Seq<u8>) -> bool {
    &&& row.len() == row_bytes(flags.len() as int)
    &&& forall|i: int|
        0 <= i < row.len() * 8 ==> #[trigger] bit(row[i / 8], i % 8) == (i < flags.len()
            && flags[i])
}

proof fn lemma_set_bit(b: u8, k: u8, j: u8)
    requires
        k < 8,
        j < 8,
    ensures
        bit(b | (1u8 << k), j as int) == (j == k || bit(b, j as int)),
{
    assert(((b | (1u8 << k)) >> j) & 1 == 1u8 <==> (j == k || (b >> j) & 1 == 1u8)) by (bit_vector)
        requires
            k < 8,
            j < 8,
    ;
}

/// Packs what a rank has of each file into its row.
pub fn build_row(flags: &Vec<bool>) -> (row: Vec<u8>)
    ensures
        is_row(flags@, row@),
{
    let n: usize = flags.len();
    let width: usize = n / 8 + (if n % 8 == 0 { 0 } else { 1 });
    let mut row: Vec<u8> = vec![0u8; width];
    let mut i: usize = 0;
    proof {
        assert forall|j: int| 0 <= j < row@.len() * 8 implies !#[trigger] bit(
            row@[j / 8],
            j % 8,
        ) by {
            let z: u8 = 0;
            let k: u8 = (j % 8) as u8;
            assert((z >> k) & 1 != 1u8) by (bit_vector)
                requires
                    z == 0u8,
            ;
        }
    }
    while i < n
        invariant
            i <= n,
            n == flags@.len(),
            row@.len() == row_bytes(n as int),
            forall|j: int|
                0 <= j < row@.len() * 8 ==> #[trigger] bit(row@[j / 8], j % 8) == (j < i
                    && flags@[j]),
        decreases n - i,
    {
        if flags[i] {
            let at: usize = i / 8;
            let k: u8 = (i % 8) as u8;
            let b: u8 = row[at];
            let ghost before = row@;
            row.set(at, b | (1u8 << k));
            proof {
                assert forall|j: int| 0 <= j < row@.len() * 8 implies #[trigger] bit(
                    row@[j / 8],
                    j % 8,
                ) == (j < i + 1 && flags@[j]) by {
                    assert(bit(before[j / 8], j % 8) == (j < i && flags@[j]));
                    if j / 8 == at {
                        lemma_set_bit(b, k, (j % 8) as u8);
                    }
                }
            }
        }
        i += 1;
    }
    row
}

/// The rows one after the other.
pub open spec fn gathered(rows: Seq<Seq<u8>>) -> Seq<u8>
    decreases rows.len(),
{
    if rows.len() == 0 {
        Seq::empty()
    } else {
        gathered(rows.drop_last()) + rows.last()
    }
}

proof fn lemma_gathered(rows: Seq<Seq<u8>>, width: int)
    requires
        forall|r: int| 0 <= r < rows.len() ==> (#[trigger] rows[r]).len() == width,
        width >= 0,
    ensures
        gathered(rows).len() == rows.len() * width,
        forall|r: int, i: int|
            0 <= r < rows.len() && 0 <= i < width ==> gathered(rows)[r * width + i]
                == #[trigger] rows[r][i],
    decreases rows.len(),
{
    if rows.len() > 0 {
        let front = rows.drop_last();
        assert(forall|r: int| 0 <= r < front.len() ==> front[r] == rows[r]);
        lemma_gathered(front, width);
        assert(rows.len() * width == front.len() * width + width) by (nonlinear_arith)
            requires
                rows.len() == front.len() + 1,
        ;
        assert forall|r: int, i: int| 0 <= r < rows.len() && 0 <= i < width implies gathered(
            rows,
        )[r * width + i] == #[trigger] rows[r][i] by {
            if r < front.len() {
                assert(front[r][i] == rows[r][i]);
                assert(r * width + width <= front.len() * width) by (nonlinear_arith)
                    requires
                        r + 1 <= front.len(),
                        width >= 0,
                ;
                assert(r * width >= 0) by (nonlinear_arith)
                    requires
                        r >= 0,
                        width >= 0,
                ;
            }
        }
    }
}

/// The gathered matrix says of each rank and file what the rank said of it.
pub proof fn law_matrix_reads_rows(p: Presence, flags: Seq<Seq<bool>>, rows: Seq<Seq<u8>>)
    requires
        p.wf(),
        flags.len() == p.world_size,
        rows.len() == p.world_size,
        forall|r: int| 0 <= r < flags.len() ==> (#[trigger] flags[r]).len() == p.num_files,
        forall|r: int| 0 <= r < flags.len() ==> is_row(flags[r], #[trigger] rows[r]),
        p.data@ == gathered(rows),
    ensures
        forall|r: int, f: int|
            0 <= r < p.world_size && 0 <= f < p.num_files ==> #[trigger] p.bit_at(r, f)
                == flags[r][f],
{
    let width = p.bytes_per_rank as int;
    assert forall|r: int| 0 <= r < rows.len() implies (#[trigger] rows[r]).len() == width by {
        assert(is_row(flags[r], rows[r]));
    }
    lemma_gathered(rows, width);
    assert forall|r: int, f: int| 0 <= r < p.world_size && 0 <= f < p.num_files implies (
    #[trigger] p.bit_at(r, f)) == flags[r][f] by {
        assert(is_row(flags[r], rows[r]));
        assert(rows[r][f / 8] == gathered(rows)[r * width + f / 8]);
        assert(bit(rows[r][f / 8], f % 8) == (f < flags[r].len() && flags[r][f]));
    }
}

/// The listing of an earlier run.
pub struct Prior {
    items: Vec<BlobItem>,
    index: NameIndex,
}

/// The names of the items.
pub open spec fn names_of(items: Seq<BlobItem>) -> Seq<Seq<char>> {
    items.map_values(|b: BlobItem| b.name@)
}

impl Prior {
    pub closed spec fn wf(&self) -> bool {
        self.index.wf() && self.index.names() == names_of(self.items@)
    }

    pub closed spec fn items(&self) -> Seq<BlobItem> {
        self.items@
    }

    pub fn new(items: Vec<BlobItem>) -> (out: Prior)
        ensures
            out.wf(),
            out.items() == items@,
    {
        let mut names: Vec<Vec<char>> = Vec::new();
        let mut i: usize = 0;
        while i < items.len()
            invariant
                i <= items@.len(),
                names@.len() == i,
                forall|j: int| 0 <= j < i ==> (#[trigger] names@[j])@ == items@[j].name@,
            decreases items@.len() - i,
        {
            names.push(chars_of(items[i].name.as_str()));
            i += 1;
        }
        let index = NameIndex::new(names);
        assert(index.names() =~= names_of(items@));
        Prior { items, index }
    }
}

/// The time of the last change that a listing gives for a blob.
pub open spec fn modified_of(item: BlobItem) -> Option<Seq<char>> {
    match item.properties {
        Some(p) => text::opt_view(p.last_modified),
        None => None,
    }
}

/// Whether the blob is as the earlier listing says: the last entry of its name has the same
/// size and the same time of change. A blob of unknown size counts as one of the largest size.
pub open spec fn as_before(prior: Seq<BlobItem>, item: BlobItem) -> bool {
    exists|i: int| #[trigger]
        index::is_last(names_of(prior), item.name@, i) && (match item.properties {
            Some(p) => match p.content_length {
                Some(n) => n,
                None => u64::MAX,
            },
            None => u64::MAX,
        }) == models::size_of(prior[i]) && modified_of(item) == modified_of(prior[i])
}

fn same_opt(a: &Option<String>, b: &Option<String>) -> (out: bool)
    ensures
        out == (text::opt_view(*a) == text::opt_view(*b)),
{
    match (a, b) {
        (Some(x), Some(y)) => same_text(x.as_str(), y.as_str()),
        (None, None) => true,
        _ => false,
    }
}

fn modified(item: &BlobItem) -> (out: Option<String>)
    ensures
        text::opt_view(out) == modified_of(*item),
{
    match &item.properties {
        Some(p) => text::clone_opt(&p.last_modified),
        None => None,
    }
}

/// Whether the local file has to be looked at to tell whether this rank has the blob. Where
/// not, it does not have it.
pub fn needs_local_size(compare: Compare, prior: &Option<Prior>, item: &BlobItem) -> (out: bool)
    requires
        prior matches Some(p) ==> p.wf(),
    ensures
        out == match compare {
            Compare::Never => false,
            Compare::Size => true,
            Compare::Filelist => match *prior {
                Some(p) => as_before(p.items(), *item),
                None => false,
            },
        },
{
    match compare {
        Compare::Never => false,
        Compare::Size => true,
        Compare::Filelist => match prior {
            None => false,
            Some(p) => {
                let name = chars_of(item.name.as_str());
                match p.index.find(&name) {
                    None => {
                        proof {
                            if as_before(p.items(), *item) {
                                let i = choose|i: int| #[trigger]
                                    index::is_last(names_of(p.items()), item.name@, i);
                                assert(names_of(p.items())[i] == item.name@);
                            }
                        }
                        false
                    },
                    Some(i) => {
                        let live: u64 = match &item.properties {
                            Some(q) => match q.content_length {
                                Some(n) => n,
                                None => u64::MAX,
                            },
                            None => u64::MAX,
                        };
                        let out = live == models::item_size(&p.items[i]) && same_opt(
                            &modified(item),
                            &modified(&p.items[i]),
                        );
                        proof {
                            assert(index::is_last(names_of(p.items()), item.name@, i as int));
                            assert forall|j: int| #[trigger]
                                index::is_last(names_of(p.items()), item.name@, j) implies j
                                == i by {
                                assert(names_of(p.items())[j] == item.name@);
                                assert(names_of(p.items())[i as int] == item.name@);
                            }
                        }
                        out
                    },
                }
            },
        },
    }
}

/// What the file system says of a local path.
#[derive(Debug, Clone, Copy)]
pub struct LocalMeta {
    pub is_file: bool,
    pub len: u64,
}

/// Whether a local path is a file of the size that the listing gives.
pub fn size_matches(item: &BlobItem, local: Option<LocalMeta>) -> (out: bool)
    ensures
        out == match item.properties {
            Some(p) => match (p.content_length, local) {
                (Some(n), Some(m)) => m.is_file && m.len == n,
                _ => false,
            },
            None => false,
        },
{
    match &item.properties {
        Some(p) => match (p.content_length, local) {
            (Some(n), Some(m)) => m.is_file && m.len == n,
            _ => false,
        },
        None => false,
    }
}

/// Bit `k` of a byte is the one that is worth `2^k`.
pub proof fn law_bits_are_powers_of_two(b: u8)
    ensures
        bit(b, 0) <==> b % 2 == 1,
        bit(b, 1) <==> b / 2 % 2 == 1,
        bit(b, 2) <==> b / 4 % 2 == 1,
        bit(b, 3) <==> b / 8 % 2 == 1,
        bit(b, 4) <==> b / 16 % 2 == 1,
        bit(b, 5) <==> b / 32 % 2 == 1,
        bit(b, 6) <==> b / 64 % 2 == 1,
        bit(b, 7) <==> b / 128 % 2 == 1,
{
    assert((b >> 0u8) & 1 == b % 2 && (b >> 1u8) & 1 == b / 2 % 2 && (b >> 2u8) & 1 == b / 4 % 2
        && (b >> 3u8) & 1 == b / 8 % 2 && (b >> 4u8) & 1 == b / 16 % 2 && (b >> 5u8) & 1 == b / 32
        % 2 && (b >> 6u8) & 1 == b / 64 % 2 && (b >> 7u8) & 1 == b / 128 % 2) by (bit_vector);
}

/// A blob is as before exactly where the last entry of its name in the earlier listing has the
/// same size and the same time of change.
pub proof fn law_unchanged_blobs_are_as_before(prior: Seq<BlobItem>, item: BlobItem, i: int, n: u64)
    requires
        0 <= i < prior.len(),
        prior[i].name@ == item.name@,
        forall|k: int| i < k < prior.len() ==> (#[trigger] prior[k]).name@ != item.name@,
        item.properties is Some,
        item.properties->0.content_length == Some(n),
        prior[i].properties is Some,
        prior[i].properties->0.content_length is Some,
    ensures
        as_before(prior, item) <==> n == prior[i].properties->0.content_length->0 && text::opt_view(
            item.properties->0.last_modified,
        ) == text::opt_view(prior[i].properties->0.last_modified),
{
    let names = names_of(prior);
    assert(names[i] == item.name@);
    assert forall|k: int| i < k < names.len() implies #[trigger] names[k] != item.name@ by {
        assert(names[k] == prior[k].name@);
    }
    assert(index::is_last(names, item.name@, i));
    if as_before(prior, item) {
        let k = choose|k: int| #[trigger]
            index::is_last(names, item.name@, k) && n == models::size_of(prior[k])
                && modified_of(item) == modified_of(prior[k]);
        index::lemma_last_place(names, item.name@, i);
        index::lemma_last_place(names, item.name@, k);
        assert(i == k);
    }
}

/// A blob that the earlier listing does not name is not as before.
pub proof fn law_new_blobs_are_not_as_before(prior: Seq<BlobItem>, item: BlobItem)
    requires
        forall|k: int| 0 <= k < prior.len() ==> (#[trigger] prior[k]).name@ != item.name@,
    ensures
        !as_before(prior, item),
{
    if as_before(prior, item) {
        let names = names_of(prior);
        let k = choose|k: int| #[trigger] index::is_last(names, item.name@, k);
        assert(names[k] == prior[k].name@);
    }
}

} // verus!
