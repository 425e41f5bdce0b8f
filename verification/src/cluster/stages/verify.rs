//! Whether all ranks have the same files, and those that the service has.
use crate::encoding;
use crate::encoding::{base64_decode, hex};
use crate::storage::blob::models::BlobItem;
use crate::text;
use crate::text::{decimal_text, owned};
use vstd::prelude::*;

verus! {

/// The length of a digest.
pub const DIGEST_LEN: usize = 16;

/// The digest of file `i` of `n` on rank `r`, in the gathered digests of all ranks.
pub open spec fn digest_of(all: Seq<u8>, n: int, r: int, i: int) -> Seq<u8> {
    all.subrange((r * n + i) * 16, (r * n + i) * 16 + 16)
}

/// The digest that is stored with a blob, where it is one.
pub open spec fn stored_digest(e: BlobItem) -> Option<Seq<u8>> {
    match e.properties {
        Some(p) => match p.content_md5 {
            Some(s) => if exists|b: Seq<u8>| #[trigger]
                encoding::base64_of(b) == s@ && b.len() == 16 {
                Some(
                    choose|b: Seq<u8>| #[trigger] encoding::base64_of(b) == s@ && b.len() == 16,
                )
            } else {
                None
            },
            None => None,
        },
        None => None,
    }
}

/// What is said of a rank whose digest differs.
pub open spec fn rank_line(name: Seq<char>, mine: Seq<u8>, r: int, theirs: Seq<u8>) -> Seq<char> {
    name + ": rank 0 md5="@ + encoding::hex_form(mine) + " != rank "@ + text::decimal(r as nat)
        + " md5="@ + encoding::hex_form(theirs)
}

/// What is said of a stored digest that differs.
pub open spec fn blob_line(name: Seq<char>, mine: Seq<u8>, stored: Seq<u8>) -> Seq<char> {
    name + ": rank 0 md5="@ + encoding::hex_form(mine) + " != blob Content-MD5="@
        + encoding::hex_form(stored)
}

/// What is said of the ranks below `w` whose digest of file `i` differs from that of rank 0.
pub open spec fn rank_lines(
    name: Seq<char>,
    all: Seq<u8>,
    n: int,
    i: int,
    w: nat,
) -> Seq<Seq<char>>
    decreases w,
{
    if w <= 1 {
        Seq::empty()
    } else {
        let front = rank_lines(name, all, n, i, (w - 1) as nat);
        if digest_of(all, n, w - 1, i) != digest_of(all, n, 0, i) {
            front.push(
                rank_line(name, digest_of(all, n, 0, i), w - 1, digest_of(all, n, w - 1, i)),
            )
        } else {
            front
        }
    }
}

/// What a check of the first `k` files finds: what is wrong, how many stored digests were
/// checked, how many of them are right, and how many files without one are the same everywhere.
pub open spec fn findings(
    entries: Seq<BlobItem>,
    all: Seq<u8>,
    w: nat,
    k: nat,
) -> (Seq<Seq<char>>, nat, nat, nat)
    decreases k,
{
    if k == 0 {
        (Seq::empty(), 0, 0, 0)
    } else {
        let f = findings(entries, all, w, (k - 1) as nat);
        let e = entries[k - 1];
        let n = entries.len() as int;
        let lines = rank_lines(e.name@, all, n, k - 1, w);
        let mine = digest_of(all, n, 0, k - 1);
        match stored_digest(e) {
            Some(d) => if d == mine {
                (f.0 + lines, f.1 + 1, f.2 + 1, f.3)
            } else {
                ((f.0 + lines).push(blob_line(e.name@, mine, d)), f.1 + 1, f.2, f.3)
            },
            None => (f.0 + lines, f.1, f.2, f.3 + if lines.len() == 0 {
                1nat
            } else {
                0
            }),
        }
    }
}

#[derive(Debug)]
pub struct VerifyReport {
    pub files: usize,
    pub mismatches: Vec<String>,
    pub blob_md5_checked: usize,
    pub blob_md5_passed: usize,
    pub cross_rank_only: usize,
}

proof fn lemma_digest_range(n: int, w: int, r: int, i: int)
    requires
        0 <= r < w,
        0 <= i < n,
    ensures
        0 <= r * n,
        0 <= (r * n + i) * 16,
        (r * n + i) * 16 + 16 <= w * n * 16,
{
    assert(0 <= r * n) by (nonlinear_arith)
        requires
            0 <= r,
            0 <= n,
    ;
    assert(r * n + n <= w * n) by (nonlinear_arith)
        requires
            r + 1 <= w,
            0 <= n,
    ;
}

fn digest_at(all: &Vec<u8>, n: usize, w: usize, r: usize, i: usize) -> (out: Vec<u8>)
    requires
        r < w,
        i < n,
        all@.len() == w * n * 16,
    ensures
        out@ == digest_of(all@, n as int, r as int, i as int),
        out@.len() == 16,
{
    let total: usize = all.len();
    proof {
        lemma_digest_range(n as int, w as int, r as int, i as int);
    }
    let base: usize = (r * n + i) * 16;
    let mut out: Vec<u8> = Vec::new();
    let mut k: usize = 0;
    while k < 16
        invariant
            k <= 16,
            base + 16 <= all@.len(),
            out@ == all@.subrange(base as int, base + k),
            total == all@.len(),
        decreases 16 - k,
    {
        out.push(all[base + k]);
        assert(out@ =~= all@.subrange(base as int, base + k + 1));
        k += 1;
    }
    out
}

fn same_bytes(a: &Vec<u8>, b: &Vec<u8>) -> (out: bool)
    ensures
        out == (a@ == b@),
{
    if a.len() != b.len() {
        return false;
    }
    let mut i: usize = 0;
    while i < a.len()
        invariant
            i <= a@.len(),
            a@.len() == b@.len(),
            forall|j: int| 0 <= j < i ==> a@[j] == b@[j],
        decreases a@.len() - i,
    {
        if a[i] != b[i] {
            assert(a@[i as int] != b@[i as int]);
            return false;
        }
        i += 1;
    }
    assert(a@ =~= b@);
    true
}

fn read_stored(e: &BlobItem) -> (out: Option<Vec<u8>>)
    ensures
        match (out, stored_digest(*e)) {
            (Some(b), Some(d)) => b@ == d,
            (None, None) => true,
            _ => false,
        },
{
    let text = match &e.properties {
        Some(p) => match &p.content_md5 {
            Some(s) => s,
            None => return None,
        },
        None => return None,
    };
    match base64_decode(text.as_str()) {
        Some(b) => {
            proof {
                assert forall|x: Seq<u8>| #[trigger]
                    encoding::base64_of(x) == text@ implies x == b@ by {
                    encoding::law_base64_injective(x, b@);
                }
                assert(encoding::base64_of(b@) == text@);
            }
            if b.len() == DIGEST_LEN {
                Some(b)
            } else {
                None
            }
        },
        None => None,
    }
}

/// The digests of the files of one rank, one after the other.
pub fn digest_row(digests: &Vec<[u8; 16]>) -> (out: Vec<u8>)
    ensures
        out@.len() == digests@.len() * 16,
        forall|i: int|
            0 <= i < digests@.len() ==> digest_of(out@, digests@.len() as int, 0, i) == (
            #[trigger] digests@[i])@,
{
    let mut out: Vec<u8> = Vec::new();
    let ghost n = digests@.len() as int;
    let mut i: usize = 0;
    while i < digests.len()
        invariant
            n == digests@.len(),
            i <= n,
            out@.len() == i * 16,
            forall|j: int|
                0 <= j < i ==> digest_of(out@, n, 0, j) == (#[trigger] digests@[j])@,
        decreases n - i,
    {
        let ghost before = out@;
        let mut k: usize = 0;
        while k < 16
            invariant
                k <= 16,
                i < n,
                n == digests@.len(),
                before.len() == i * 16,
                out@ =~= before + digests@[i as int]@.take(k as int),
            decreases 16 - k,
        {
            out.push(digests[i][k]);
            k += 1;
        }
        assert forall|j: int| 0 <= j < i + 1 implies digest_of(out@, n, 0, j) == (
        #[trigger] digests@[j])@ by {
            if j < i {
                assert(digest_of(out@, n, 0, j) =~= digest_of(before, n, 0, j));
            } else {
                assert(digest_of(out@, n, 0, j) =~= digests@[j]@);
            }
        }
        i += 1;
    }
    out
}

/// Checks the gathered digests of all ranks: each file must be the same everywhere, and be what
/// the service has, where that is known.
pub fn verify_digests(entries: &Vec<BlobItem>, all_bytes: &Vec<u8>, world_size: usize) -> (out:
    VerifyReport)
    requires
        world_size >= 1,
        all_bytes@.len() == world_size * entries@.len() * 16,
    ensures
        out.files == entries@.len(),
        (
            text::views(out.mismatches@),
            out.blob_md5_checked as nat,
            out.blob_md5_passed as nat,
            out.cross_rank_only as nat,
        ) == findings(entries@, all_bytes@, world_size as nat, entries@.len()),
{
    let n: usize = entries.len();
    let mut mismatches: Vec<String> = Vec::new();
    let mut checked: usize = 0;
    let mut passed: usize = 0;
    let mut cross: usize = 0;
    let mut i: usize = 0;
    assert(text::views(mismatches@) =~= Seq::<Seq<char>>::empty());
    while i < n
        invariant
            n == entries@.len(),
            i <= n,
            world_size >= 1,
            all_bytes@.len() == world_size * n * 16,
            checked <= i,
            passed <= i,
            cross <= i,
            (text::views(mismatches@), checked as nat, passed as nat, cross as nat) == findings(
                entries@,
                all_bytes@,
                world_size as nat,
                i as nat,
            ),
        decreases n - i,
    {
        let ghost base = text::views(mismatches@);
        let ghost name = entries@[i as int].name@;
        let mine = digest_at(all_bytes, n, world_size, 0, i);
        let mut diverged = false;
        let mut r: usize = 1;
        assert(base + rank_lines(name, all_bytes@, n as int, i as int, 1) =~= base);
        while r < world_size
            invariant
                n == entries@.len(),
                i < n,
                1 <= r <= world_size,
                all_bytes@.len() == world_size * n * 16,
                name == entries@[i as int].name@,
                mine@ == digest_of(all_bytes@, n as int, 0, i as int),
                text::views(mismatches@) == base + rank_lines(
                    name,
                    all_bytes@,
                    n as int,
                    i as int,
                    r as nat,
                ),
                diverged == (rank_lines(name, all_bytes@, n as int, i as int, r as nat).len()
                    > 0),
            decreases world_size - r,
        {
            let theirs = digest_at(all_bytes, n, world_size, r, i);
            if !same_bytes(&theirs, &mine) {
                diverged = true;
                let mut line = owned(entries[i].name.as_str());
                line.append(": rank 0 md5=");
                line.append(hex(mine.as_slice()).as_str());
                line.append(" != rank ");
                line.append(decimal_text(r as u64).as_str());
                line.append(" md5=");
                line.append(hex(theirs.as_slice()).as_str());
                let ghost before = mismatches@;
                mismatches.push(line);
                proof {
                    let l = rank_line(name, mine@, r as int, theirs@);
                    let old_lines = rank_lines(name, all_bytes@, n as int, i as int, r as nat);
                    assert(text::views(mismatches@) =~= text::views(before).push(l));
                    assert(base + old_lines.push(l) =~= (base + old_lines).push(l));
                }
            }
            r += 1;
        }
        match read_stored(&entries[i]) {
            Some(d) => {
                checked += 1;
                if same_bytes(&d, &mine) {
                    passed += 1;
                } else {
                    let mut line = owned(entries[i].name.as_str());
                    line.append(": rank 0 md5=");
                    line.append(hex(mine.as_slice()).as_str());
                    line.append(" != blob Content-MD5=");
                    line.append(hex(d.as_slice()).as_str());
                    let ghost before = mismatches@;
                    mismatches.push(line);
                    assert(text::views(mismatches@) =~= text::views(before).push(
                        blob_line(name, mine@, d@),
                    ));
                }
            },
            None => {
                if !diverged {
                    cross += 1;
                }
            },
        }
        i += 1;
    }
    VerifyReport {
        files: n,
        mismatches,
        blob_md5_checked: checked,
        blob_md5_passed: passed,
        cross_rank_only: cross,
    }
}

impl VerifyReport {
    /// The line that sums a check up. `seconds` is the time as text.
    pub fn line(&self, seconds: &str) -> (out: String)
        ensures
            out@ == "[verify] "@ + text::decimal(self.files as nat) + " files T="@ + seconds@
                + "s: "@ + text::decimal(self.cross_rank_only as nat) + " cross-rank-OK, "@
                + text::decimal(self.blob_md5_checked as nat) + " blob-md5-checked ("@
                + text::decimal(self.blob_md5_passed as nat) + " pass), "@ + text::decimal(
                self.mismatches@.len(),
            ) + " mismatches"@,
    {
        let mut out = owned("[verify] ");
        out.append(decimal_text(self.files as u64).as_str());
        out.append(" files T=");
        out.append(seconds);
        out.append("s: ");
        out.append(decimal_text(self.cross_rank_only as u64).as_str());
        out.append(" cross-rank-OK, ");
        out.append(decimal_text(self.blob_md5_checked as u64).as_str());
        out.append(" blob-md5-checked (");
        out.append(decimal_text(self.blob_md5_passed as u64).as_str());
        out.append(" pass), ");
        out.append(decimal_text(self.mismatches.len() as u64).as_str());
        out.append(" mismatches");
        out
    }

    /// What the check ends with: an error where anything is wrong.
    pub fn result(&self) -> (out: std::result::Result<(), String>)
        ensures
            match out {
                Ok(_) => self.mismatches@.len() == 0,
                Err(e) => self.mismatches@.len() > 0 && e@ == text::decimal(
                    self.mismatches@.len(),
                ) + " verification failure(s)"@,
            },
    {
        if self.mismatches.len() == 0 {
            return Ok(());
        }
        let mut e = decimal_text(self.mismatches.len() as u64);
        e.append(" verification failure(s)");
        Err(e)
    }
}

proof fn lemma_rank_lines(name: Seq<char>, all: Seq<u8>, n: int, i: int, w: nat)
    ensures
        rank_lines(name, all, n, i, w).len() == 0 <==> forall|r: int|
            1 <= r < w ==> #[trigger] digest_of(all, n, r, i) == digest_of(all, n, 0, i),
    decreases w,
{
    if w > 1 {
        lemma_rank_lines(name, all, n, i, (w - 1) as nat);
        assert forall|r: int|
            rank_lines(name, all, n, i, w).len() == 0 && 1 <= r < w implies #[trigger] digest_of(
            all,
            n,
            r,
            i,
        ) == digest_of(all, n, 0, i) by {
            if r < w - 1 {
                assert(digest_of(all, n, r, i) == digest_of(all, n, 0, i));
            }
        }
    }
}

/// A check that finds nothing wrong means that every rank has the digest of rank 0 for every
/// file, and that it is the stored one, where there is one.
pub proof fn law_clean_check_means_equal_files(
    entries: Seq<BlobItem>,
    all: Seq<u8>,
    w: nat,
    k: nat,
    i: int,
)
    requires
        k <= entries.len(),
        findings(entries, all, w, k).0.len() == 0,
        0 <= i < k,
    ensures
        forall|r: int|
            1 <= r < w ==> #[trigger] digest_of(all, entries.len() as int, r, i) == digest_of(
                all,
                entries.len() as int,
                0,
                i,
            ),
        stored_digest(entries[i]) matches Some(d) ==> d == digest_of(
            all,
            entries.len() as int,
            0,
            i,
        ),
    decreases k,
{
    if i < k - 1 {
        law_clean_check_means_equal_files(entries, all, w, (k - 1) as nat, i);
    } else {
        lemma_rank_lines(entries[i].name@, all, entries.len() as int, i, w);
    }
}

/// The gathered digests hold those of each rank, file by file, and a stored digest is the Base64
/// form of 16 bytes.
proof fn lemma_digests(entries: Seq<BlobItem>, all: Seq<u8>, i: int, d: Seq<u8>)
    requires
        0 <= i < entries.len(),
    ensures
        digest_of(all, entries.len() as int, 0, i) == all.subrange(i * 16, i * 16 + 16),
        d.len() == 16 && entries[i].properties is Some && entries[i].properties->0.content_md5 is Some
            && entries[i].properties->0.content_md5->0@ == encoding::base64_of(d)
            ==> stored_digest(entries[i]) == Some(d),
{
    let n = entries.len() as int;
    assert(0 * n == 0) by (nonlinear_arith);
    if d.len() == 16 && entries[i].properties is Some && entries[i].properties->0.content_md5 is Some
        && entries[i].properties->0.content_md5->0@ == encoding::base64_of(d) {
        let s = entries[i].properties->0.content_md5->0@;
        assert(encoding::base64_of(d) == s && d.len() == 16);
        let e = choose|b: Seq<u8>| #[trigger] encoding::base64_of(b) == s && b.len() == 16;
        encoding::law_base64_injective(d, e);
    }
}

/// A check finds every difference: where a rank has another digest for a file than rank 0, or
/// rank 0 another one than is stored with the blob, something is wrong.
pub proof fn law_every_difference_is_found(
    entries: Seq<BlobItem>,
    all: Seq<u8>,
    w: nat,
    r: int,
    i: int,
    d: Seq<u8>,
)
    requires
        0 <= r < w,
        0 <= i < entries.len(),
        ({
            let n = entries.len() as int;
            ||| all.subrange((r * n + i) * 16, (r * n + i) * 16 + 16) != all.subrange(
                i * 16,
                i * 16 + 16,
            )
            ||| d.len() == 16 && entries[i].properties is Some
                && entries[i].properties->0.content_md5 is Some
                && entries[i].properties->0.content_md5->0@ == encoding::base64_of(d) && d
                != all.subrange(i * 16, i * 16 + 16)
        }),
    ensures
        findings(entries, all, w, entries.len()).0.len() > 0,
{
    let n = entries.len() as int;
    lemma_digests(entries, all, i, d);
    lemma_findings(entries, all, w, entries.len());
    lemma_rank_lines(entries[i].name@, all, n, i, w);
    assert(digest_of(all, n, r, i) == all.subrange((r * n + i) * 16, (r * n + i) * 16 + 16));
    assert(wrong_at(entries, all, w, i));
}

/// A check finds nothing wrong where all ranks have the digests of rank 0 for all files, and those
/// are the stored ones, where digests are stored.
pub proof fn law_equal_files_pass(entries: Seq<BlobItem>, all: Seq<u8>, w: nat)
    requires
        forall|r: int, i: int|
            0 <= r < w && 0 <= i < entries.len() ==> #[trigger] digest_of(
                all,
                entries.len() as int,
                r,
                i,
            ) == all.subrange(i * 16, i * 16 + 16),
        forall|i: int, d: Seq<u8>|
            0 <= i < entries.len() && (#[trigger] entries[i]).properties is Some
                && entries[i].properties->0.content_md5 is Some && d.len() == 16
                && entries[i].properties->0.content_md5->0@ == #[trigger] encoding::base64_of(d)
                ==> d == all.subrange(i * 16, i * 16 + 16),
    ensures
        findings(entries, all, w, entries.len()).0.len() == 0,
{
    let n = entries.len() as int;
    lemma_findings(entries, all, w, entries.len());
    assert forall|i: int| 0 <= i < entries.len() implies !#[trigger] wrong_at(
        entries,
        all,
        w,
        i,
    ) by {
        lemma_digests(entries, all, i, Seq::empty());
        lemma_rank_lines(entries[i].name@, all, n, i, w);
        if stored_digest(entries[i]) is Some {
            let s = entries[i].properties->0.content_md5->0@;
            let e = choose|b: Seq<u8>| #[trigger] encoding::base64_of(b) == s && b.len() == 16;
            assert(encoding::base64_of(e) == s && e.len() == 16);
        }
    }
}

/// Whether something is wrong with a file.
spec fn wrong_at(entries: Seq<BlobItem>, all: Seq<u8>, w: nat, i: int) -> bool {
    let n = entries.len() as int;
    rank_lines(entries[i].name@, all, n, i, w).len() > 0 || (stored_digest(entries[i]) is Some
        && stored_digest(entries[i])->0 != digest_of(all, n, 0, i))
}

proof fn lemma_findings(entries: Seq<BlobItem>, all: Seq<u8>, w: nat, k: nat)
    ensures
        findings(entries, all, w, k).0.len() == 0 <==> forall|i: int|
            0 <= i < k ==> !#[trigger] wrong_at(entries, all, w, i),
    decreases k,
{
    if k > 0 {
        let f = findings(entries, all, w, (k - 1) as nat);
        let lines = rank_lines(entries[k - 1].name@, all, entries.len() as int, k - 1, w);
        lemma_findings(entries, all, w, (k - 1) as nat);
        assert((f.0 + lines).len() == f.0.len() + lines.len());
        assert(findings(entries, all, w, k).0.len() == 0 <==> f.0.len() == 0 && !wrong_at(
            entries,
            all,
            w,
            k - 1,
        ));
        if f.0.len() == 0 && !wrong_at(entries, all, w, k - 1) {
            assert forall|i: int| 0 <= i < k implies !#[trigger] wrong_at(entries, all, w, i) by {
                assert(i < k - 1 || i == k - 1);
            }
        }
    }
}

/// How a file is counted: as checked where a digest is stored with it, as right where that is the
/// digest of rank 0, and as the same everywhere where none is stored and no rank differs.
pub proof fn law_files_are_counted(
    entries: Seq<BlobItem>,
    all: Seq<u8>,
    w: nat,
    i: int,
    d: Seq<u8>,
)
    requires
        0 <= i < entries.len(),
    ensures
        ({
            let before = findings(entries, all, w, i as nat);
            let after = findings(entries, all, w, (i + 1) as nat);
            let stored = d.len() == 16 && entries[i].properties is Some
                && entries[i].properties->0.content_md5 is Some
                && entries[i].properties->0.content_md5->0@ == encoding::base64_of(d);
            let none = entries[i].properties is None || entries[i].properties->0.content_md5
                is None;
            let mine = all.subrange(i * 16, i * 16 + 16);
            &&& stored ==> after.1 == before.1 + 1 && after.3 == before.3
            &&& stored && d == mine ==> after.2 == before.2 + 1
            &&& stored && d != mine ==> after.2 == before.2
            &&& none ==> after.1 == before.1 && after.2 == before.2
            &&& none && (forall|r: int|
                1 <= r < w ==> #[trigger] digest_of(all, entries.len() as int, r, i) == mine)
                ==> after.3 == before.3 + 1
            &&& none && (exists|r: int|
                1 <= r < w && #[trigger] digest_of(all, entries.len() as int, r, i) != mine)
                ==> after.3 == before.3
        }),
{
    lemma_digests(entries, all, i, d);
    lemma_rank_lines(entries[i].name@, all, entries.len() as int, i, w);
}

/// A complaint names the file and both digests, that of rank 0 first.
pub proof fn law_complaints_name_both_digests(
    name: Seq<char>,
    mine: Seq<u8>,
    r: int,
    theirs: Seq<u8>,
)
    requires
        r >= 0,
    ensures
        rank_line(name, mine, r, theirs) == name + ": rank 0 md5="@ + encoding::hex_form(mine)
            + " != rank "@ + text::decimal(r as nat) + " md5="@ + encoding::hex_form(theirs),
        blob_line(name, mine, theirs) == name + ": rank 0 md5="@ + encoding::hex_form(mine)
            + " != blob Content-MD5="@ + encoding::hex_form(theirs),
{
}

} // verus!
