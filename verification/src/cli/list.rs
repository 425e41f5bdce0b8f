//! `azcp ls`: what a listing looks like.
use crate::cluster::filelist;
use crate::engine;
use crate::storage::blob::models;
use crate::storage::blob::models::{item_size, BlobItem, ContainerItem};
use crate::storage::location::BlobLocation;
use crate::text;
use crate::text::{decimal_text, owned};
use vstd::prelude::*;

verus! {

/// `n` spaces.
pub open spec fn spaces(n: nat) -> Seq<char> {
    Seq::new(n, |i: int| ' ')
}

/// A text with spaces behind it, up to a width.
pub open spec fn right_padded(s: Seq<char>, width: nat) -> Seq<char> {
    if s.len() < width {
        s + spaces((width - s.len()) as nat)
    } else {
        s
    }
}

/// A text with spaces before it, up to a width.
pub open spec fn left_padded(s: Seq<char>, width: nat) -> Seq<char> {
    if s.len() < width {
        spaces((width - s.len()) as nat) + s
    } else {
        s
    }
}

fn blank(n: usize) -> (out: String)
    ensures
        out@ == spaces(n as nat),
{
    let mut out = String::new();
    let mut i: usize = 0;
    assert(out@ =~= spaces(0));
    while i < n
        invariant
            i <= n,
            out@ == spaces(i as nat),
        decreases n - i,
    {
        out.push(' ');
        assert(out@ =~= spaces((i + 1) as nat));
        i += 1;
    }
    out
}

/// A text with spaces behind it, up to a width.
pub fn pad_right(s: &str, width: usize) -> (out: String)
    ensures
        out@ == right_padded(s@, width as nat),
{
    let n: usize = s.unicode_len();
    let mut out = owned(s);
    if n < width {
        out.append(blank(width - n).as_str());
    }
    out
}

/// A text with spaces before it, up to a width.
pub fn pad_left(s: &str, width: usize) -> (out: String)
    ensures
        out@ == left_padded(s@, width as nat),
{
    let n: usize = s.unicode_len();
    if n < width {
        let mut out = blank(width - n);
        out.append(s);
        out
    } else {
        owned(s)
    }
}

/// What `humansize::format_size` writes for a number of bytes in binary units.
pub uninterp spec fn human_size(n: u64) -> Seq<char>;

/// Calls `humansize::format_size` with `BINARY`. The result is a function of the number.
#[verifier::external_body]
pub(crate) fn format_size(n: u64) -> (out: String)
    ensures
        out@ == human_size(n),
{
    humansize::format_size(n, humansize::BINARY)
}

/// A number of bytes as it is shown.
pub fn size_text(n: u64) -> (out: String)
    ensures
        out@ == human_size(n),
{
    format_size(n)
}

/// A listing as it is shown.
#[derive(Debug)]
pub struct Report {
    pub lines: Vec<String>,
    pub footer: String,
    /// The footer of a listing for machines goes to standard error, so the rows stand alone.
    pub footer_to_stderr: bool,
}

pub open spec fn modified_text(m: Option<String>) -> Seq<char> {
    match m {
        Some(t) => t@,
        None => Seq::empty(),
    }
}

/// The row of a container.
pub open spec fn container_row(c: ContainerItem, machine: bool) -> Seq<char> {
    let modified = match c.properties {
        Some(p) => modified_text(p.last_modified),
        None => Seq::empty(),
    };
    if machine {
        c.name@ + "\t"@ + modified
    } else {
        "  "@ + right_padded(c.name@, 40) + " "@ + modified
    }
}

/// The row of a prefix.
pub open spec fn prefix_row(p: Seq<char>, machine: bool) -> Seq<char> {
    if machine {
        p + "\t-\tDIR"@
    } else {
        "  "@ + right_padded(p, 60) + " "@ + left_padded("<DIR>"@, 12)
    }
}

/// The row of a blob.
pub open spec fn blob_row(b: BlobItem, machine: bool) -> Seq<char> {
    let modified = match b.properties {
        Some(p) => modified_text(p.last_modified),
        None => Seq::empty(),
    };
    if machine {
        b.name@ + "\t"@ + text::decimal(models::size_of(b) as nat) + "\t"@ + modified
    } else {
        "  "@ + right_padded(b.name@, 60) + " "@ + left_padded(
            human_size(models::size_of(b)),
            12,
        ) + " "@ + modified
    }
}

fn show_modified(m: &Option<String>) -> (out: String)
    ensures
        out@ == modified_text(*m),
{
    match m {
        Some(t) => t.clone(),
        None => {
            let out = String::new();
            assert(out@ =~= Seq::<char>::empty());
            out
        },
    }
}

/// The row of a container.
pub fn container_line(c: &ContainerItem, machine: bool) -> (out: String)
    ensures
        out@ == container_row(*c, machine),
{
    let modified = match &c.properties {
        Some(p) => show_modified(&p.last_modified),
        None => {
            let none = String::new();
            assert(none@ =~= Seq::<char>::empty());
            none
        },
    };
    if machine {
        let mut out = owned(c.name.as_str());
        out.append("\t");
        out.append(modified.as_str());
        out
    } else {
        let mut out = owned("  ");
        out.append(pad_right(c.name.as_str(), 40).as_str());
        out.append(" ");
        out.append(modified.as_str());
        out
    }
}

/// The row of a prefix.
pub fn prefix_line(p: &str, machine: bool) -> (out: String)
    ensures
        out@ == prefix_row(p@, machine),
{
    if machine {
        let mut out = owned(p);
        out.append("\t-\tDIR");
        out
    } else {
        let mut out = owned("  ");
        out.append(pad_right(p, 60).as_str());
        out.append(" ");
        out.append(pad_left("<DIR>", 12).as_str());
        out
    }
}

/// The row of a blob.
pub fn blob_line(b: &BlobItem, machine: bool) -> (out: String)
    ensures
        out@ == blob_row(*b, machine),
{
    let size = item_size(b);
    let modified = match &b.properties {
        Some(p) => show_modified(&p.last_modified),
        None => {
            let none = String::new();
            assert(none@ =~= Seq::<char>::empty());
            none
        },
    };
    if machine {
        let mut out = owned(b.name.as_str());
        out.append("\t");
        out.append(decimal_text(size).as_str());
        out.append("\t");
        out.append(modified.as_str());
        out
    } else {
        let mut out = owned("  ");
        out.append(pad_right(b.name.as_str(), 60).as_str());
        out.append(" ");
        out.append(pad_left(format_size(size).as_str(), 12).as_str());
        out.append(" ");
        out.append(modified.as_str());
        out
    }
}

/// The rows of the containers.
pub open spec fn container_rows(items: Seq<ContainerItem>, machine: bool) -> Seq<Seq<char>> {
    items.map_values(|c: ContainerItem| container_row(c, machine))
}

/// The listing of the containers of an account.
pub fn containers_report(items: &Vec<ContainerItem>, machine: bool) -> (out: Report)
    ensures
        text::views(out.lines@) == container_rows(items@, machine),
        out.footer@ == text::decimal(items@.len()) + " container(s)"@,
        out.footer_to_stderr == machine,
{
    let mut lines: Vec<String> = Vec::new();
    let mut i: usize = 0;
    while i < items.len()
        invariant
            i <= items@.len(),
            lines@.len() == i,
            forall|j: int| 0 <= j < i ==> (#[trigger] lines@[j])@ == container_row(items@[j], machine),
        decreases items@.len() - i,
    {
        lines.push(container_line(&items[i], machine));
        i += 1;
    }
    assert(text::views(lines@) =~= container_rows(items@, machine));
    let mut footer = decimal_text(items.len() as u64);
    footer.append(" container(s)");
    Report { lines, footer, footer_to_stderr: machine }
}

/// The rows of a listing of blobs: first the prefixes, next the blobs.
pub open spec fn blob_rows(
    prefixes: Seq<String>,
    blobs: Seq<BlobItem>,
    machine: bool,
) -> Seq<Seq<char>> {
    prefixes.map_values(|p: String| prefix_row(p@, machine)) + blobs.map_values(
        |b: BlobItem| blob_row(b, machine),
    )
}

/// The listing of blobs and prefixes.
pub fn blobs_report(prefixes: &Vec<String>, blobs: &Vec<BlobItem>, machine: bool) -> (out: Report)
    requires
        engine::sum(models::sizes_of(blobs@)) <= u64::MAX,
    ensures
        text::views(out.lines@) == blob_rows(prefixes@, blobs@, machine),
        out.footer@ == text::decimal(prefixes@.len()) + " dir(s), "@ + text::decimal(blobs@.len())
            + " blob(s), "@ + human_size(engine::sum(models::sizes_of(blobs@)) as u64),
        out.footer_to_stderr == machine,
{
    let mut lines: Vec<String> = Vec::new();
    let mut i: usize = 0;
    while i < prefixes.len()
        invariant
            i <= prefixes@.len(),
            lines@.len() == i,
            forall|j: int| 0 <= j < i ==> (#[trigger] lines@[j])@ == prefix_row(prefixes@[j]@, machine),
        decreases prefixes@.len() - i,
    {
        lines.push(prefix_line(prefixes[i].as_str(), machine));
        i += 1;
    }
    let ghost n = prefixes@.len();
    let mut k: usize = 0;
    while k < blobs.len()
        invariant
            k <= blobs@.len(),
            n == prefixes@.len(),
            lines@.len() == n + k,
            forall|j: int| 0 <= j < n ==> (#[trigger] lines@[j])@ == prefix_row(prefixes@[j]@, machine),
            forall|j: int|
                n <= j < n + k ==> (#[trigger] lines@[j])@ == blob_row(blobs@[j - n], machine),
        decreases blobs@.len() - k,
    {
        lines.push(blob_line(&blobs[k], machine));
        k += 1;
    }
    assert(text::views(lines@) =~= blob_rows(prefixes@, blobs@, machine));
    let total = engine::download_total(blobs);
    let mut footer = decimal_text(prefixes.len() as u64);
    footer.append(" dir(s), ");
    footer.append(decimal_text(blobs.len() as u64).as_str());
    footer.append(" blob(s), ");
    footer.append(format_size(total).as_str());
    Report { lines, footer, footer_to_stderr: machine }
}

/// The prefix that a listing asks for: none where the location names a whole container.
pub fn listing_prefix(loc: &BlobLocation) -> (out: Option<String>)
    ensures
        text::opt_view(out) == if loc.path@.len() == 0 {
            None
        } else {
            Some(loc.path@)
        },
{
    if loc.path.as_str().unicode_len() == 0 {
        None
    } else {
        Some(loc.path.clone())
    }
}

/// What is said where a local path is to be listed.
pub fn local_message(path: &str) -> (out: String)
    ensures
        out@ == "Use system tools to list local path: "@ + path@,
{
    let mut out = owned("Use system tools to list local path: ");
    out.append(path);
    out
}

/// A row for machines, read as a line of a file list, says the blob again; the row of a prefix
/// says nothing there.
pub proof fn law_machine_rows_are_a_file_list(b: BlobItem, p: Seq<char>)
    requires
        filelist::survives(filelist::row_of(b)),
        !p.contains('\t'),
    ensures
        filelist::parsed_line(blob_row(b, true)) == Some(filelist::row_of(b)),
        filelist::parsed_line(prefix_row(p, true)) is None,
{
    reveal_strlit("\t");
    reveal_strlit("\t-\tDIR");
    let r = filelist::row_of(b);
    match r.modified {
        Some(_) => {
            assert(blob_row(b, true) =~= filelist::line_of(r));
            filelist::law_line_round_trip(r);
        },
        None => {
            let blank = Seq::<char>::empty();
            assert(text::trimmed(blank) =~= blank);
            filelist::lemma_line_says(r, blank);
            assert(blob_row(b, true) =~= r.name + seq!['\t'] + text::decimal(r.size as nat)
                + seq!['\t'] + blank);
        },
    }
    filelist::lemma_directory_row(p);
    assert(prefix_row(p, true) =~= p + seq!['\t', '-', '\t', 'D', 'I', 'R']);
}

/// Padding adds blanks on one side up to the width, and nothing to what is as wide already.
pub proof fn law_padding_adds_blanks(s: Seq<char>, width: nat, i: int)
    ensures
        s.len() >= width ==> right_padded(s, width) == s && left_padded(s, width) == s,
        s.len() < width ==> right_padded(s, width).len() == width && left_padded(s, width).len()
            == width,
        right_padded(s, width).take(s.len() as int) == s,
        left_padded(s, width).skip(left_padded(s, width).len() - s.len()) == s,
        s.len() <= i < width ==> right_padded(s, width)[i] == ' ',
        0 <= i < width - s.len() ==> left_padded(s, width)[i] == ' ',
{
    assert(right_padded(s, width).take(s.len() as int) =~= s);
    assert(left_padded(s, width).skip(left_padded(s, width).len() - s.len()) =~= s);
}

/// Rows for machines are the name, the size and the time with tabs between them.
pub proof fn law_machine_rows(b: BlobItem, c: ContainerItem, p: Seq<char>)
    ensures
        b.properties is Some && b.properties->0.content_length is Some
            && b.properties->0.last_modified is Some ==> blob_row(b, true) == b.name@ + "\t"@
            + text::decimal(b.properties->0.content_length->0 as nat) + "\t"@
            + b.properties->0.last_modified->0@,
        b.properties is None ==> blob_row(b, true) == b.name@ + "\t"@ + text::decimal(0) + "\t"@
            + Seq::<char>::empty(),
        c.properties is Some && c.properties->0.last_modified is Some ==> container_row(c, true)
            == c.name@ + "\t"@ + c.properties->0.last_modified->0@,
        prefix_row(p, true) == p + "\t-\tDIR"@,
{
}

/// A listing has a row for each prefix and then a row for each blob, in order.
pub proof fn law_rows_stand_in_order(
    prefixes: Seq<String>,
    blobs: Seq<BlobItem>,
    containers: Seq<ContainerItem>,
    machine: bool,
    i: int,
)
    ensures
        blob_rows(prefixes, blobs, machine).len() == prefixes.len() + blobs.len(),
        0 <= i < prefixes.len() ==> blob_rows(prefixes, blobs, machine)[i] == prefix_row(
            prefixes[i]@,
            machine,
        ),
        0 <= i < blobs.len() ==> blob_rows(prefixes, blobs, machine)[prefixes.len() + i]
            == blob_row(blobs[i], machine),
        container_rows(containers, machine).len() == containers.len(),
        0 <= i < containers.len() ==> container_rows(containers, machine)[i] == container_row(
            containers[i],
            machine,
        ),
{
}

/// Rows for people hold the name, the size and the time in columns.
pub proof fn law_rows_for_people(b: BlobItem, c: ContainerItem, p: Seq<char>)
    ensures
        b.properties is Some && b.properties->0.last_modified is Some
            && b.properties->0.content_length is Some ==> blob_row(b, false) == "  "@
            + right_padded(b.name@, 60) + " "@ + left_padded(
            human_size(b.properties->0.content_length->0),
            12,
        ) + " "@ + b.properties->0.last_modified->0@,
        c.properties is Some && c.properties->0.last_modified is Some ==> container_row(c, false)
            == "  "@ + right_padded(c.name@, 40) + " "@ + c.properties->0.last_modified->0@,
        prefix_row(p, false) == "  "@ + right_padded(p, 60) + " "@ + left_padded("<DIR>"@, 12),
{
}

} // verus!
