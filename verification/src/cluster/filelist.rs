//! The file list: one line per blob, with its name, its size and the time of its last change,
//! separated by tabs.
use crate::storage::blob::models;
use crate::storage::blob::models::{item_size, BlobItem, BlobProperties};
use crate::text;
use crate::text::{
    chars_of, decimal_text, parse_u64, split_at_char, string_of, trim, trim_end_of,
};
use vstd::prelude::*;

verus! {

/// What a line says of a blob.
pub struct Row {
    pub name: Seq<char>,
    pub size: u64,
    pub modified: Option<Seq<char>>,
}

/// The time that the third field gives: none where it is blank or `-`.
pub open spec fn parsed_time(field: Seq<char>) -> Option<Seq<char>> {
    let t = text::trimmed(field);
    if t.len() == 0 || t == seq!['-'] {
        None
    } else {
        Some(t)
    }
}

/// What a line says, if it says anything: not where it is blank, a comment, without a name, or
/// without a size.
pub open spec fn parsed_line(raw: Seq<char>) -> Option<Row> {
    let line = text::trimmed_end_of(raw, '\r');
    let fields = text::split(line, '\t');
    if line.len() == 0 || line[0] == '#' || fields[0].len() == 0 || fields.len() < 2 {
        None
    } else {
        match text::parsed_number(fields[1], u64::MAX as nat) {
            Some(n) => Some(
                Row {
                    name: fields[0],
                    size: n as u64,
                    modified: if fields.len() < 3 {
                        None
                    } else {
                        parsed_time(fields[2])
                    },
                },
            ),
            None => None,
        }
    }
}

/// What the lines say, in order.
pub open spec fn parsed_lines(lines: Seq<Seq<char>>) -> Seq<Row>
    decreases lines.len(),
{
    if lines.len() == 0 {
        Seq::empty()
    } else {
        match parsed_line(lines[0]) {
            Some(r) => seq![r] + parsed_lines(lines.drop_first()),
            None => parsed_lines(lines.drop_first()),
        }
    }
}

/// What an entry of a listing says.
pub open spec fn row_of(item: BlobItem) -> Row {
    Row {
        name: item.name@,
        size: models::size_of(item),
        modified: match item.properties {
            Some(p) => text::opt_view(p.last_modified),
            None => None,
        },
    }
}

/// What the entries of a listing say.
pub open spec fn rows_of(items: Seq<BlobItem>) -> Seq<Row> {
    items.map_values(|b: BlobItem| row_of(b))
}

/// The line of a row.
pub open spec fn line_of(r: Row) -> Seq<char> {
    r.name + seq!['\t'] + text::decimal(r.size as nat) + seq!['\t'] + match r.modified {
        Some(t) => t,
        None => seq!['-'],
    }
}

/// The lines of the rows, each with its line feed.
pub open spec fn written(rows: Seq<Row>) -> Seq<char>
    decreases rows.len(),
{
    if rows.len() == 0 {
        Seq::empty()
    } else {
        written(rows.drop_last()) + line_of(rows.last()) + seq!['\n']
    }
}

/// Whether the entry has a size and nothing else but what a line can say.
pub open spec fn is_bare(item: BlobItem) -> bool {
    match item.properties {
        Some(p) => p.content_length is Some && p.content_type is None && p.content_md5 is None
            && p.etag is None && p.blob_type is None && p.access_tier is None,
        None => false,
    }
}

/// Writes a listing as a file list.
pub fn serialize(entries: &[BlobItem]) -> (out: String)
    ensures
        out@ == written(rows_of(entries@)),
{
    let mut out = String::new();
    let mut i: usize = 0;
    let ghost rows = rows_of(entries@);
    while i < entries.len()
        invariant
            i <= entries@.len(),
            rows == rows_of(entries@),
            out@ == written(rows.take(i as int)),
        decreases entries@.len() - i,
    {
        let e = &entries[i];
        let ghost before = out@;
        out.append(e.name.as_str());
        out.push('\t');
        out.append(decimal_text(item_size(e)).as_str());
        out.push('\t');
        match &e.properties {
            Some(p) => match &p.last_modified {
                Some(t) => out.append(t.as_str()),
                None => out.push('-'),
            },
            None => out.push('-'),
        }
        out.push('\n');
        proof {
            assert(rows.take(i + 1).drop_last() == rows.take(i as int));
            assert(rows.take(i + 1).last() == row_of(*e));
            assert(out@ =~= before + line_of(row_of(*e)) + seq!['\n']);
        }
        i += 1;
    }
    assert(rows.take(rows.len() as int) == rows);
    out
}

/// Whether `item` is the entry of `row`.
pub open spec fn is_entry(item: Option<BlobItem>, row: Option<Row>) -> bool {
    match (item, row) {
        (Some(b), Some(r)) => is_bare(b) && row_of(b) == r,
        (None, None) => true,
        _ => false,
    }
}

/// Reads one line.
fn read_line(raw: &Vec<char>) -> (out: Option<BlobItem>)
    ensures
        is_entry(out, parsed_line(raw@)),
{
    let line = trim_end_of(raw.as_slice(), '\r');
    let fields = split_at_char(line.as_slice(), '\t');
    let ghost parts = text::split(line@, '\t');
    proof {
        assert(text::pieces(fields@) == parts);
        assert(parts.len() > 0);
        assert(parts[0] == fields@[0]@);
        assert(fields@.len() == parts.len());
    }
    if line.len() == 0 || line[0] == '#' || fields[0].len() == 0 || fields.len() < 2 {
        return None;
    }
    assert(parts[1] == fields@[1]@);
    let size = match parse_u64(fields[1].as_slice()) {
        Some(n) => n,
        None => return None,
    };
    let last_modified: Option<String> = if fields.len() < 3 {
        None
    } else {
        assert(parts[2] == fields@[2]@);
        let t = trim(fields[2].as_slice());
        if t.len() == 0 || (t.len() == 1 && t[0] == '-') {
            assert(t@.len() == 1 ==> t@ =~= seq!['-']);
            None
        } else {
            assert(t@ != seq!['-']);
            Some(string_of(t.as_slice()))
        }
    };
    Some(
        BlobItem {
            name: string_of(fields[0].as_slice()),
            properties: Some(
                BlobProperties {
                    last_modified,
                    content_length: Some(size),
                    content_type: None,
                    content_md5: None,
                    etag: None,
                    blob_type: None,
                    access_tier: None,
                },
            ),
        },
    )
}

/// Reads a file list. Lines that say nothing are passed over.
pub fn deserialize(text: &str) -> (out: Vec<BlobItem>)
    ensures
        rows_of(out@) == parsed_lines(text::split(text@, '\n')),
        forall|i: int| 0 <= i < out@.len() ==> is_bare(#[trigger] out@[i]),
{
    let chars = chars_of(text);
    let lines = split_at_char(chars.as_slice(), '\n');
    let ghost parts = text::split(text@, '\n');
    let mut out: Vec<BlobItem> = Vec::new();
    let mut i: usize = 0;
    proof {
        assert(text::pieces(lines@) == parts);
        assert(lines@.len() == parts.len());
        assert(parts.skip(0) == parts);
        assert(rows_of(out@) + parsed_lines(parts) == parsed_lines(parts));
    }
    while i < lines.len()
        invariant
            i <= lines@.len(),
            text::pieces(lines@) == parts,
            rows_of(out@) + parsed_lines(parts.skip(i as int)) == parsed_lines(parts),
            forall|j: int| 0 <= j < out@.len() ==> is_bare(#[trigger] out@[j]),
        decreases lines@.len() - i,
    {
        let ghost before = out@;
        assert(parts[i as int] == lines@[i as int]@);
        proof {
            assert(parts.skip(i as int)[0] == parts[i as int]);
            assert(parts.skip(i as int).drop_first() == parts.skip(i + 1));
        }
        match read_line(&lines[i]) {
            Some(item) => {
                out.push(item);
                assert(rows_of(out@) =~= rows_of(before).push(row_of(item)));
                assert(rows_of(out@) + parsed_lines(parts.skip(i + 1)) =~= rows_of(before) + (
                seq![row_of(item)] + parsed_lines(parts.skip(i + 1))));
            },
            None => {},
        }
        i += 1;
    }
    proof {
        assert(parts.skip(i as int).len() == 0);
        assert(rows_of(out@) + parsed_lines(parts.skip(i as int)) =~= rows_of(out@));
    }
    out
}

/// Whether a row comes back as it is from its line: the name is not empty, begins no comment
/// and holds no tab or line feed; the time, where there is one, is trimmed, is not blank or
/// `-`, and holds no tab or line feed.
pub open spec fn survives(r: Row) -> bool {
    &&& r.name.len() > 0
    &&& r.name[0] != '#'
    &&& !r.name.contains('\t')
    &&& !r.name.contains('\n')
    &&& match r.modified {
        Some(t) => text::trimmed(t) == t && t.len() > 0 && t != seq!['-'] && !t.contains('\t')
            && !t.contains('\n'),
        None => true,
    }
}

proof fn lemma_split_front(a: Seq<char>, c: char, b: Seq<char>)
    requires
        !a.contains(c),
    ensures
        text::split(a + seq![c] + b, c) == seq![a] + text::split(b, c),
{
    let s = a + seq![c] + b;
    assert forall|i: int| 0 <= i < a.len() implies s[i] != c by {
        assert(a[i] == s[i]);
    }
    assert(s[a.len() as int] == c);
    text::lemma_find_is(s, c, a.len() as int);
    assert(s.take(a.len() as int) =~= a);
    assert(s.skip(a.len() as int + 1) =~= b);
}

proof fn lemma_split_none(a: Seq<char>, c: char)
    requires
        !a.contains(c),
    ensures
        text::split(a, c) == seq![a],
{
    assert forall|i: int| 0 <= i < a.len() implies a[i] != c by {}
    text::lemma_find(a, c);
}

proof fn lemma_decimal_plain(n: nat, c: char)
    requires
        !text::is_digit(c),
    ensures
        !text::decimal(n).contains(c),
{
    text::lemma_decimal_digits(n);
    if text::decimal(n).contains(c) {
        let i = choose|i: int| 0 <= i < text::decimal(n).len() && text::decimal(n)[i] == c;
        assert(text::is_digit(text::decimal(n)[i]));
    }
}

proof fn lemma_last_of_trimmed(t: Seq<char>)
    requires
        t.len() > 0,
        text::trimmed(t) == t,
    ensures
        !text::is_white(t.last()),
{
    if text::is_white(t.last()) {
        lemma_trimmed_shorter(t);
    }
}

proof fn lemma_trimmed_end_shorter(t: Seq<char>)
    requires
        t.len() > 0,
        text::is_white(t.last()),
    ensures
        text::trimmed_end(t).len() < t.len(),
{
    lemma_trimmed_end_not_longer(t.drop_last());
}

proof fn lemma_trimmed_end_not_longer(t: Seq<char>)
    ensures
        text::trimmed_end(t).len() <= t.len(),
    decreases t.len(),
{
    if t.len() > 0 && text::is_white(t.last()) {
        lemma_trimmed_end_not_longer(t.drop_last());
    }
}

proof fn lemma_trimmed_start_not_longer(t: Seq<char>)
    ensures
        text::trimmed_start(t).len() <= t.len(),
    decreases t.len(),
{
    if t.len() > 0 && text::is_white(t[0]) {
        lemma_trimmed_start_not_longer(t.drop_first());
    }
}

proof fn lemma_trimmed_shorter(t: Seq<char>)
    requires
        t.len() > 0,
        text::is_white(t.last()),
    ensures
        text::trimmed(t).len() < t.len(),
{
    let u = text::trimmed_start(t);
    lemma_trimmed_start_not_longer(t);
    lemma_trimmed_end_not_longer(u);
    lemma_trimmed_start_last(t);
    if u.len() == t.len() {
        lemma_trimmed_end_shorter(u);
    }
}

proof fn lemma_trimmed_start_last(t: Seq<char>)
    ensures
        text::trimmed_start(t).len() > 0 ==> text::trimmed_start(t).last() == t.last(),
    decreases t.len(),
{
    if t.len() > 0 && text::is_white(t[0]) {
        lemma_trimmed_start_last(t.drop_first());
    }
}

/// A line whose third field gives the time of a row says the row.
pub proof fn lemma_line_says(r: Row, m: Seq<char>)
    requires
        r.name.len() > 0,
        r.name[0] != '#',
        !r.name.contains('\t'),
        !m.contains('\t'),
        m.len() > 0 ==> m.last() != '\r',
        parsed_time(m) == r.modified,
    ensures
        parsed_line(r.name + seq!['\t'] + text::decimal(r.size as nat) + seq!['\t'] + m) == Some(r),
{
    let d = text::decimal(r.size as nat);
    let line = r.name + seq!['\t'] + d + seq!['\t'] + m;
    lemma_decimal_plain(r.size as nat, '\t');
    assert(line.last() == if m.len() > 0 {
        m.last()
    } else {
        '\t'
    });
    assert(text::trimmed_end_of(line, '\r') == line);
    assert(line[0] == r.name[0]);
    assert(line =~= r.name + seq!['\t'] + (d + seq!['\t'] + m));
    lemma_split_front(r.name, '\t', d + seq!['\t'] + m);
    lemma_split_front(d, '\t', m);
    lemma_split_none(m, '\t');
    assert(text::split(line, '\t') =~= seq![r.name, d, m]);
    text::law_decimal_parses_back(r.size as nat, u64::MAX as nat);
}

/// The line of a row that survives says the row again.
pub proof fn law_line_round_trip(r: Row)
    requires
        survives(r),
    ensures
        parsed_line(line_of(r)) == Some(r),
        !line_of(r).contains('\n'),
{
    let d = text::decimal(r.size as nat);
    let m = match r.modified {
        Some(t) => t,
        None => seq!['-'],
    };
    let line = line_of(r);
    lemma_decimal_plain(r.size as nat, '\n');
    assert(m.last() != '\r') by {
        if r.modified is Some {
            lemma_last_of_trimmed(m);
        }
    }
    assert(parsed_time(m) == r.modified) by {
        if r.modified is None {
            assert(text::trimmed(seq!['-']) == seq!['-']) by {
                reveal_with_fuel(text::trimmed_start, 2);
                reveal_with_fuel(text::trimmed_end, 2);
            }
        }
    }
    assert(!m.contains('\t'));
    lemma_line_says(r, m);
    assert(!line.contains('\n')) by {
        if line.contains('\n') {
            let i = choose|i: int| 0 <= i < line.len() && line[i] == '\n';
            let n = r.name.len() as int;
            if i < n {
                assert(r.name[i] == '\n');
            } else if n < i < n + 1 + d.len() {
                assert(d[i - n - 1] == '\n');
            } else if i > n + 1 + d.len() {
                assert(m[i - n - 2 - d.len()] == '\n');
            }
        }
    }
}

proof fn lemma_written_front(rows: Seq<Row>)
    requires
        rows.len() > 0,
    ensures
        written(rows) == line_of(rows[0]) + seq!['\n'] + written(rows.drop_first()),
    decreases rows.len(),
{
    if rows.len() == 1 {
        assert(rows.drop_last() =~= Seq::<Row>::empty());
        assert(rows.drop_first() =~= Seq::<Row>::empty());
        assert(written(rows) =~= line_of(rows[0]) + seq!['\n'] + written(rows.drop_first()));
    } else {
        lemma_written_front(rows.drop_last());
        assert(rows.drop_last().drop_first() =~= rows.drop_first().drop_last());
        assert(written(rows) =~= line_of(rows[0]) + seq!['\n'] + written(rows.drop_first()));
    }
}

/// A file list of rows that survive reads back as the same rows.
pub proof fn law_round_trip(rows: Seq<Row>)
    requires
        forall|i: int| 0 <= i < rows.len() ==> survives(#[trigger] rows[i]),
    ensures
        parsed_lines(text::split(written(rows), '\n')) == rows,
    decreases rows.len(),
{
    if rows.len() == 0 {
        lemma_split_none(Seq::<char>::empty(), '\n');
        let blank = Seq::<char>::empty();
        assert(text::split(written(rows), '\n') =~= seq![blank]);
        reveal_with_fuel(parsed_lines, 2);
        assert(seq![blank].drop_first() =~= Seq::<Seq<char>>::empty());
        assert(text::trimmed_end_of(blank, '\r') == blank);
        assert(parsed_lines(seq![blank]) =~= rows);
    } else {
        let rest = rows.drop_first();
        lemma_written_front(rows);
        law_line_round_trip(rows[0]);
        lemma_split_front(line_of(rows[0]), '\n', written(rest));
        assert(forall|i: int| 0 <= i < rest.len() ==> rest[i] == rows[i + 1]);
        law_round_trip(rest);
        let lines = text::split(written(rows), '\n');
        assert(lines[0] == line_of(rows[0]));
        assert(lines.drop_first() =~= text::split(written(rest), '\n'));
        assert(seq![rows[0]] + rest =~= rows);
    }
}

/// A row that stands for a directory says nothing.
pub proof fn lemma_directory_row(p: Seq<char>)
    requires
        !p.contains('\t'),
    ensures
        parsed_line(p + seq!['\t', '-', '\t', 'D', 'I', 'R']) is None,
{
    let line = p + seq!['\t', '-', '\t', 'D', 'I', 'R'];
    let dash = seq!['-'];
    let dir = seq!['D', 'I', 'R'];
    assert(line.last() == 'R');
    assert(text::trimmed_end_of(line, '\r') == line);
    assert(line =~= p + seq!['\t'] + (dash + seq!['\t'] + dir));
    lemma_split_front(p, '\t', dash + seq!['\t'] + dir);
    lemma_split_front(dash, '\t', dir);
    let fields = text::split(line, '\t');
    assert(fields[1] == dash);
    assert(!text::is_digit('-'));
    assert(text::numeral_digits(dash) == dash);
    assert(!text::all_digits(dash)) by {
        assert(!text::is_digit(dash[0]));
    }
    assert(text::parsed_number(fields[1], u64::MAX as nat) is None);
}

/// Lines say what they say one by one, and the rows are written one by one.
pub proof fn law_lists_go_line_by_line(
    a: Seq<Seq<char>>,
    b: Seq<Seq<char>>,
    line: Seq<char>,
    rows: Seq<Row>,
    r: Row,
)
    ensures
        parsed_lines(a + b) == parsed_lines(a) + parsed_lines(b),
        parsed_line(line) matches Some(x) ==> parsed_lines(seq![line]) == seq![x],
        parsed_line(line) is None ==> parsed_lines(seq![line]).len() == 0,
        written(rows.push(r)) == written(rows) + line_of(r) + seq!['\n'],
        written(Seq::empty()).len() == 0,
    decreases a.len(),
{
    reveal_with_fuel(parsed_lines, 2);
    assert(seq![line].drop_first() =~= Seq::<Seq<char>>::empty());
    assert(rows.push(r).drop_last() =~= rows);
    match parsed_line(line) {
        Some(x) => {
            assert(seq![x] + Seq::<Row>::empty() =~= seq![x]);
        },
        None => {},
    }
    if a.len() == 0 {
        assert(a + b =~= b);
        assert(parsed_lines(a) + parsed_lines(b) =~= parsed_lines(b));
    } else {
        law_lists_go_line_by_line(a.drop_first(), b, line, rows, r);
        assert((a + b).drop_first() =~= a.drop_first() + b);
        assert((a + b)[0] == a[0]);
        match parsed_line(a[0]) {
            Some(x) => {
                assert(seq![x] + (parsed_lines(a.drop_first()) + parsed_lines(b)) =~= seq![x]
                    + parsed_lines(a.drop_first()) + parsed_lines(b));
            },
            None => {},
        }
    }
}

/// A line that is blank, begins with `#` or has no size says nothing; a carriage return at its
/// end does not matter.
pub proof fn law_lines_that_say_nothing(line: Seq<char>, rest: Seq<char>)
    ensures
        parsed_line(Seq::empty()) is None,
        parsed_line(seq!['#'] + rest) is None,
        !line.contains('\t') ==> parsed_line(line) is None,
        parsed_line(seq!['\t'] + rest) is None,
        parsed_line(line + seq!['\r']) == parsed_line(line),
{
    let none = Seq::<char>::empty();
    let comment = seq!['#'] + rest;
    lemma_trimmed_end_front(comment, '\r');
    assert(comment[0] == '#');
    let l = text::trimmed_end_of(line, '\r');
    lemma_trimmed_end_prefix(line, '\r');
    if !line.contains('\t') {
        if l.contains('\t') {
            let k = l.index_of('\t');
            assert(line[k] == '\t');
        }
        lemma_split_none(l, '\t');
    }
    let empty_name = seq!['\t'] + rest;
    lemma_trimmed_end_front(empty_name, '\r');
    let e = text::trimmed_end_of(empty_name, '\r');
    if e.len() > 0 {
        assert(e[0] == '\t');
        text::lemma_find_is(e, '\t', 0);
        assert(e.take(0) =~= none);
    }
    assert((line + seq!['\r']).drop_last() =~= line);
}

proof fn lemma_trimmed_end_prefix(s: Seq<char>, c: char)
    ensures
        text::trimmed_end_of(s, c).len() <= s.len(),
        forall|k: int|
            0 <= k < text::trimmed_end_of(s, c).len() ==> text::trimmed_end_of(s, c)[k] == s[k],
    decreases s.len(),
{
    if s.len() > 0 && s.last() == c {
        let front = s.drop_last();
        lemma_trimmed_end_prefix(front, c);
        assert forall|k: int| 0 <= k < text::trimmed_end_of(s, c).len() implies text::trimmed_end_of(
            s,
            c,
        )[k] == s[k] by {
            assert(text::trimmed_end_of(front, c)[k] == front[k]);
        }
    }
}

proof fn lemma_trimmed_end_front(s: Seq<char>, c: char)
    requires
        s.len() > 0,
        s[0] != c,
    ensures
        text::trimmed_end_of(s, c).len() > 0,
        text::trimmed_end_of(s, c)[0] == s[0],
    decreases s.len(),
{
    if s.last() == c {
        assert(s.len() > 1);
        lemma_trimmed_end_front(s.drop_last(), c);
    }
}

/// A row says the name, the size and the time that the listing gives.
pub proof fn law_rows_say_what_is_listed(item: BlobItem)
    ensures
        row_of(item).name == item.name@,
        item.properties matches Some(p) ==> row_of(item).modified == text::opt_view(
            p.last_modified,
        ) && (p.content_length matches Some(n) ==> row_of(item).size == n),
        item.properties is None ==> row_of(item).modified is None && row_of(item).size == 0,
{
}

/// The entry of a line has the name, the size and the time of the line and nothing else.
pub proof fn law_entries_hold_what_the_line_says(item: BlobItem, row: Row)
    requires
        is_entry(Some(item), Some(row)),
    ensures
        item.name@ == row.name,
        item.properties matches Some(p) && p.content_length == Some(row.size) && text::opt_view(
            p.last_modified,
        ) == row.modified && p.content_md5 is None && p.content_type is None && p.etag is None
            && p.blob_type is None && p.access_tier is None,
{
}

/// A line is an entry exactly where it says something.
pub proof fn law_lines_are_entries_where_they_say_something(
    item: Option<BlobItem>,
    row: Option<Row>,
)
    requires
        is_entry(item, row),
    ensures
        item is Some <==> row is Some,
{
}

/// The time of a line is its third field without blanks around it, and none where that is blank
/// or `-`.
pub proof fn law_times_of_lines(a: Seq<char>, t: Seq<char>, b: Seq<char>)
    requires
        text::all_white(a),
        text::all_white(b),
        t.len() > 0,
        !text::is_white(t[0]),
        !text::is_white(t.last()),
    ensures
        t != seq!['-'] ==> parsed_time(a + t + b) == Some(t),
        parsed_time(a + seq!['-'] + b) is None,
        parsed_time(a) is None,
{
    text::law_trimming_takes_the_white_space(a, t, b);
    text::law_trimming_takes_the_white_space(a, seq!['-'], b);
}

} // verus!
