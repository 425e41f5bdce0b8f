//! Sizes as people write them.
//!
//! Plain byte counts (`16777216`), binary units (`16MiB`, `1GiB`) and decimal units (`16MB`,
//! `1GB`). The trailing `B` is optional: `32Gi` and `32G` both work.
use crate::binary64;
use crate::text;
use crate::text::{
    chars_of, find_from, owned, quoted, same_text, slice_of, string_of, to_lowercase, trim,
};
use vstd::prelude::*;

verus! {

/// How many characters of `s` are digits or points, from the front.
pub open spec fn number_len(s: Seq<char>) -> int
    decreases s.len(),
{
    if s.len() > 0 && (text::is_digit(s[0]) || s[0] == '.') {
        1 + number_len(s.drop_first())
    } else {
        0
    }
}

/// The number in front of a text.
pub open spec fn number_of(s: Seq<char>) -> Seq<char> {
    s.take(number_len(s))
}

/// The unit behind the number of a text.
pub open spec fn unit_of(s: Seq<char>) -> Seq<char> {
    text::trimmed(s.skip(number_len(s)))
}

/// The digits before the point.
pub open spec fn whole_of(num: Seq<char>) -> Seq<char> {
    num.take(text::find(num, '.'))
}

/// The digits behind the point.
pub open spec fn fraction_of(num: Seq<char>) -> Seq<char> {
    let i = text::find(num, '.');
    if i < num.len() {
        num.skip(i + 1)
    } else {
        Seq::empty()
    }
}

/// Whether a text of digits and points is a number: one point at most, and a digit.
pub open spec fn is_numeral(num: Seq<char>) -> bool {
    &&& text::all_digits(whole_of(num))
    &&& text::all_digits(fraction_of(num))
    &&& whole_of(num).len() + fraction_of(num).len() > 0
}

/// The number of bytes of a unit, in lower case.
pub open spec fn size_unit(u: Seq<char>) -> Option<u64> {
    if u == ""@ || u == "b"@ || u == "byte"@ || u == "bytes"@ {
        Some(1)
    } else if u == "k"@ || u == "kb"@ {
        Some(1_000)
    } else if u == "m"@ || u == "mb"@ {
        Some(1_000_000)
    } else if u == "g"@ || u == "gb"@ {
        Some(1_000_000_000)
    } else if u == "t"@ || u == "tb"@ {
        Some(1_000_000_000_000)
    } else if u == "ki"@ || u == "kib"@ {
        Some(0x400)
    } else if u == "mi"@ || u == "mib"@ {
        Some(0x10_0000)
    } else if u == "gi"@ || u == "gib"@ {
        Some(0x4000_0000)
    } else if u == "ti"@ || u == "tib"@ {
        Some(0x100_0000_0000)
    } else {
        None
    }
}

/// The size that a text in lower case gives, or what is wrong with it. `s` is the text as it
/// was given.
pub open spec fn lowered_size(lower: Seq<char>, s: Seq<char>) -> std::result::Result<
    u64,
    Seq<char>,
> {
    let num = number_of(lower);
    let unit = unit_of(lower);
    let q = text::debug_form(s);
    if num.len() == 0 {
        Err("size must start with a number, got "@ + q + " (try e.g. 32GiB, 1GB, 16777216)"@)
    } else if !is_numeral(num) {
        Err("bad size number "@ + text::debug_form(num) + " in "@ + q)
    } else if binary64::of_decimal(whole_of(num), fraction_of(num))
        >= vstd::arithmetic::power2::pow2(2098) {
        Err("size must be non-negative and finite, got "@ + q)
    } else {
        match size_unit(unit) {
            None => Err(
                "unknown size unit "@ + text::debug_form(unit) + " in "@ + q
                    + " (try GiB, MiB, GB, MB)"@,
            ),
            Some(m) => Ok(
                held(binary64::scaled(whole_of(num), fraction_of(num), m as nat, 1)->0),
            ),
        }
    }
}

/// A number held at the largest 64-bit number.
pub open spec fn held(n: nat) -> u64 {
    if n > u64::MAX {
        u64::MAX
    } else {
        n as u64
    }
}

/// The size that a text gives, or what is wrong with it.
pub open spec fn size_of_text(s: Seq<char>) -> std::result::Result<u64, Seq<char>> {
    let raw = text::trimmed(s);
    if raw.len() == 0 {
        Err("empty size value"@)
    } else {
        lowered_size(text::lowercase(raw), s)
    }
}

/// The size that an ASCII text gives, or what is wrong with it.
pub open spec fn ascii_size(s: Seq<char>) -> std::result::Result<u64, Seq<char>> {
    let raw = text::trimmed(s);
    if raw.len() == 0 {
        Err("empty size value"@)
    } else {
        lowered_size(text::lowered(raw), s)
    }
}

/// Whether a result is what the specification says.
pub open spec fn agrees(
    out: std::result::Result<u64, String>,
    spec: std::result::Result<u64, Seq<char>>,
) -> bool {
    match (out, spec) {
        (Ok(a), Ok(b)) => a == b,
        (Err(a), Err(b)) => a@ == b,
        _ => false,
    }
}

/// The length of the number in front of a text.
pub fn number_end(s: &[char]) -> (out: usize)
    ensures
        out == number_len(s@),
        out <= s@.len(),
{
    let mut i: usize = 0;
    assert(s@.skip(0) =~= s@);
    while i < s.len() && (('0' <= s[i] && s[i] <= '9') || s[i] == '.')
        invariant
            i <= s@.len(),
            number_len(s@) == i + number_len(s@.skip(i as int)),
        decreases s@.len() - i,
    {
        assert(s@.skip(i as int).drop_first() =~= s@.skip(i + 1));
        i += 1;
    }
    i
}

/// Whether all characters are digits.
fn only_digits(s: &[char]) -> (out: bool)
    ensures
        out == text::all_digits(s@),
{
    let mut i: usize = 0;
    while i < s.len()
        invariant
            i <= s@.len(),
            forall|j: int| 0 <= j < i ==> text::is_digit(#[trigger] s@[j]),
        decreases s@.len() - i,
    {
        if !('0' <= s[i] && s[i] <= '9') {
            assert(!text::is_digit(s@[i as int]));
            return false;
        }
        i += 1;
    }
    true
}

/// The digits before and behind the point, where the text is a number.
pub fn read_numeral(num: &[char]) -> (out: Option<(Vec<char>, Vec<char>)>)
    ensures
        match out {
            Some((w, f)) => is_numeral(num@) && w@ == whole_of(num@) && f@ == fraction_of(num@),
            None => !is_numeral(num@),
        },
{
    let at = find_from(num, '.', 0);
    proof {
        assert(num@.skip(0) =~= num@);
        text::lemma_find(num@, '.');
    }
    let whole = slice_of(num, 0, at);
    assert(num@.subrange(0, at as int) =~= num@.take(at as int));
    let fraction = if at < num.len() {
        assert(num@.subrange(at + 1, num@.len() as int) =~= num@.skip(at + 1));
        slice_of(num, at + 1, num.len())
    } else {
        Vec::new()
    };
    assert(fraction@ =~= fraction_of(num@));
    if only_digits(whole.as_slice()) && only_digits(fraction.as_slice()) && (whole.len() > 0
        || fraction.len() > 0) {
        Some((whole, fraction))
    } else {
        None
    }
}

/// The number of bytes of a unit.
fn unit_size(u: &str) -> (out: Option<u64>)
    ensures
        out == size_unit(u@),
{
    if same_text(u, "") || same_text(u, "b") || same_text(u, "byte") || same_text(u, "bytes") {
        Some(1)
    } else if same_text(u, "k") || same_text(u, "kb") {
        Some(1_000)
    } else if same_text(u, "m") || same_text(u, "mb") {
        Some(1_000_000)
    } else if same_text(u, "g") || same_text(u, "gb") {
        Some(1_000_000_000)
    } else if same_text(u, "t") || same_text(u, "tb") {
        Some(1_000_000_000_000)
    } else if same_text(u, "ki") || same_text(u, "kib") {
        Some(0x400)
    } else if same_text(u, "mi") || same_text(u, "mib") {
        Some(0x10_0000)
    } else if same_text(u, "gi") || same_text(u, "gib") {
        Some(0x4000_0000)
    } else if same_text(u, "ti") || same_text(u, "tib") {
        Some(0x100_0000_0000)
    } else {
        None
    }
}

/// Reads a size from a text in lower case. `s` is the text as it was given.
pub fn parse_lowered_size(lower: &str, s: &str) -> (out: std::result::Result<u64, String>)
    ensures
        agrees(out, lowered_size(lower@, s@)),
{
    let chars = chars_of(lower);
    let end = number_end(chars.as_slice());
    let num = slice_of(chars.as_slice(), 0, end);
    assert(num@ =~= number_of(lower@));
    let tail = slice_of(chars.as_slice(), end, chars.len());
    assert(tail@ =~= lower@.skip(end as int));
    let q = quoted(s);
    if num.len() == 0 {
        let mut e = owned("size must start with a number, got ");
        e.append(q.as_str());
        e.append(" (try e.g. 32GiB, 1GB, 16777216)");
        return Err(e);
    }
    let (whole, fraction) = match read_numeral(num.as_slice()) {
        Some(x) => x,
        None => {
            let mut e = owned("bad size number ");
            e.append(quoted(string_of(num.as_slice()).as_str()).as_str());
            e.append(" in ");
            e.append(q.as_str());
            return Err(e);
        },
    };
    let unit = string_of(trim(tail.as_slice()).as_slice());
    let factor = unit_size(unit.as_str());
    let m = match factor {
        Some(m) => m,
        None => 1,
    };
    match binary64::scale(whole.as_slice(), fraction.as_slice(), m, 1) {
        None => {
            let mut e = owned("size must be non-negative and finite, got ");
            e.append(q.as_str());
            Err(e)
        },
        Some(n) => {
            if factor.is_none() {
                let mut e = owned("unknown size unit ");
                e.append(quoted(unit.as_str()).as_str());
                e.append(" in ");
                e.append(q.as_str());
                e.append(" (try GiB, MiB, GB, MB)");
                return Err(e);
            }
            Ok(n)
        },
    }
}

/// Reads a size in bytes. Upper and lower case are the same.
pub fn parse_size(s: &str) -> (out: std::result::Result<u64, String>)
    ensures
        agrees(out, size_of_text(s@)),
        text::is_ascii(text::trimmed(s@)) ==> agrees(out, ascii_size(s@)),
{
    let chars = chars_of(s);
    let raw = trim(chars.as_slice());
    if raw.len() == 0 {
        return Err(owned("empty size value"));
    }
    let text = string_of(raw.as_slice());
    let lower = to_lowercase(text.as_str());
    parse_lowered_size(lower.as_str(), s)
}

/// Whether two readings come to the same: the same number, or both refused.
pub open spec fn same_value(
    a: std::result::Result<u64, Seq<char>>,
    b: std::result::Result<u64, Seq<char>>,
) -> bool {
    match (a, b) {
        (Ok(x), Ok(y)) => x == y,
        (Err(_), Err(_)) => true,
        _ => false,
    }
}

/// Upper and lower case are the same, and blanks around a size do not matter.
pub proof fn law_size_spelling_does_not_matter(s: Seq<char>)
    requires
        text::is_ascii(s),
    ensures
        text::is_ascii(text::trimmed(s)),
        text::is_ascii(text::trimmed(text::lowered(s))),
        text::is_ascii(text::trimmed(text::uppered(s))),
        same_value(ascii_size(text::lowered(s)), ascii_size(s)),
        same_value(ascii_size(text::uppered(s)), ascii_size(s)),
        forall|a: Seq<char>, b: Seq<char>|
            text::all_white(a) && text::all_white(b) ==> same_value(
                #[trigger] ascii_size(a + s + b),
                ascii_size(s),
            ),
{
    text::lemma_case(s);
    text::lemma_trimmed_ascii(s);
    text::lemma_trimmed_ascii(text::lowered(s));
    text::lemma_trimmed_ascii(text::uppered(s));
    assert forall|a: Seq<char>, b: Seq<char>|
        text::all_white(a) && text::all_white(b) implies same_value(
        #[trigger] ascii_size(a + s + b),
        ascii_size(s),
    ) by {
        text::lemma_trimmed_padded(a, s, b);
    }
}

/// Digits in front of something else are the number of a text.
proof fn lemma_number_len(n: Seq<char>, t: Seq<char>)
    requires
        text::all_digits(n),
        t.len() > 0,
        !text::is_digit(t[0]),
        t[0] != '.',
    ensures
        number_len(n + t) == n.len(),
    decreases n.len(),
{
    if n.len() == 0 {
        assert(n + t =~= t);
    } else {
        assert((n + t)[0] == n[0]);
        assert((n + t).drop_first() =~= n.drop_first() + t);
        lemma_number_len(n.drop_first(), t);
    }
}

/// The size of a number and a unit of letters.
pub proof fn lemma_ascii_size(n: Seq<char>, t: Seq<char>)
    requires
        text::all_digits(n),
        n.len() > 0,
        t.len() > 0,
        forall|i: int|
            0 <= i < t.len() ==> 'A' <= #[trigger] t[i] && t[i] <= 'Z' || 'a' <= t[i] && t[i]
                <= 'z',
    ensures
        text::is_ascii(text::trimmed(n + t)),
        number_of(text::lowered(text::trimmed(n + t))) == n,
        unit_of(text::lowered(text::trimmed(n + t))) == text::lowered(t),
        text::trimmed(n + t).len() > 0,
{
    let s = n + t;
    let low = text::lowered(t);
    assert(s[0] == n[0] && s.last() == t.last());
    text::lemma_trimmed_same(s);
    assert forall|i: int| 0 <= i < s.len() implies (#[trigger] s[i] as u32) < 128 by {
        if i >= n.len() {
            assert(s[i] == t[i - n.len()]);
        }
    }
    assert(text::lowered(s) =~= n + low);
    text::lemma_case_of(t[0]);
    text::lemma_case_of(t.last());
    assert(low[0] == text::lower_char(t[0]) && low.last() == text::lower_char(t.last()));
    assert('a' <= low[0] && low[0] <= 'z');
    lemma_number_len(n, low);
    assert((n + low).take(n.len() as int) =~= n);
    assert((n + low).skip(n.len() as int) =~= low);
    text::lemma_trimmed_same(low);
}

/// The `B` at the end of a unit is optional: `32G` is `32GB`, and `32Gi` is `32GiB`.
pub proof fn law_trailing_b_is_optional(n: Seq<char>, u: char)
    requires
        text::all_digits(n),
        n.len() > 0,
        "kmgtKMGT"@.contains(u),
    ensures
        same_value(ascii_size(n + seq![u]), ascii_size(n + seq![u, 'B'])),
        same_value(ascii_size(n + seq![u, 'i']), ascii_size(n + seq![u, 'i', 'B'])),
{
    reveal_strlit("kmgtKMGT");
    lemma_ascii_size(n, seq![u]);
    lemma_ascii_size(n, seq![u, 'B']);
    lemma_ascii_size(n, seq![u, 'i']);
    lemma_ascii_size(n, seq![u, 'i', 'B']);
    let v = text::lower_char(u);
    assert(v == 'k' || v == 'm' || v == 'g' || v == 't');
    assert(text::lowered(seq![u]) =~= seq![v]);
    assert(text::lowered(seq![u, 'B']) =~= seq![v, 'b']);
    assert(text::lowered(seq![u, 'i']) =~= seq![v, 'i']);
    assert(text::lowered(seq![u, 'i', 'B']) =~= seq![v, 'i', 'b']);
    lemma_unit_with_b(v);
}

proof fn lemma_unit_with_b(v: char)
    requires
        v == 'k' || v == 'm' || v == 'g' || v == 't',
    ensures
        size_unit(seq![v]) == size_unit(seq![v, 'b']),
        size_unit(seq![v, 'i']) == size_unit(seq![v, 'i', 'b']),
{
    reveal_strlit("");
    reveal_strlit("b");
    reveal_strlit("byte");
    reveal_strlit("bytes");
    reveal_strlit("k");
    reveal_strlit("kb");
    reveal_strlit("m");
    reveal_strlit("mb");
    reveal_strlit("g");
    reveal_strlit("gb");
    reveal_strlit("t");
    reveal_strlit("tb");
    reveal_strlit("ki");
    reveal_strlit("kib");
    reveal_strlit("mi");
    reveal_strlit("mib");
    reveal_strlit("gi");
    reveal_strlit("gib");
    reveal_strlit("ti");
    reveal_strlit("tib");
    assert("b"@[0] == 'b' && "k"@[0] == 'k' && "m"@[0] == 'm' && "g"@[0] == 'g' && "t"@[0] == 't');
    assert("kb"@[0] == 'k' && "mb"@[0] == 'm' && "gb"@[0] == 'g' && "tb"@[0] == 't');
    assert("kb"@[1] == 'b' && "mb"@[1] == 'b' && "gb"@[1] == 'b' && "tb"@[1] == 'b');
    assert("ki"@[0] == 'k' && "mi"@[0] == 'm' && "gi"@[0] == 'g' && "ti"@[0] == 't');
    assert("kib"@[0] == 'k' && "mib"@[0] == 'm' && "gib"@[0] == 'g' && "tib"@[0] == 't');
    if v == 'k' {
        assert("k"@ =~= seq![v] && "kb"@ =~= seq![v, 'b']);
        assert("ki"@ =~= seq![v, 'i'] && "kib"@ =~= seq![v, 'i', 'b']);
    } else if v == 'm' {
        assert("m"@ =~= seq![v] && "mb"@ =~= seq![v, 'b']);
        assert("mi"@ =~= seq![v, 'i'] && "mib"@ =~= seq![v, 'i', 'b']);
    } else if v == 'g' {
        assert("g"@ =~= seq![v] && "gb"@ =~= seq![v, 'b']);
        assert("gi"@ =~= seq![v, 'i'] && "gib"@ =~= seq![v, 'i', 'b']);
    } else {
        assert("t"@ =~= seq![v] && "tb"@ =~= seq![v, 'b']);
        assert("ti"@ =~= seq![v, 'i'] && "tib"@ =~= seq![v, 'i', 'b']);
    }
}

/// Whole numbers are exact: as many bytes as a number of up to 53 binary digits times the unit
/// says, where that still fits 53 binary digits.
pub proof fn law_whole_numbers_are_exact(whole: Seq<char>, m: nat)
    requires
        text::all_digits(whole),
        m >= 1,
        text::digits_value(whole) * m < 0x20_0000_0000_0000,
    ensures
        binary64::scaled(whole, Seq::empty(), m, 1) == Some(text::digits_value(whole) * m),
{
    binary64::lemma_exact(whole, m);
}

/// The units of sizes: of `K`, `M`, `G` and `T` each is a thousand of the one before, and with
/// an `i` 1024 of it.
pub open spec fn is_size_unit(u: Seq<char>, m: nat) -> bool {
    ||| (u == "b"@ || u == "byte"@ || u == "bytes"@) && m == 1
    ||| (u == "k"@ || u == "kb"@) && m == 1000
    ||| (u == "m"@ || u == "mb"@) && m == 1000 * 1000
    ||| (u == "g"@ || u == "gb"@) && m == 1000 * 1000 * 1000
    ||| (u == "t"@ || u == "tb"@) && m == 1000 * 1000 * 1000 * 1000
    ||| (u == "ki"@ || u == "kib"@) && m == 1024
    ||| (u == "mi"@ || u == "mib"@) && m == 1024 * 1024
    ||| (u == "gi"@ || u == "gib"@) && m == 1024 * 1024 * 1024
    ||| (u == "ti"@ || u == "tib"@) && m == 1024 * 1024 * 1024 * 1024
}

proof fn lemma_size_unit(u: Seq<char>, m: nat)
    requires
        is_size_unit(u, m),
    ensures
        size_unit(u) == Some(m as u64),
        0 < m <= u64::MAX,
{
    reveal_strlit("");
    reveal_strlit("b");
    reveal_strlit("byte");
    reveal_strlit("bytes");
    reveal_strlit("k");
    reveal_strlit("kb");
    reveal_strlit("m");
    reveal_strlit("mb");
    reveal_strlit("g");
    reveal_strlit("gb");
    reveal_strlit("t");
    reveal_strlit("tb");
    reveal_strlit("ki");
    reveal_strlit("kib");
    reveal_strlit("mi");
    reveal_strlit("mib");
    reveal_strlit("gi");
    reveal_strlit("gib");
    reveal_strlit("ti");
    reveal_strlit("tib");
    assert(""@.len() == 0);
    assert("b"@.len() == 1 && "b"@[0] == 'b');
    assert("byte"@.len() == 4 && "byte"@[0] == 'b' && "byte"@[1] == 'y' && "byte"@[2] == 't' && "byte"@[3] == 'e');
    assert("bytes"@.len() == 5 && "bytes"@[0] == 'b' && "bytes"@[1] == 'y' && "bytes"@[2] == 't' && "bytes"@[3] == 'e' && "bytes"@[4] == 's');
    assert("k"@.len() == 1 && "k"@[0] == 'k');
    assert("kb"@.len() == 2 && "kb"@[0] == 'k' && "kb"@[1] == 'b');
    assert("m"@.len() == 1 && "m"@[0] == 'm');
    assert("mb"@.len() == 2 && "mb"@[0] == 'm' && "mb"@[1] == 'b');
    assert("g"@.len() == 1 && "g"@[0] == 'g');
    assert("gb"@.len() == 2 && "gb"@[0] == 'g' && "gb"@[1] == 'b');
    assert("t"@.len() == 1 && "t"@[0] == 't');
    assert("tb"@.len() == 2 && "tb"@[0] == 't' && "tb"@[1] == 'b');
    assert("ki"@.len() == 2 && "ki"@[0] == 'k' && "ki"@[1] == 'i');
    assert("kib"@.len() == 3 && "kib"@[0] == 'k' && "kib"@[1] == 'i' && "kib"@[2] == 'b');
    assert("mi"@.len() == 2 && "mi"@[0] == 'm' && "mi"@[1] == 'i');
    assert("mib"@.len() == 3 && "mib"@[0] == 'm' && "mib"@[1] == 'i' && "mib"@[2] == 'b');
    assert("gi"@.len() == 2 && "gi"@[0] == 'g' && "gi"@[1] == 'i');
    assert("gib"@.len() == 3 && "gib"@[0] == 'g' && "gib"@[1] == 'i' && "gib"@[2] == 'b');
    assert("ti"@.len() == 2 && "ti"@[0] == 't' && "ti"@[1] == 'i');
    assert("tib"@.len() == 3 && "tib"@[0] == 't' && "tib"@[1] == 'i' && "tib"@[2] == 'b');
}

/// A size is its number times its unit, whatever the case of the letters, where that fits 53
/// binary digits.
pub proof fn law_size_is_number_times_unit(n: Seq<char>, t: Seq<char>, m: nat)
    requires
        text::all_digits(n),
        n.len() > 0,
        t.len() > 0,
        forall|i: int|
            0 <= i < t.len() ==> 'A' <= #[trigger] t[i] && t[i] <= 'Z' || 'a' <= t[i] && t[i]
                <= 'z',
        is_size_unit(text::lowered(t), m),
        text::digits_value(n) * m < 0x20_0000_0000_0000,
    ensures
        ascii_size(n + t) == std::result::Result::<u64, Seq<char>>::Ok(
            (text::digits_value(n) * m) as u64,
        ),
{
    lemma_ascii_size(n, t);
    lemma_size_unit(text::lowered(t), m);
    lemma_plain_numeral(n);
    law_whole_numbers_are_exact(n, m);
    assert(0 <= text::digits_value(n) * m) by (nonlinear_arith);
}

/// Digits are a number without a point.
pub proof fn lemma_plain_numeral(n: Seq<char>)
    requires
        text::all_digits(n),
        n.len() > 0,
    ensures
        whole_of(n) == n,
        fraction_of(n).len() == 0,
        fraction_of(n) == Seq::<char>::empty(),
        is_numeral(n),
{
    text::lemma_find(n, '.');
    let i = text::find(n, '.');
    if i < n.len() {
        assert(text::is_digit(n[i]));
    }
    assert(n.take(n.len() as int) =~= n);
}

/// A size without a unit is a number of bytes.
pub proof fn law_plain_size_is_bytes(n: Seq<char>)
    requires
        text::all_digits(n),
        n.len() > 0,
        text::digits_value(n) < 0x20_0000_0000_0000,
    ensures
        ascii_size(n) == std::result::Result::<u64, Seq<char>>::Ok(text::digits_value(n) as u64),
{
    reveal_strlit("");
    assert(text::is_digit(n[0]) && text::is_digit(n[n.len() - 1]));
    text::lemma_trimmed_same(n);
    assert(text::lowered(n) =~= n) by {
        assert forall|i: int| 0 <= i < n.len() implies text::lower_char(#[trigger] n[i]) == n[i] by {
            assert(text::is_digit(n[i]));
        }
    }
    lemma_all_number(n);
    assert(n.take(n.len() as int) =~= n);
    assert(n.skip(n.len() as int) =~= Seq::<char>::empty());
    assert(text::trimmed_start(Seq::<char>::empty()) == Seq::<char>::empty());
    assert(unit_of(n) =~= ""@);
    lemma_plain_numeral(n);
    law_whole_numbers_are_exact(n, 1);
}

/// Digits are all number.
pub proof fn lemma_all_number(n: Seq<char>)
    requires
        text::all_digits(n),
    ensures
        number_len(n) == n.len(),
    decreases n.len(),
{
    if n.len() > 0 {
        assert(text::is_digit(n[0]));
        assert forall|i: int| 0 <= i < n.drop_first().len() implies text::is_digit(
            #[trigger] n.drop_first()[i],
        ) by {
            assert(n.drop_first()[i] == n[i + 1]);
        }
        lemma_all_number(n.drop_first());
    }
}

/// What is no size: nothing, what does not begin with a number, and what is in no unit.
pub proof fn law_what_is_no_size(n: Seq<char>, t: Seq<char>, blank: Seq<char>)
    requires
        text::all_digits(n),
        n.len() > 0,
        t.len() > 0,
        forall|i: int|
            0 <= i < t.len() ==> 'A' <= #[trigger] t[i] && t[i] <= 'Z' || 'a' <= t[i] && t[i]
                <= 'z',
        text::all_white(blank),
    ensures
        ascii_size(blank) is Err,
        ascii_size(t) is Err,
        (forall|m: nat| !(#[trigger] is_size_unit(text::lowered(t), m))) ==> ascii_size(n + t)
            is Err,
{
    text::law_trimming_takes_the_white_space(blank, t, blank);
    text::lemma_trimmed_same(t);
    let low = text::lowered(t);
    text::lemma_case_of(t[0]);
    assert(low[0] == text::lower_char(t[0]));
    assert('a' <= low[0] && low[0] <= 'z');
    lemma_ascii_size(n, t);
    if forall|m: nat| !(#[trigger] is_size_unit(low, m)) {
        assert(!is_size_unit(low, 1));
        assert(!is_size_unit(low, 1000));
        assert(!is_size_unit(low, 1000 * 1000));
        assert(!is_size_unit(low, 1000 * 1000 * 1000));
        assert(!is_size_unit(low, 1000 * 1000 * 1000 * 1000));
        assert(!is_size_unit(low, 1024));
        assert(!is_size_unit(low, 1024 * 1024));
        assert(!is_size_unit(low, 1024 * 1024 * 1024));
        assert(!is_size_unit(low, 1024 * 1024 * 1024 * 1024));
        reveal_strlit("");
        assert(low.len() > 0);
    }
}

/// A number with a point is the digits before it and the digits behind it; two points make none,
/// nor does a point alone.
pub proof fn law_fractions_are_read(w: Seq<char>, f: Seq<char>, g: Seq<char>, t: Seq<char>)
    requires
        text::all_digits(w),
        text::all_digits(f),
        text::all_digits(g),
        w.len() + f.len() > 0,
        t.len() > 0,
        !text::is_digit(t[0]),
        t[0] != '.',
    ensures
        number_of(w + seq!['.'] + f + t) == w + seq!['.'] + f,
        whole_of(w + seq!['.'] + f) == w,
        fraction_of(w + seq!['.'] + f) == f,
        is_numeral(w + seq!['.'] + f),
        !is_numeral(w + seq!['.'] + f + seq!['.'] + g),
        !is_numeral(seq!['.']),
{
    text::lemma_find_is(seq!['.'], '.', 0);
    let num = w + seq!['.'] + f;
    lemma_number_with_point(w, f, t);
    assert((num + t).take(num.len() as int) =~= num);
    assert forall|k: int| 0 <= k < w.len() implies num[k] != '.' by {
        assert(text::is_digit(w[k]));
        assert(num[k] == w[k]);
    }
    assert(num[w.len() as int] == '.');
    text::lemma_find_is(num, '.', w.len() as int);
    assert(num.take(w.len() as int) =~= w);
    assert(num.skip(w.len() as int + 1) =~= f);
    let two = num + seq!['.'] + g;
    assert forall|k: int| 0 <= k < w.len() implies two[k] != '.' by {
        assert(two[k] == num[k]);
    }
    assert(two[w.len() as int] == '.');
    text::lemma_find_is(two, '.', w.len() as int);
    let rest = two.skip(w.len() as int + 1);
    assert(rest[f.len() as int] == '.');
}

proof fn lemma_number_with_point(w: Seq<char>, f: Seq<char>, t: Seq<char>)
    requires
        text::all_digits(w),
        text::all_digits(f),
        t.len() > 0,
        !text::is_digit(t[0]),
        t[0] != '.',
    ensures
        number_len(w + seq!['.'] + f + t) == w.len() + 1 + f.len(),
    decreases w.len(),
{
    let s = w + seq!['.'] + f + t;
    if w.len() == 0 {
        assert(s[0] == '.');
        assert(s.drop_first() =~= f + t);
        lemma_number_len(f, t);
    } else {
        assert(text::is_digit(w[0]));
        assert(s[0] == w[0]);
        let rest = w.drop_first();
        assert forall|i: int| 0 <= i < rest.len() implies text::is_digit(#[trigger] rest[i]) by {
            assert(rest[i] == w[i + 1]);
        }
        assert(s.drop_first() =~= rest + seq!['.'] + f + t);
        lemma_number_with_point(rest, f, t);
    }
}

/// A text whose lower case is that of its ASCII letters is read as an ASCII text.
pub proof fn law_ascii_sizes_are_sizes(s: Seq<char>)
    requires
        text::lowercase(text::trimmed(s)) == text::lowered(text::trimmed(s)),
    ensures
        size_of_text(s) == ascii_size(s),
{
}

/// A size beyond the largest 64-bit number is held at that number.
pub proof fn law_large_sizes_are_held(n: nat)
    ensures
        n <= u64::MAX ==> held(n) == n,
        n > u64::MAX ==> held(n) == u64::MAX,
{
}

/// What is said of a text that is no size: that it is empty, or the text and what is wrong
/// with it.
pub proof fn law_size_complaints(n: Seq<char>, t: Seq<char>, blank: Seq<char>)
    requires
        text::all_digits(n),
        n.len() > 0,
        t.len() > 0,
        forall|i: int|
            0 <= i < t.len() ==> 'A' <= #[trigger] t[i] && t[i] <= 'Z' || 'a' <= t[i] && t[i]
                <= 'z',
        text::all_white(blank),
        text::digits_value(n) < 0x20_0000_0000_0000,
    ensures
        ascii_size(blank) == std::result::Result::<u64, Seq<char>>::Err("empty size value"@),
        ascii_size(t) == std::result::Result::<u64, Seq<char>>::Err(
            "size must start with a number, got "@ + text::debug_form(t)
                + " (try e.g. 32GiB, 1GB, 16777216)"@,
        ),
        (forall|m: nat| !(#[trigger] is_size_unit(text::lowered(t), m))) ==> ascii_size(n + t)
            == std::result::Result::<u64, Seq<char>>::Err(
            "unknown size unit "@ + text::debug_form(text::lowered(t)) + " in "@
                + text::debug_form(n + t) + " (try GiB, MiB, GB, MB)"@,
        ),
{
    law_what_is_no_size(n, t, blank);
    text::law_trimming_takes_the_white_space(blank, t, blank);
    text::lemma_trimmed_same(t);
    let low = text::lowered(t);
    text::lemma_case_of(t[0]);
    assert(low[0] == text::lower_char(t[0]));
    lemma_ascii_size(n, t);
    lemma_plain_numeral(n);
    law_whole_numbers_are_exact(n, 1);
}

/// A result agrees with a reading where both are the same number or the same complaint.
pub proof fn law_agreement(
    out: std::result::Result<u64, String>,
    spec: std::result::Result<u64, Seq<char>>,
)
    requires
        agrees(out, spec),
    ensures
        out is Ok <==> spec is Ok,
        out matches Ok(n) ==> spec->Ok_0 == n,
        out matches Err(e) ==> spec->Err_0 == e@,
{
}

} // verus!
