//! Text primitives: sequences of characters, decimal numbers, trimming and splitting.
use vstd::prelude::*;

verus! {

/// `String::push` appends one character to the end of the string.
pub assume_specification[ String::push ](s: &mut String, c: char)
    ensures
        final(s)@ == old(s)@.push(c),
;

/// The characters of a string.
pub fn chars_of(s: &str) -> (out: Vec<char>)
    ensures
        out@ == s@,
{
    let mut out: Vec<char> = Vec::new();
    for c in it: s.chars()
        invariant
            it.seq() == s@,
            out@ == s@.take(it.index() as int),
    {
        out.push(c);
        assert(s@.take(it.index() + 1) == s@.take(it.index() as int).push(c));
    }
    assert(s@.take(s@.len() as int) == s@);
    out
}

/// The string that holds the given characters.
pub fn string_of(chars: &[char]) -> (out: String)
    ensures
        out@ == chars@,
{
    let mut out = String::new();
    let mut i: usize = 0;
    while i < chars.len()
        invariant
            i <= chars.len(),
            out@ == chars@.take(i as int),
        decreases chars.len() - i,
    {
        out.push(chars[i]);
        assert(chars@.take(i + 1) == chars@.take(i as int).push(chars@[i as int]));
        i += 1;
    }
    assert(chars@.take(chars@.len() as int) == chars@);
    out
}


/// The owned copy of a string slice.
pub fn owned(s: &str) -> (out: String)
    ensures
        out@ == s@,
{
    s.to_string()
}

/// The views of a sequence of strings.
pub open spec fn views(v: Seq<String>) -> Seq<Seq<char>> {
    v.map_values(|s: String| s@)
}

/// The view of an optional string.
pub open spec fn opt_view(o: Option<String>) -> Option<Seq<char>> {
    match o {
        Some(s) => Some(s@),
        None => None,
    }
}

/// The view of an optional string slice.
pub open spec fn opt_str_view(o: Option<&str>) -> Option<Seq<char>> {
    match o {
        Some(s) => Some(s@),
        None => None,
    }
}

/// A copy of an optional string.
pub fn clone_opt(o: &Option<String>) -> (out: Option<String>)
    ensures
        out == *o,
{
    match o {
        Some(s) => Some(s.clone()),
        None => None,
    }
}

/// Whether two character slices are equal.
pub fn same_chars(a: &[char], b: &[char]) -> (out: bool)
    ensures
        out == (a@ == b@),
{
    if a.len() != b.len() {
        return false;
    }
    let mut i: usize = 0;
    while i < a.len()
        invariant
            i <= a.len(),
            a.len() == b.len(),
            forall|k: int| 0 <= k < i ==> a@[k] == b@[k],
        decreases a.len() - i,
    {
        if a[i] != b[i] {
            return false;
        }
        i += 1;
    }
    assert(a@ =~= b@);
    true
}

/// Whether two strings hold the same characters.
pub fn same_text(a: &str, b: &str) -> (out: bool)
    ensures
        out == (a@ == b@),
{
    let x = a.to_string();
    let y = b.to_string();
    x == y
}

// ---------------------------------------------------------------------------------------------
// Decimal numbers
// ---------------------------------------------------------------------------------------------

/// The character of a decimal digit.
pub open spec fn digit_char(d: int) -> char {
    (('0' as u32) + d) as char
}

/// Whether a character is an ASCII decimal digit.
pub open spec fn is_digit(c: char) -> bool {
    '0' <= c && c <= '9'
}

/// The value of a decimal digit.
pub open spec fn digit_value(c: char) -> int {
    (c as u32) - ('0' as u32)
}

/// The decimal numeral of `n`, without leading zeros.
pub open spec fn decimal(n: nat) -> Seq<char>
    decreases n,
{
    if n < 10 {
        seq![digit_char(n as int)]
    } else {
        decimal(n / 10).push(digit_char((n % 10) as int))
    }
}

/// Whether every character is an ASCII decimal digit.
pub open spec fn all_digits(s: Seq<char>) -> bool {
    forall|i: int| 0 <= i < s.len() ==> is_digit(#[trigger] s[i])
}

/// The number that a sequence of decimal digits writes.
pub open spec fn digits_value(s: Seq<char>) -> nat
    decreases s.len(),
{
    if s.len() == 0 {
        0
    } else {
        (digits_value(s.drop_last()) * 10 + digit_value(s.last())) as nat
    }
}

/// The digits of a numeral: an optional leading `+` is dropped.
pub open spec fn numeral_digits(s: Seq<char>) -> Seq<char> {
    if s.len() > 0 && s[0] == '+' {
        s.skip(1)
    } else {
        s
    }
}

/// The unsigned number that `s` writes, where it is at most `max`: an optional `+`, then at least
/// one digit and nothing else.
pub open spec fn parsed_number(s: Seq<char>, max: nat) -> Option<nat> {
    let d = numeral_digits(s);
    if d.len() > 0 && all_digits(d) && digits_value(d) <= max {
        Some(digits_value(d))
    } else {
        None
    }
}

/// The character of the digit `d`.
pub fn digit(d: u8) -> (c: char)
    requires
        d < 10,
    ensures
        c == digit_char(d as int),
{
    (48u8 + d) as char
}

/// The decimal numeral of `n` as a vector of characters.
pub fn decimal_chars(n: u64) -> (out: Vec<char>)
    ensures
        out@ == decimal(n as nat),
    decreases n,
{
    if n < 10 {
        let mut v: Vec<char> = Vec::new();
        v.push(digit(n as u8));
        v
    } else {
        let mut v = decimal_chars(n / 10);
        v.push(digit((n % 10) as u8));
        v
    }
}

/// The decimal numeral of `n`.
pub fn decimal_text(n: u64) -> (out: String)
    ensures
        out@ == decimal(n as nat),
{
    let v = decimal_chars(n);
    string_of(v.as_slice())
}

/// A longer numeral of digits writes a number at least as large as each of its prefixes.
pub proof fn lemma_digits_prefix(s: Seq<char>, k: int)
    requires
        0 <= k <= s.len(),
        all_digits(s),
    ensures
        digits_value(s.take(k)) <= digits_value(s),
    decreases s.len(),
{
    if k == s.len() {
        assert(s.take(k) == s);
    } else {
        let p = s.drop_last();
        assert(all_digits(p)) by {
            assert forall|i: int| 0 <= i < p.len() implies is_digit(#[trigger] p[i]) by {
                assert(p[i] == s[i]);
            }
        }
        lemma_digits_prefix(p, k);
        assert(p.take(k) == s.take(k));
        assert(is_digit(s[s.len() - 1]));
    }
}

/// A decimal numeral consists of digits, has at least one of them, and writes its number.
pub proof fn lemma_decimal_digits(n: nat)
    ensures
        all_digits(decimal(n)),
        decimal(n).len() > 0,
        digits_value(decimal(n)) == n,
    decreases n,
{
    if n >= 10 {
        lemma_decimal_digits(n / 10);
        let d = decimal(n);
        assert(d.drop_last() == decimal(n / 10));
        assert forall|i: int| 0 <= i < d.len() implies is_digit(#[trigger] d[i]) by {
            if i < d.len() - 1 {
                assert(d[i] == decimal(n / 10)[i]);
            }
        }
    } else {
        let d = decimal(n);
        assert(d.drop_last() =~= Seq::<char>::empty());
        assert(digits_value(d.drop_last()) == 0);
        assert(d.last() == digit_char(n as int));
    }
}

/// Reading back the decimal numeral of a number gives that number.
pub proof fn law_decimal_parses_back(n: nat, max: nat)
    requires
        n <= max,
    ensures
        parsed_number(decimal(n), max) == Some(n),
{
    lemma_decimal_digits(n);
    assert(is_digit(decimal(n)[0]));
}

/// The unsigned 64-bit number that the characters write, if they write one.
pub fn parse_u64(s: &[char]) -> (out: Option<u64>)
    ensures
        match parsed_number(s@, u64::MAX as nat) {
            Some(n) => out == Some(n as u64),
            None => out is None,
        },
{
    let start: usize = if s.len() > 0 && s[0] == '+' { 1 } else { 0 };
    let ghost d = numeral_digits(s@);
    assert(d == s@.skip(start as int));
    if s.len() == start {
        return None;
    }
    let mut i: usize = start;
    let mut value: u64 = 0;
    while i < s.len()
        invariant
            start <= i <= s.len(),
            start < s.len(),
            d == s@.skip(start as int),
            d == numeral_digits(s@),
            all_digits(d.take(i - start)),
            value == digits_value(d.take(i - start)),
        decreases s.len() - i,
    {
        let c = s[i];
        let ghost pre = d.take(i - start);
        let ghost next = d.take(i + 1 - start);
        assert(next.drop_last() == pre);
        assert(next.last() == c);
        if !('0' <= c && c <= '9') {
            assert(d[i - start] == c);
            return None;
        }
        let v: u64 = (c as u32 - '0' as u32) as u64;
        assert(all_digits(next)) by {
            assert forall|k: int| 0 <= k < next.len() implies is_digit(#[trigger] next[k]) by {
                if k < pre.len() {
                    assert(next[k] == pre[k]);
                }
            }
        }
        let grown: u128 = value as u128 * 10 + v as u128;
        assert(grown == digits_value(next));
        if grown > u64::MAX as u128 {
            proof {
                if all_digits(d) {
                    lemma_digits_prefix(d, i + 1 - start);
                }
            }
            return None;
        }
        value = grown as u64;
        i += 1;
    }
    assert(d.take(d.len() as int) == d);
    Some(value)
}

/// The number that the characters write, if they write one that fits in `usize`.
pub fn parse_usize(s: &[char]) -> (out: Option<usize>)
    ensures
        match parsed_number(s@, usize::MAX as nat) {
            Some(n) => out == Some(n as usize),
            None => out is None,
        },
{
    match parse_u64(s) {
        Some(n) => if n <= usize::MAX as u64 {
            Some(n as usize)
        } else {
            None
        },
        None => None,
    }
}

// ---------------------------------------------------------------------------------------------
// Trimming
// ---------------------------------------------------------------------------------------------

/// Whether a character has the Unicode property White_Space.
pub open spec fn is_white(c: char) -> bool {
    let u = c as u32;
    ||| 9 <= u <= 13
    ||| u == 0x20
    ||| u == 0x85
    ||| u == 0xa0
    ||| u == 0x1680
    ||| 0x2000 <= u <= 0x200a
    ||| u == 0x2028
    ||| u == 0x2029
    ||| u == 0x202f
    ||| u == 0x205f
    ||| u == 0x3000
}

/// Whether a character is white space.
pub fn white(c: char) -> (out: bool)
    ensures
        out == is_white(c),
{
    let u: u32 = c as u32;
    (9 <= u && u <= 13) || u == 0x20 || u == 0x85 || u == 0xa0 || u == 0x1680 || (0x2000 <= u && u
        <= 0x200a) || u == 0x2028 || u == 0x2029 || u == 0x202f || u == 0x205f || u == 0x3000
}

/// `s` without the leading characters that equal `c`.
pub open spec fn trimmed_start_of(s: Seq<char>, c: char) -> Seq<char>
    decreases s.len(),
{
    if s.len() > 0 && s[0] == c {
        trimmed_start_of(s.drop_first(), c)
    } else {
        s
    }
}

/// `s` without the trailing characters that equal `c`.
pub open spec fn trimmed_end_of(s: Seq<char>, c: char) -> Seq<char>
    decreases s.len(),
{
    if s.len() > 0 && s.last() == c {
        trimmed_end_of(s.drop_last(), c)
    } else {
        s
    }
}

/// `s` without leading white space.
pub open spec fn trimmed_start(s: Seq<char>) -> Seq<char>
    decreases s.len(),
{
    if s.len() > 0 && is_white(s[0]) {
        trimmed_start(s.drop_first())
    } else {
        s
    }
}

/// `s` without trailing white space.
pub open spec fn trimmed_end(s: Seq<char>) -> Seq<char>
    decreases s.len(),
{
    if s.len() > 0 && is_white(s.last()) {
        trimmed_end(s.drop_last())
    } else {
        s
    }
}

/// `s` without leading and trailing white space.
pub open spec fn trimmed(s: Seq<char>) -> Seq<char> {
    trimmed_end(trimmed_start(s))
}

/// A copy of the characters from `from` up to `to`.
pub fn slice_of(s: &[char], from: usize, to: usize) -> (out: Vec<char>)
    requires
        from <= to <= s@.len(),
    ensures
        out@ == s@.subrange(from as int, to as int),
{
    let mut out: Vec<char> = Vec::new();
    let mut i: usize = from;
    while i < to
        invariant
            from <= i <= to <= s@.len(),
            out@ == s@.subrange(from as int, i as int),
        decreases to - i,
    {
        out.push(s[i]);
        assert(s@.subrange(from as int, i + 1) == s@.subrange(from as int, i as int).push(
            s@[i as int],
        ));
        i += 1;
    }
    out
}

/// The characters without the leading ones that equal `c`.
pub fn trim_start_of(s: &[char], c: char) -> (out: Vec<char>)
    ensures
        out@ == trimmed_start_of(s@, c),
{
    let mut i: usize = 0;
    assert(s@.skip(0) == s@);
    while i < s.len() && s[i] == c
        invariant
            i <= s.len(),
            trimmed_start_of(s@.skip(i as int), c) == trimmed_start_of(s@, c),
        decreases s.len() - i,
    {
        assert(s@.skip(i as int).drop_first() == s@.skip(i + 1));
        assert(s@.skip(i as int)[0] == s@[i as int]);
        i += 1;
    }
    proof {
        if i < s.len() {
            assert(s@.skip(i as int)[0] == s@[i as int]);
        }
    }
    slice_of(s, i, s.len())
}

/// The characters without the trailing ones that equal `c`.
pub fn trim_end_of(s: &[char], c: char) -> (out: Vec<char>)
    ensures
        out@ == trimmed_end_of(s@, c),
{
    let mut n: usize = s.len();
    assert(s@.take(n as int) == s@);
    while n > 0 && s[n - 1] == c
        invariant
            n <= s.len(),
            trimmed_end_of(s@.take(n as int), c) == trimmed_end_of(s@, c),
        decreases n,
    {
        assert(s@.take(n as int).drop_last() == s@.take(n - 1));
        n -= 1;
    }
    slice_of(s, 0, n)
}

/// The characters without leading and trailing white space.
pub fn trim(s: &[char]) -> (out: Vec<char>)
    ensures
        out@ == trimmed(s@),
{
    let mut i: usize = 0;
    assert(s@.skip(0) == s@);
    while i < s.len() && white(s[i])
        invariant
            i <= s.len(),
            trimmed_start(s@.skip(i as int)) == trimmed_start(s@),
        decreases s.len() - i,
    {
        assert(s@.skip(i as int).drop_first() == s@.skip(i + 1));
        assert(s@.skip(i as int)[0] == s@[i as int]);
        i += 1;
    }
    let ghost front = s@.skip(i as int);
    proof {
        if i < s.len() {
            assert(front[0] == s@[i as int]);
        }
        assert(trimmed_start(s@) == front);
        assert(front.take(front.len() as int) == front);
    }
    let mut n: usize = s.len();
    while n > i && white(s[n - 1])
        invariant
            i <= n <= s.len(),
            front == s@.skip(i as int),
            trimmed_end(front.take(n - i)) == trimmed_end(front),
        decreases n,
    {
        assert(front.take(n - i).drop_last() == front.take(n - 1 - i));
        assert(front.take(n - i).last() == s@[n - 1]);
        n -= 1;
    }
    proof {
        assert(front.take(n - i) =~= s@.subrange(i as int, n as int));
        if n > i {
            assert(front.take(n - i).last() == s@[n - 1]);
        }
    }
    slice_of(s, i, n)
}

/// Whether all characters are white space.
pub open spec fn all_white(s: Seq<char>) -> bool {
    forall|i: int| 0 <= i < s.len() ==> is_white(#[trigger] s[i])
}

/// White space in front goes first.
proof fn lemma_trimmed_start_padded(a: Seq<char>, s: Seq<char>)
    requires
        all_white(a),
    ensures
        trimmed_start(a + s) == trimmed_start(s),
    decreases a.len(),
{
    if a.len() == 0 {
        assert(a + s =~= s);
    } else {
        assert((a + s)[0] == a[0]);
        assert((a + s).drop_first() =~= a.drop_first() + s);
        lemma_trimmed_start_padded(a.drop_first(), s);
    }
}

proof fn lemma_trimmed_end_padded(s: Seq<char>, b: Seq<char>)
    requires
        all_white(b),
    ensures
        trimmed_end(s + b) == trimmed_end(s),
    decreases b.len(),
{
    if b.len() == 0 {
        assert(s + b =~= s);
    } else {
        assert((s + b).last() == b.last());
        assert((s + b).drop_last() =~= s + b.drop_last());
        lemma_trimmed_end_padded(s, b.drop_last());
    }
}

/// What trimming in front leaves is the text behind some white space, and does not begin with
/// any.
pub proof fn lemma_trimmed_start(s: Seq<char>)
    ensures
        s == s.take(s.len() - trimmed_start(s).len()) + trimmed_start(s),
        trimmed_start(s).len() <= s.len(),
        all_white(s.take(s.len() - trimmed_start(s).len())),
        trimmed_start(s).len() > 0 ==> !is_white(trimmed_start(s)[0]),
    decreases s.len(),
{
    if s.len() > 0 && is_white(s[0]) {
        let rest = s.drop_first();
        lemma_trimmed_start(rest);
        let n = rest.len() - trimmed_start(rest).len();
        assert(s.take(n + 1) =~= seq![s[0]] + rest.take(n));
        assert(s =~= seq![s[0]] + (rest.take(n) + trimmed_start(rest)));
        assert(s =~= s.take(n + 1) + trimmed_start(s));
        assert forall|i: int| 0 <= i < n + 1 implies is_white(#[trigger] s.take(n + 1)[i]) by {
            if i > 0 {
                assert(rest.take(n)[i - 1] == s[i]);
            }
        }
    } else {
        assert(s =~= s.take(0) + s);
    }
}

/// What trimming at the end leaves is the text before some white space, and does not end with
/// any.
pub proof fn lemma_trimmed_end(s: Seq<char>)
    ensures
        trimmed_end(s).len() <= s.len(),
        s == trimmed_end(s) + s.skip(trimmed_end(s).len() as int),
        all_white(s.skip(trimmed_end(s).len() as int)),
        trimmed_end(s).len() > 0 ==> !is_white(trimmed_end(s).last()),
    decreases s.len(),
{
    if s.len() > 0 && is_white(s.last()) {
        let rest = s.drop_last();
        lemma_trimmed_end(rest);
        let n = trimmed_end(rest).len() as int;
        assert(s.skip(n) =~= rest.skip(n).push(s.last()));
        assert(s =~= (trimmed_end(rest) + rest.skip(n)).push(s.last()));
        assert(s =~= trimmed_end(s) + s.skip(n));
        assert forall|i: int| 0 <= i < s.skip(n).len() implies is_white(#[trigger] s.skip(n)[i]) by {
            if i < rest.skip(n).len() {
                assert(rest.skip(n)[i] == s.skip(n)[i]);
            }
        }
    } else {
        assert(s =~= s + s.skip(s.len() as int));
    }
}

/// White space around a text does not matter once it is trimmed.
pub proof fn lemma_trimmed_padded(a: Seq<char>, s: Seq<char>, b: Seq<char>)
    requires
        all_white(a),
        all_white(b),
    ensures
        trimmed(a + s + b) == trimmed(s),
{
    assert(a + s + b =~= a + (s + b));
    lemma_trimmed_start_padded(a, s + b);
    lemma_trimmed_start(s);
    let gone = s.take(s.len() - trimmed_start(s).len());
    let front = trimmed_start(s);
    if front.len() == 0 {
        assert(all_white(s + b)) by {
            assert(s =~= gone);
        }
        lemma_trimmed_start_padded(s + b, Seq::empty());
        assert((s + b) + Seq::<char>::empty() =~= s + b);
    } else {
        assert(s + b =~= gone + (front + b));
        lemma_trimmed_start_padded(gone, front + b);
        assert((front + b)[0] == front[0]);
        lemma_trimmed_end_padded(front, b);
    }
}

/// A text that neither begins nor ends with white space stays as it is.
pub proof fn lemma_trimmed_same(s: Seq<char>)
    requires
        s.len() > 0,
        !is_white(s[0]),
        !is_white(s.last()),
    ensures
        trimmed(s) == s,
{
}

/// Trimming goes well with a change of the characters that leaves white space alone.
pub proof fn lemma_trimmed_mapped(s: Seq<char>, f: spec_fn(char) -> char)
    requires
        forall|c: char| is_white(#[trigger] f(c)) == is_white(c),
    ensures
        trimmed(s.map_values(f)) == trimmed(s).map_values(f),
{
    lemma_trimmed_start_mapped(s, f);
    lemma_trimmed_end_mapped(trimmed_start(s), f);
}

proof fn lemma_trimmed_start_mapped(s: Seq<char>, f: spec_fn(char) -> char)
    requires
        forall|c: char| is_white(#[trigger] f(c)) == is_white(c),
    ensures
        trimmed_start(s.map_values(f)) == trimmed_start(s).map_values(f),
    decreases s.len(),
{
    if s.len() > 0 && is_white(s[0]) {
        lemma_trimmed_start_mapped(s.drop_first(), f);
        assert(s.map_values(f).drop_first() =~= s.drop_first().map_values(f));
    } else if s.len() > 0 {
        assert(s.map_values(f)[0] == f(s[0]));
    }
}

proof fn lemma_trimmed_end_mapped(s: Seq<char>, f: spec_fn(char) -> char)
    requires
        forall|c: char| is_white(#[trigger] f(c)) == is_white(c),
    ensures
        trimmed_end(s.map_values(f)) == trimmed_end(s).map_values(f),
    decreases s.len(),
{
    if s.len() > 0 && is_white(s.last()) {
        lemma_trimmed_end_mapped(s.drop_last(), f);
        assert(s.map_values(f).drop_last() =~= s.drop_last().map_values(f));
    } else if s.len() > 0 {
        assert(s.map_values(f).last() == f(s.last()));
    }
}

// ---------------------------------------------------------------------------------------------
// Searching and splitting
// ---------------------------------------------------------------------------------------------

/// The position of the first `c` in `s`, or the length of `s` where there is none.
pub open spec fn find(s: Seq<char>, c: char) -> int
    decreases s.len(),
{
    if s.len() == 0 || s[0] == c {
        0
    } else {
        1 + find(s.drop_first(), c)
    }
}

/// The pieces of `s` between the occurrences of `c`.
pub open spec fn split(s: Seq<char>, c: char) -> Seq<Seq<char>>
    decreases s.len(),
{
    let i = find(s, c);
    if 0 <= i < s.len() {
        seq![s.take(i)] + split(s.skip(i + 1), c)
    } else {
        seq![s]
    }
}

/// `find` gives the first occurrence, if there is one.
pub proof fn lemma_find(s: Seq<char>, c: char)
    ensures
        0 <= find(s, c) <= s.len(),
        find(s, c) < s.len() ==> s[find(s, c)] == c,
        forall|k: int| 0 <= k < find(s, c) ==> s[k] != c,
    decreases s.len(),
{
    if s.len() > 0 && s[0] != c {
        let rest = s.drop_first();
        lemma_find(rest, c);
        assert forall|k: int| 0 <= k < find(s, c) implies s[k] != c by {
            if k > 0 {
                assert(s[k] == rest[k - 1]);
            }
        }
        if find(s, c) < s.len() {
            assert(s[find(s, c)] == rest[find(rest, c)]);
        }
    }
}

/// A position with `c` and none before it is what `find` gives.
pub proof fn lemma_find_is(s: Seq<char>, c: char, i: int)
    requires
        0 <= i <= s.len(),
        i < s.len() ==> s[i] == c,
        forall|k: int| 0 <= k < i ==> s[k] != c,
    ensures
        find(s, c) == i,
{
    lemma_find(s, c);
    let f = find(s, c);
    if f < i {
        assert(s[f] != c);
    }
    if i < f {
        assert(s[i] != c);
    }
}

/// The position of the first `c` at or after `from`, or the length where there is none.
pub fn find_from(s: &[char], c: char, from: usize) -> (out: usize)
    requires
        from <= s@.len(),
    ensures
        from <= out <= s@.len(),
        out == from + find(s@.skip(from as int), c),
{
    let mut i: usize = from;
    while i < s.len() && s[i] != c
        invariant
            from <= i <= s.len(),
            forall|k: int| from <= k < i ==> s@[k] != c,
        decreases s.len() - i,
    {
        i += 1;
    }
    proof {
        lemma_find_is(s@.skip(from as int), c, i - from);
    }
    i
}

/// The views of a sequence of character vectors.
pub open spec fn pieces(v: Seq<Vec<char>>) -> Seq<Seq<char>> {
    v.map_values(|p: Vec<char>| p@)
}

/// The pieces of `s` between the occurrences of `c`.
pub fn split_at_char(s: &[char], c: char) -> (out: Vec<Vec<char>>)
    ensures
        pieces(out@) == split(s@, c),
{
    let mut out: Vec<Vec<char>> = Vec::new();
    let mut from: usize = 0;
    assert(s@.skip(0) == s@);
    assert(pieces(out@) + split(s@, c) == split(s@, c));
    loop
        invariant
            from <= s@.len(),
            pieces(out@) + split(s@.skip(from as int), c) == split(s@, c),
        decreases s@.len() - from,
    {
        let i = find_from(s, c, from);
        let ghost rest = s@.skip(from as int);
        let piece = slice_of(s, from, i);
        proof {
            assert(piece@ == rest.take(i - from));
        }
        let ghost before = out@;
        out.push(piece);
        assert(pieces(out@) == pieces(before).push(rest.take(i - from)));
        if i == s.len() {
            proof {
                assert(rest.take(i - from) == rest);
                assert(split(rest, c) == seq![rest]);
                assert(pieces(out@) == pieces(before) + split(rest, c));
            }
            return out;
        }
        proof {
            assert(rest.skip(i - from + 1) == s@.skip(i + 1));
            assert(split(rest, c) == seq![rest.take(i - from)] + split(s@.skip(i + 1), c));
            assert(pieces(out@) + split(s@.skip(i + 1), c) == pieces(before) + split(rest, c));
        }
        from = i + 1;
    }
}

/// Whether `s` begins with `p`.
pub open spec fn starts_with(s: Seq<char>, p: Seq<char>) -> bool {
    p.len() <= s.len() && s.take(p.len() as int) == p
}

/// Whether `s` ends with `p`.
pub open spec fn ends_with(s: Seq<char>, p: Seq<char>) -> bool {
    p.len() <= s.len() && s.skip(s.len() - p.len()) == p
}

/// Whether `p` occurs in `s`.
pub open spec fn contains_text(s: Seq<char>, p: Seq<char>) -> bool {
    exists|i: int| 0 <= i <= s.len() - p.len() && #[trigger] s.subrange(i, i + p.len()) == p
}

/// Whether `p` stands in `s` at position `at`.
pub fn stands_at(s: &[char], p: &[char], at: usize) -> (out: bool)
    ensures
        out == (at + p@.len() <= s@.len() && s@.subrange(at as int, at + p@.len()) == p@),
{
    if at > s.len() || p.len() > s.len() - at {
        return false;
    }
    let mut k: usize = 0;
    while k < p.len()
        invariant
            k <= p.len(),
            at + p.len() <= s.len(),
            forall|j: int| 0 <= j < k ==> s@[at + j] == p@[j],
        decreases p.len() - k,
    {
        if s[at + k] != p[k] {
            assert(s@.subrange(at as int, at + p@.len())[k as int] != p@[k as int]);
            return false;
        }
        k += 1;
    }
    assert(s@.subrange(at as int, at + p@.len()) =~= p@);
    true
}

/// Whether `s` begins with `p`.
pub fn begins(s: &[char], p: &[char]) -> (out: bool)
    ensures
        out == starts_with(s@, p@),
{
    proof {
        if p@.len() <= s@.len() {
            assert(s@.subrange(0, p@.len() as int) == s@.take(p@.len() as int));
        }
    }
    stands_at(s, p, 0)
}

/// Whether `s` ends with `p`.
pub fn ends(s: &[char], p: &[char]) -> (out: bool)
    ensures
        out == ends_with(s@, p@),
{
    if p.len() > s.len() {
        return false;
    }
    assert(s@.subrange(s@.len() - p@.len(), s@.len() as int) == s@.skip(s@.len() - p@.len()));
    stands_at(s, p, s.len() - p.len())
}

/// Whether `p` occurs in `s`.
pub fn contains(s: &[char], p: &[char]) -> (out: bool)
    ensures
        out == contains_text(s@, p@),
{
    let mut i: usize = 0;
    while i <= s.len() && p.len() <= s.len() - i
        invariant
            i <= s.len() + 1,
            forall|j: int| 0 <= j < i ==> #[trigger] s@.subrange(j, j + p@.len()) != p@,
        decreases s.len() + 1 - i,
    {
        if stands_at(s, p, i) {
            assert(s@.subrange(i as int, i + p@.len()) == p@);
            return true;
        }
        if i == s.len() {
            return false;
        }
        i += 1;
    }
    false
}

/// `s` without the prefix `p`, where it has that prefix, else `s`.
pub open spec fn without_prefix(s: Seq<char>, p: Seq<char>) -> Seq<char> {
    if starts_with(s, p) {
        s.skip(p.len() as int)
    } else {
        s
    }
}

/// The characters without the prefix `p`, where they have that prefix.
pub fn strip_front(s: &[char], p: &[char]) -> (out: Vec<char>)
    ensures
        out@ == without_prefix(s@, p@),
{
    if begins(s, p) {
        slice_of(s, p.len(), s.len())
    } else {
        slice_of(s, 0, s.len())
    }
}

/// `s` with every `from` replaced by `to`.
pub open spec fn replaced(s: Seq<char>, from: char, to: char) -> Seq<char> {
    Seq::new(s.len(), |i: int| if s[i] == from { to } else { s[i] })
}

/// The string with every `from` replaced by `to`.
pub fn replace_char(s: &str, from: char, to: char) -> (out: String)
    ensures
        out@ == replaced(s@, from, to),
{
    let v = chars_of(s);
    let mut out = String::new();
    let mut i: usize = 0;
    while i < v.len()
        invariant
            i <= v.len(),
            v@ == s@,
            out@ == replaced(s@, from, to).take(i as int),
        decreases v.len() - i,
    {
        let c = if v[i] == from {
            to
        } else {
            v[i]
        };
        out.push(c);
        assert(replaced(s@, from, to).take(i + 1) == replaced(s@, from, to).take(i as int).push(c));
        i += 1;
    }
    assert(replaced(s@, from, to).take(i as int) == replaced(s@, from, to));
    out
}

/// The strings joined, with `sep` between each two.
pub open spec fn joined(parts: Seq<Seq<char>>, sep: Seq<char>) -> Seq<char>
    decreases parts.len(),
{
    if parts.len() == 0 {
        Seq::empty()
    } else if parts.len() == 1 {
        parts[0]
    } else {
        joined(parts.drop_last(), sep) + sep + parts.last()
    }
}

/// The strings joined, with `sep` between each two.
pub fn join(parts: &Vec<String>, sep: &str) -> (out: String)
    ensures
        out@ == joined(views(parts@), sep@),
{
    let mut out = String::new();
    let mut i: usize = 0;
    let ghost all = views(parts@);
    while i < parts.len()
        invariant
            i <= parts.len(),
            all == views(parts@),
            out@ == joined(all.take(i as int), sep@),
        decreases parts.len() - i,
    {
        if i > 0 {
            out.append(sep);
        }
        out.append(parts[i].as_str());
        proof {
            assert(all.take(i + 1).drop_last() == all.take(i as int));
            assert(all.take(i + 1).last() == parts@[i as int]@);
            if i == 0 {
                assert(out@ == parts@[0]@);
            }
        }
        i += 1;
    }
    assert(all.take(i as int) == all);
    out
}

/// What `str::to_lowercase` returns.
pub uninterp spec fn lowercase(s: Seq<char>) -> Seq<char>;

/// Whether all characters are ASCII.
pub open spec fn is_ascii(s: Seq<char>) -> bool {
    forall|i: int| 0 <= i < s.len() ==> (#[trigger] s[i] as u32) < 128
}

/// An ASCII letter in lower case; any other character as it is.
pub open spec fn lower_char(c: char) -> char {
    if 'A' <= c && c <= 'Z' {
        ((c as u32 + 32) as u8) as char
    } else {
        c
    }
}

/// The text with its ASCII letters in lower case.
pub open spec fn lowered(s: Seq<char>) -> Seq<char> {
    s.map_values(|c: char| lower_char(c))
}

/// An ASCII letter in upper case; any other character as it is.
pub open spec fn upper_char(c: char) -> char {
    if 'a' <= c && c <= 'z' {
        ((c as u32 - 32) as u8) as char
    } else {
        c
    }
}

/// The text with its ASCII letters in upper case.
pub open spec fn uppered(s: Seq<char>) -> Seq<char> {
    s.map_values(|c: char| upper_char(c))
}

/// Letters change their case and nothing else.
pub proof fn lemma_case_of(c: char)
    ensures
        lower_char(lower_char(c)) == lower_char(c),
        lower_char(upper_char(c)) == lower_char(c),
        is_white(lower_char(c)) == is_white(c),
        is_white(upper_char(c)) == is_white(c),
        (c as u32) < 128 ==> (lower_char(c) as u32) < 128 && (upper_char(c) as u32) < 128,
{
    if 'A' <= c && c <= 'Z' {
        assert(lower_char(c) as u32 == c as u32 + 32);
    }
    if 'a' <= c && c <= 'z' {
        let d = upper_char(c);
        assert(d as u32 == c as u32 - 32);
        assert(lower_char(d) as u32 == d as u32 + 32);
    }
}

/// Case and trimming: a text in lower or upper case has the same form in lower case, is trimmed
/// alike, and stays ASCII.
pub proof fn lemma_case(s: Seq<char>)
    ensures
        lowered(trimmed(lowered(s))) == lowered(trimmed(s)),
        lowered(trimmed(uppered(s))) == lowered(trimmed(s)),
        trimmed(lowered(s)).len() == trimmed(s).len(),
        trimmed(uppered(s)).len() == trimmed(s).len(),
        is_ascii(s) ==> is_ascii(lowered(s)) && is_ascii(uppered(s)),
{
    let f = |c: char| lower_char(c);
    let g = |c: char| upper_char(c);
    assert forall|c: char| is_white(#[trigger] f(c)) == is_white(c) by {
        lemma_case_of(c);
    }
    assert forall|c: char| is_white(#[trigger] g(c)) == is_white(c) by {
        lemma_case_of(c);
    }
    lemma_trimmed_mapped(s, f);
    lemma_trimmed_mapped(s, g);
    let r = trimmed(s);
    assert forall|i: int| 0 <= i < r.len() implies lower_char(lower_char(#[trigger] r[i]))
        == lower_char(r[i]) && lower_char(upper_char(r[i])) == lower_char(r[i]) by {
        lemma_case_of(r[i]);
    }
    assert(lowered(r.map_values(f)) =~= lowered(r));
    assert(lowered(r.map_values(g)) =~= lowered(r));
    assert forall|i: int| 0 <= i < s.len() && (#[trigger] s[i] as u32) < 128 implies (
    lower_char(s[i]) as u32) < 128 && (upper_char(s[i]) as u32) < 128 by {
        lemma_case_of(s[i]);
    }
}

/// What is trimmed of an ASCII text is ASCII.
pub proof fn lemma_trimmed_ascii(s: Seq<char>)
    requires
        is_ascii(s),
    ensures
        is_ascii(trimmed(s)),
{
    let front = trimmed_start(s);
    lemma_trimmed_start(s);
    lemma_trimmed_end(front);
    let n = s.len() - front.len();
    assert forall|i: int| 0 <= i < trimmed(s).len() implies (#[trigger] trimmed(s)[i] as u32)
        < 128 by {
        assert(trimmed(s)[i] == front[i]);
        assert(front[i] == s[n + i]);
    }
}

/// Calls `str::to_lowercase`. The result is a function of the text; of a text that is all ASCII
/// it is the text with its letters in lower case.
#[verifier::external_body]
pub(crate) fn to_lowercase(s: &str) -> (out: String)
    ensures
        out@ == lowercase(s@),
        is_ascii(s@) ==> out@ == lowered(s@),
{
    s.to_lowercase()
}

/// What the `Debug` form of a string slice is.
pub uninterp spec fn debug_form(s: Seq<char>) -> Seq<char>;

/// Formats a string slice with `Debug`: in double quotes, with what cannot stand there escaped.
/// The result is a function of the text.
#[verifier::external_body]
pub(crate) fn quoted(s: &str) -> (out: String)
    ensures
        out@ == debug_form(s@),
{
    format!("{s:?}")
}

/// An ASCII letter in lower case; any other character as it is.
pub fn lower(c: char) -> (out: char)
    ensures
        out == lower_char(c),
{
    if 'A' <= c && c <= 'Z' {
        (c as u8 + 32) as char
    } else {
        c
    }
}

/// The text with its ASCII letters in lower case.
pub fn to_lower(s: &[char]) -> (out: Vec<char>)
    ensures
        out@ == lowered(s@),
{
    let mut out: Vec<char> = Vec::new();
    let mut i: usize = 0;
    while i < s.len()
        invariant
            i <= s@.len(),
            out@ == lowered(s@.take(i as int)),
        decreases s@.len() - i,
    {
        out.push(lower(s[i]));
        assert(s@.take(i + 1) =~= s@.take(i as int).push(s@[i as int]));
        assert(out@ =~= lowered(s@.take(i + 1)));
        i += 1;
    }
    assert(s@.take(s@.len() as int) =~= s@);
    out
}

/// Trimming takes the white space around a text and nothing else; of white space alone nothing
/// is left.
pub proof fn law_trimming_takes_the_white_space(a: Seq<char>, s: Seq<char>, b: Seq<char>)
    requires
        all_white(a),
        all_white(b),
        s.len() > 0,
        !is_white(s[0]),
        !is_white(s.last()),
    ensures
        trimmed(a + s + b) == s,
        trimmed(a).len() == 0,
{
    lemma_trimmed_padded(a, s, b);
    lemma_trimmed_same(s);
    let none = Seq::<char>::empty();
    lemma_trimmed_padded(a, none, none);
    assert(a + none + none =~= a);
    assert(trimmed_start(none) == none);
}

/// Of the ASCII characters, blanks, tabs, line ends and form feeds are white space, and no others.
pub proof fn law_white_space(c: char)
    ensures
        (c as u32) < 128 ==> (is_white(c) <==> c == ' ' || 9 <= c as u32 && c as u32 <= 13),
{
}

/// Trimming a character takes all of it at that end and nothing else.
pub proof fn law_trimming_takes_the_character(a: Seq<char>, s: Seq<char>, c: char)
    requires
        forall|i: int| 0 <= i < a.len() ==> #[trigger] a[i] == c,
    ensures
        s.len() == 0 || s[0] != c ==> trimmed_start_of(a + s, c) == s,
        s.len() == 0 || s.last() != c ==> trimmed_end_of(s + a, c) == s,
    decreases a.len(),
{
    if a.len() == 0 {
        assert(a + s =~= s);
        assert(s + a =~= s);
    } else {
        let rest = a.drop_first();
        let front = a.drop_last();
        assert forall|i: int| 0 <= i < front.len() implies #[trigger] front[i] == c by {
            assert(front[i] == a[i]);
        }
        assert(rest =~= front) by {
            assert forall|i: int| 0 <= i < rest.len() implies rest[i] == front[i] by {
                assert(rest[i] == a[i + 1]);
                assert(front[i] == a[i]);
            }
        }
        law_trimming_takes_the_character(front, s, c);
        assert((a + s).drop_first() =~= rest + s);
        assert((s + a).drop_last() =~= s + front);
        assert((a + s)[0] == a[0]);
        assert((s + a).last() == a[a.len() - 1]);
    }
}

/// The pieces between the occurrences of a character, joined by it, are the text again, and none
/// of them holds it.
pub proof fn law_split_and_join(s: Seq<char>, c: char)
    ensures
        joined(split(s, c), seq![c]) == s,
        split(s, c).len() > 0,
        forall|i: int| 0 <= i < split(s, c).len() ==> !(#[trigger] split(s, c)[i]).contains(c),
    decreases s.len(),
{
    lemma_find(s, c);
    let i = find(s, c);
    if i < s.len() {
        let head = s.take(i);
        let rest = s.skip(i + 1);
        let tail = split(rest, c);
        law_split_and_join(rest, c);
        law_joined_parts(seq![head], tail, seq![c]);
        assert(joined(seq![head], seq![c]) == head);
        assert(head + seq![c] + rest =~= s);
        assert forall|k: int| 0 <= k < split(s, c).len() implies !(#[trigger] split(
            s,
            c,
        )[k]).contains(c) by {
            if k > 0 {
                assert(split(s, c)[k] == tail[k - 1]);
            }
        }
    } else {
        assert(joined(seq![s], seq![c]) == s);
    }
}

/// Joined texts stand in order with the separator between each two, and nothing else.
pub proof fn law_joined_parts(a: Seq<Seq<char>>, b: Seq<Seq<char>>, sep: Seq<char>)
    requires
        a.len() > 0,
        b.len() > 0,
    ensures
        joined(a + b, sep) == joined(a, sep) + sep + joined(b, sep),
        joined(seq![a[0]], sep) == a[0],
        joined(Seq::empty(), sep).len() == 0,
    decreases b.len(),
{
    assert((a + b).drop_last() =~= a + b.drop_last());
    assert((a + b).last() == b.last());
    if b.len() == 1 {
        assert(a + b.drop_last() =~= a);
    } else {
        law_joined_parts(a, b.drop_last(), sep);
        assert(joined(a, sep) + sep + joined(b.drop_last(), sep) + sep + b.last() =~= joined(a, sep)
            + sep + (joined(b.drop_last(), sep) + sep + b.last()));
    }
}

/// What a text begins with, and what is left of it behind that.
pub proof fn law_beginnings(s: Seq<char>, p: Seq<char>, b: Seq<char>)
    ensures
        starts_with(p + b, p),
        without_prefix(p + b, p) == b,
        starts_with(s, p) ==> s == p + without_prefix(s, p),
        !starts_with(s, p) ==> without_prefix(s, p) == s,
{
    assert((p + b).take(p.len() as int) =~= p);
    assert((p + b).skip(p.len() as int) =~= b);
    if starts_with(s, p) {
        assert(s =~= p + s.skip(p.len() as int));
    }
}

/// What a text ends with.
pub proof fn law_ends(s: Seq<char>, p: Seq<char>, a: Seq<char>)
    ensures
        ends_with(a + p, p),
        ends_with(s, p) ==> s == s.take(s.len() - p.len()) + p,
{
    assert((a + p).skip((a + p).len() - p.len()) =~= p);
    if ends_with(s, p) {
        assert(s =~= s.take(s.len() - p.len()) + p);
    }
}

/// What a text holds.
pub proof fn law_text_is_found_anywhere(a: Seq<char>, p: Seq<char>, b: Seq<char>)
    ensures
        contains_text(a + p + b, p),
{
    let s = a + p + b;
    let i = a.len() as int;
    assert(s.subrange(i, i + p.len()) =~= p);
}

/// What is found in a text stands between what comes before it and what comes behind it.
pub proof fn law_only_parts_are_found(s: Seq<char>, p: Seq<char>) -> (parts: (Seq<char>, Seq<char>))
    requires
        contains_text(s, p),
    ensures
        s == parts.0 + p + parts.1,
{
    let i = choose|i: int|
        0 <= i <= s.len() - p.len() && #[trigger] s.subrange(i, i + p.len()) == p;
    let t = s.take(i);
    let u = s.skip(i + p.len());
    assert(s =~= t + s.subrange(i, i + p.len()) + u);
    (t, u)
}

/// Characters are replaced one by one.
pub proof fn law_characters_are_replaced(s: Seq<char>, from: char, to: char, i: int)
    requires
        0 <= i < s.len(),
    ensures
        replaced(s, from, to).len() == s.len(),
        s[i] == from ==> replaced(s, from, to)[i] == to,
        s[i] != from ==> replaced(s, from, to)[i] == s[i],
{
}

/// Lower case moves the letters `A` to `Z` to `a` to `z`, upper case the other way, and neither
/// changes anything else.
pub proof fn law_letters_change_their_case(s: Seq<char>, i: int)
    requires
        0 <= i < s.len(),
    ensures
        lowered(s).len() == s.len(),
        uppered(s).len() == s.len(),
        65 <= s[i] as u32 && s[i] as u32 <= 90 ==> lowered(s)[i] as u32 == s[i] as u32 + 32,
        !(65 <= s[i] as u32 && s[i] as u32 <= 90) ==> lowered(s)[i] == s[i],
        97 <= s[i] as u32 && s[i] as u32 <= 122 ==> uppered(s)[i] as u32 == s[i] as u32 - 32,
        !(97 <= s[i] as u32 && s[i] as u32 <= 122) ==> uppered(s)[i] == s[i],
{
}

/// A number is read from digits alone, with or without a `+` in front: zeros before it do not
/// matter, what is larger than the limit is refused, and so is anything else.
pub proof fn law_numbers_are_read_from_digits(n: nat, max: nat, zeros: Seq<char>, s: Seq<char>)
    requires
        forall|i: int| 0 <= i < zeros.len() ==> #[trigger] zeros[i] == '0',
    ensures
        n <= max ==> parsed_number(zeros + decimal(n), max) == Some(n),
        n <= max ==> parsed_number(seq!['+'] + zeros + decimal(n), max) == Some(n),
        n > max ==> parsed_number(zeros + decimal(n), max) is None,
        s.len() == 0 ==> parsed_number(s, max) is None,
        forall|i: int|
            0 <= i < s.len() && !is_digit(#[trigger] s[i]) && (i > 0 || s[i] != '+')
                ==> parsed_number(s, max) is None,
{
    let d = zeros + decimal(n);
    lemma_decimal_digits(n);
    lemma_leading_zeros(zeros, decimal(n));
    assert(all_digits(d)) by {
        assert forall|i: int| 0 <= i < d.len() implies is_digit(#[trigger] d[i]) by {
            if i < zeros.len() {
                assert(d[i] == zeros[i]);
            } else {
                assert(d[i] == decimal(n)[i - zeros.len()]);
            }
        }
    }
    assert(is_digit(d[0]));
    assert((seq!['+'] + zeros + decimal(n)).skip(1) =~= d);
    assert forall|i: int|
        0 <= i < s.len() && !is_digit(#[trigger] s[i]) && (i > 0 || s[i] != '+') implies parsed_number(
        s,
        max,
    ) is None by {
        let digits = numeral_digits(s);
        if s[0] == '+' {
            assert(digits[i - 1] == s[i]);
        } else {
            assert(digits[i] == s[i]);
        }
    }
}

proof fn lemma_leading_zeros(zeros: Seq<char>, s: Seq<char>)
    requires
        forall|i: int| 0 <= i < zeros.len() ==> #[trigger] zeros[i] == '0',
    ensures
        digits_value(zeros + s) == digits_value(s),
    decreases zeros.len() + s.len(),
{
    if s.len() > 0 {
        lemma_leading_zeros(zeros, s.drop_last());
        assert((zeros + s).drop_last() =~= zeros + s.drop_last());
        assert((zeros + s).last() == s.last());
    } else if zeros.len() > 0 {
        let front = zeros.drop_last();
        assert forall|i: int| 0 <= i < front.len() implies #[trigger] front[i] == '0' by {
            assert(front[i] == zeros[i]);
        }
        lemma_leading_zeros(front, s);
        assert((zeros + s).drop_last() =~= front + s);
        assert((zeros + s).last() == zeros[zeros.len() - 1]);
    } else {
        assert(zeros + s =~= s);
    }
}

/// What stands behind the last occurrence of a character is the last piece.
pub proof fn lemma_split_behind(a: Seq<char>, c: char, b: Seq<char>)
    requires
        !b.contains(c),
    ensures
        split(a + seq![c] + b, c) == split(a, c).push(b),
        split(b, c) == seq![b],
    decreases a.len(),
{
    let s = a + seq![c] + b;
    let i = find(a, c);
    lemma_find(a, c);
    lemma_find(b, c);
    if find(b, c) < b.len() {
        assert(b.contains(b[find(b, c)]));
    }
    assert forall|k: int| 0 <= k < i implies s[k] != c by {
        assert(s[k] == a[k]);
    }
    if i < a.len() {
        assert(s[i] == a[i]);
        lemma_find_is(s, c, i);
        assert(s.take(i) =~= a.take(i));
        assert(s.skip(i + 1) =~= a.skip(i + 1) + seq![c] + b);
        lemma_split_behind(a.skip(i + 1), c, b);
        let head = seq![a.take(i)];
        let tail = split(a.skip(i + 1), c);
        assert(split(a, c) == head + tail);
        assert(split(s, c) == head + split(s.skip(i + 1), c));
        assert(head + tail.push(b) =~= (head + tail).push(b));
    } else {
        assert(s[i] == c);
        lemma_find_is(s, c, i);
        assert(s.take(i) =~= a);
        assert(s.skip(i + 1) =~= b);
        assert(split(a, c) == seq![a]);
        assert(split(b, c) == seq![b]);
        assert(split(s, c) == seq![a] + split(b, c));
        assert(seq![a] + seq![b] =~= seq![a].push(b));
    }
}

/// Texts without the separator that were joined come apart again.
pub proof fn law_join_and_split(parts: Seq<Seq<char>>, c: char)
    requires
        parts.len() > 0,
        forall|i: int| 0 <= i < parts.len() ==> !(#[trigger] parts[i]).contains(c),
    ensures
        split(joined(parts, seq![c]), c) == parts,
    decreases parts.len(),
{
    let front = parts.drop_last();
    if parts.len() == 1 {
        lemma_split_behind(Seq::empty(), c, parts[0]);
        assert(parts =~= seq![parts[0]]);
    } else {
        assert forall|i: int| 0 <= i < front.len() implies !(#[trigger] front[i]).contains(c) by {
            assert(front[i] == parts[i]);
        }
        law_join_and_split(front, c);
        assert(parts[parts.len() - 1] == parts.last());
        lemma_split_behind(joined(front, seq![c]), c, parts.last());
        assert(front.push(parts.last()) =~= parts);
    }
}

} // verus!
