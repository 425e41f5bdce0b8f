//! Texts that stand for bytes, base64 and percent encoding, and digests of bytes.
use vstd::prelude::*;
use vstd::utf8;

verus! {

/// The base64 digit of six bits.
pub open spec fn base64_digit(v: int) -> char {
    if v < 26 {
        ('A' as int + v) as char
    } else if v < 52 {
        ('a' as int + (v - 26)) as char
    } else if v < 62 {
        ('0' as int + (v - 52)) as char
    } else if v == 62 {
        '+'
    } else {
        '/'
    }
}

/// The base64 form of the bytes, with padding: four digits for each three bytes, the last group
/// filled up with `=`.
pub open spec fn base64_of(b: Seq<u8>) -> Seq<char>
    decreases b.len(),
{
    if b.len() == 0 {
        Seq::empty()
    } else if b.len() == 1 {
        let n = b[0] as int * 65536;
        seq![base64_digit(n / 262144), base64_digit(n / 4096 % 64), '=', '=']
    } else if b.len() == 2 {
        let n = b[0] as int * 65536 + b[1] as int * 256;
        seq![
            base64_digit(n / 262144),
            base64_digit(n / 4096 % 64),
            base64_digit(n / 64 % 64),
            '=',
        ]
    } else {
        let n = b[0] as int * 65536 + b[1] as int * 256 + b[2] as int;
        seq![
            base64_digit(n / 262144),
            base64_digit(n / 4096 % 64),
            base64_digit(n / 64 % 64),
            base64_digit(n % 64),
        ] + base64_of(b.skip(3))
    }
}

/// Calls `encode` of `base64::engine::general_purpose::STANDARD`: the standard alphabet, with
/// padding. It panics where the text would not fit the address space.
#[verifier::external_body]
pub(crate) fn base64_encode(bytes: &[u8]) -> (out: String)
    requires
        bytes@.len() <= 0x4000_0000,
    ensures
        out@ == base64_of(bytes@),
{
    base64::Engine::encode(&base64::engine::general_purpose::STANDARD, bytes)
}

/// Calls `decode` of `base64::engine::general_purpose::STANDARD`, which accepts the texts that
/// `encode` writes and no others: padding is required, and the bits that are left over in the
/// last digit must be zero.
#[verifier::external_body]
pub(crate) fn base64_decode(text: &str) -> (out: Option<Vec<u8>>)
    ensures
        match out {
            Some(b) => base64_of(b@) == text@,
            None => forall|b: Seq<u8>| #[trigger] base64_of(b) != text@,
        },
{
    base64::Engine::decode(&base64::engine::general_purpose::STANDARD, text).ok()
}

/// An upper-case hexadecimal digit.
pub open spec fn upper_hex(v: int) -> char {
    if v < 10 {
        ('0' as int + v) as char
    } else {
        ('A' as int + (v - 10)) as char
    }
}

/// Whether a byte is an ASCII letter or digit.
pub open spec fn is_alphanumeric(b: u8) -> bool {
    48 <= b <= 57 || 65 <= b <= 90 || 97 <= b <= 122
}

/// The bytes with all but letters and digits as `%` and two hexadecimal digits.
pub open spec fn percent_form(b: Seq<u8>) -> Seq<char>
    decreases b.len(),
{
    if b.len() == 0 {
        Seq::empty()
    } else if is_alphanumeric(b.last()) {
        percent_form(b.drop_last()).push(b.last() as char)
    } else {
        percent_form(b.drop_last()) + seq![
            '%',
            upper_hex(b.last() as int / 16),
            upper_hex(b.last() as int % 16),
        ]
    }
}

/// Calls `percent_encoding::utf8_percent_encode` with `NON_ALPHANUMERIC`: of the UTF-8 form of
/// the text, ASCII letters and digits stay, and every other byte becomes `%` and two upper-case
/// hexadecimal digits.
#[verifier::external_body]
pub(crate) fn percent_encode(text: &str) -> (out: String)
    ensures
        out@ == percent_form(utf8::encode_utf8(text@)),
{
    percent_encoding::utf8_percent_encode(text, percent_encoding::NON_ALPHANUMERIC).to_string()
}

/// What the MD5 digest of the bytes is.
pub uninterp spec fn md5_digest(b: Seq<u8>) -> Seq<u8>;

/// Calls `md5::Md5::digest`. The result is a function of the bytes, 16 bytes long.
#[verifier::external_body]
pub(crate) fn md5_of(bytes: &[u8]) -> (out: Vec<u8>)
    ensures
        out@ == md5_digest(bytes@),
        out@.len() == 16,
{
    <md5::Md5 as md5::Digest>::digest(bytes).to_vec()
}

/// A digest in the making: an `md5::Md5` that takes bytes piece by piece.
#[verifier::external_body]
pub struct Hasher {
    inner: md5::Md5,
}

/// The bytes that a hasher was given, in order.
pub uninterp spec fn hashed(h: Hasher) -> Seq<u8>;

/// Calls `md5::Md5::new`: a hasher that was given nothing.
#[verifier::external_body]
fn new_hasher() -> (out: Hasher)
    ensures
        hashed(out).len() == 0,
{
    Hasher { inner: <md5::Md5 as md5::Digest>::new() }
}

/// Calls `md5::Md5::update`: the bytes come behind those that were given before.
#[verifier::external_body]
fn hash_piece(h: &mut Hasher, piece: &[u8])
    ensures
        hashed(*final(h)) == hashed(*old(h)) + piece@,
{
    md5::Digest::update(&mut h.inner, piece)
}

/// Calls `md5::Md5::finalize`: the digest of all bytes that were given, 16 bytes long.
#[verifier::external_body]
fn hash_end(h: Hasher) -> (out: Vec<u8>)
    ensures
        out@ == md5_digest(hashed(h)),
        out@.len() == 16,
{
    md5::Digest::finalize(h.inner).to_vec()
}

impl Hasher {
    /// A hasher that was given nothing.
    pub fn new() -> (out: Hasher)
        ensures
            hashed(out) == Seq::<u8>::empty(),
    {
        let out = new_hasher();
        assert(hashed(out) =~= Seq::<u8>::empty());
        out
    }

    /// Takes the next bytes.
    pub fn update(&mut self, piece: &[u8])
        ensures
            hashed(*final(self)) == hashed(*old(self)) + piece@,
    {
        hash_piece(self, piece);
    }
}

/// A digest as an array.
fn digest_array(d: Vec<u8>) -> (out: [u8; 16])
    requires
        d@.len() == 16,
    ensures
        out@ == d@,
{
    let mut a: [u8; 16] = [0u8; 16];
    let mut i: usize = 0;
    while i < 16
        invariant
            i <= 16,
            d@.len() == 16,
            a@.len() == 16,
            forall|j: int| 0 <= j < i ==> #[trigger] a@[j] == d@[j],
        decreases 16 - i,
    {
        a[i] = d[i];
        i += 1;
    }
    assert(a@ =~= d@);
    a
}

/// The digest of data in memory.
pub fn digest_of(data: &[u8]) -> (out: [u8; 16])
    ensures
        out@ == md5_digest(data@),
{
    digest_array(md5_of(data))
}

/// The digest of all bytes that a hasher was given.
pub fn hashed_digest(h: Hasher) -> (out: [u8; 16])
    ensures
        out@ == md5_digest(hashed(h)),
{
    digest_array(hash_end(h))
}

/// The digest of all bytes that a hasher was given, as it is stored with a blob.
pub fn hashed_text(h: Hasher) -> (out: String)
    ensures
        out@ == base64_of(md5_digest(hashed(h))),
{
    base64_encode(hash_end(h).as_slice())
}

/// The pieces of a file, one after the other.
pub open spec fn joined_pieces(pieces: Seq<Seq<u8>>) -> Seq<u8>
    decreases pieces.len(),
{
    if pieces.len() == 0 {
        Seq::empty()
    } else {
        joined_pieces(pieces.drop_last()) + pieces.last()
    }
}

/// It does not matter in which pieces a file is read: a hasher that was given them one after the
/// other holds their bytes in order, so its digest is that of the whole file.
pub proof fn law_pieces_do_not_matter(hashers: Seq<Hasher>, pieces: Seq<Seq<u8>>)
    requires
        hashers.len() == pieces.len() + 1,
        hashed(hashers[0]).len() == 0,
        forall|i: int|
            0 <= i < pieces.len() ==> hashed(#[trigger] hashers[i + 1]) == hashed(hashers[i])
                + pieces[i],
    ensures
        hashed(hashers.last()) == joined_pieces(pieces),
        md5_digest(hashed(hashers.last())) == md5_digest(joined_pieces(pieces)),
    decreases pieces.len(),
{
    if pieces.len() == 0 {
        assert(hashed(hashers[0]) =~= Seq::<u8>::empty());
    } else {
        let n = pieces.len() - 1;
        assert forall|i: int| 0 <= i < pieces.drop_last().len() implies hashed(
            #[trigger] hashers.drop_last()[i + 1],
        ) == hashed(hashers.drop_last()[i]) + pieces.drop_last()[i] by {
            assert(hashed(hashers[i + 1]) == hashed(hashers[i]) + pieces[i]);
        }
        law_pieces_do_not_matter(hashers.drop_last(), pieces.drop_last());
        assert(hashed(hashers[n + 1]) == hashed(hashers[n]) + pieces[n]);
    }
}

/// Two hexadecimal digits for each byte, in lower case.
pub open spec fn hex_form(b: Seq<u8>) -> Seq<char>
    decreases b.len(),
{
    if b.len() == 0 {
        Seq::empty()
    } else {
        hex_form(b.drop_last()) + seq![
            lower_hex(b.last() as int / 16),
            lower_hex(b.last() as int % 16),
        ]
    }
}

/// A lower-case hexadecimal digit.
pub open spec fn lower_hex(v: int) -> char {
    if v < 10 {
        ('0' as int + v) as char
    } else {
        ('a' as int + (v - 10)) as char
    }
}

fn hex_digit(v: u8) -> (c: char)
    requires
        v < 16,
    ensures
        c == lower_hex(v as int),
{
    if v < 10 {
        (48 + v) as char
    } else {
        (87 + v) as char
    }
}

/// Two hexadecimal digits for each byte, in lower case.
pub fn hex(b: &[u8]) -> (out: String)
    ensures
        out@ == hex_form(b@),
{
    let mut out = String::new();
    let mut i: usize = 0;
    assert(b@.take(0) =~= Seq::<u8>::empty());
    assert(out@ =~= hex_form(b@.take(0)));
    while i < b.len()
        invariant
            i <= b@.len(),
            out@ == hex_form(b@.take(i as int)),
        decreases b@.len() - i,
    {
        assert(b@.take(i + 1).drop_last() =~= b@.take(i as int));
        let ghost before = out@;
        out.push(hex_digit(b[i] / 16));
        out.push(hex_digit(b[i] % 16));
        assert(out@ =~= before + seq![
            lower_hex(b@[i as int] as int / 16),
            lower_hex(b@[i as int] as int % 16),
        ]);
        i += 1;
    }
    assert(b@.take(b@.len() as int) =~= b@);
    out
}

proof fn lemma_base64_digit(a: int, b: int)
    requires
        0 <= a < 64,
        0 <= b < 64,
        base64_digit(a) == base64_digit(b),
    ensures
        a == b,
{
}

proof fn lemma_digit_is_no_padding(a: int)
    requires
        0 <= a < 64,
    ensures
        base64_digit(a) != '=',
{
}

/// A number of 24 bits is fixed by its four digits of six bits.
proof fn lemma_digits_of(n: int)
    requires
        0 <= n < 16777216,
    ensures
        n == (n / 262144) * 262144 + (n / 4096 % 64) * 4096 + (n / 64 % 64) * 64 + n % 64,
        0 <= n / 262144 < 64,
        0 <= n / 4096 % 64 < 64,
        0 <= n / 64 % 64 < 64,
        0 <= n % 64 < 64,
{
    let a = n / 64;
    let b = n / 4096;
    let c = n / 262144;
    assert(a / 64 == b);
    assert(b / 64 == c);
}

/// Three bytes are fixed by the number that they write.
proof fn lemma_bytes_of(a: int, b: int, c: int)
    requires
        0 <= a < 256,
        0 <= b < 256,
        0 <= c < 256,
    ensures
        0 <= a * 65536 + b * 256 + c < 16777216,
        (a * 65536 + b * 256 + c) / 65536 == a,
        (a * 65536 + b * 256 + c) / 256 % 256 == b,
        (a * 65536 + b * 256 + c) % 256 == c,
{
}

/// The number that the first three bytes write, with zeros for those that are missing.
spec fn group(x: Seq<u8>) -> int {
    x[0] as int * 65536 + (if x.len() > 1 {
        x[1] as int * 256
    } else {
        0
    }) + (if x.len() > 2 {
        x[2] as int
    } else {
        0
    })
}

proof fn lemma_group_digits(x: Seq<u8>)
    requires
        x.len() > 0,
    ensures
        0 <= group(x) < 16777216,
        base64_of(x).len() >= 4,
        base64_of(x)[0] == base64_digit(group(x) / 262144),
        base64_of(x)[1] == base64_digit(group(x) / 4096 % 64),
        base64_of(x)[2] == if x.len() > 1 {
            base64_digit(group(x) / 64 % 64)
        } else {
            '='
        },
        base64_of(x)[3] == if x.len() > 2 {
            base64_digit(group(x) % 64)
        } else {
            '='
        },
        x.len() > 3 ==> base64_of(x).skip(4) == base64_of(x.skip(3)),
        x.len() <= 3 ==> base64_of(x).len() == 4,
        x.len() == 1 ==> group(x) / 64 % 64 == 0 && group(x) % 64 == 0,
        x.len() == 2 ==> group(x) % 64 == 0,
{
    lemma_bytes_of(
        x[0] as int,
        if x.len() > 1 {
            x[1] as int
        } else {
            0
        },
        if x.len() > 2 {
            x[2] as int
        } else {
            0
        },
    );
    if x.len() == 1 {
        let n = x[0] as int;
        assert(n * 65536 / 64 == n * 1024);
        assert(n * 1024 % 64 == 0);
    }
    if x.len() == 2 {
        let n = x[0] as int;
        let m = x[1] as int;
        assert((n * 65536 + m * 256) % 64 == 0);
    }
    if x.len() >= 3 {
        let rest = base64_of(x.skip(3));
        assert(base64_of(x).skip(4) =~= rest);
        if x.len() == 3 {
            assert(x.skip(3).len() == 0);
            assert(rest.len() == 0);
        }
    }
}

/// The base64 form has four digits for each three bytes, the last group counted in full.
pub proof fn lemma_base64_len(x: Seq<u8>)
    ensures
        base64_of(x).len() == (x.len() + 2) / 3 * 4,
    decreases x.len(),
{
    if x.len() > 3 {
        lemma_base64_len(x.skip(3));
        lemma_group_digits(x);
        assert(base64_of(x).len() == 4 + base64_of(x.skip(3)).len());
    } else if x.len() > 0 {
        lemma_group_digits(x);
    }
}

/// Different bytes have different base64 forms.
pub proof fn law_base64_injective(x: Seq<u8>, y: Seq<u8>)
    requires
        base64_of(x) == base64_of(y),
    ensures
        x == y,
    decreases x.len(),
{
    lemma_base64_len(x);
    lemma_base64_len(y);
    if x.len() == 0 {
        assert(x =~= y);
    } else {
        assert(y.len() > 0);
        lemma_group_digits(x);
        lemma_group_digits(y);
        let n = group(x);
        let m = group(y);
        lemma_digits_of(n);
        lemma_digits_of(m);
        lemma_digit_is_no_padding(n / 64 % 64);
        lemma_digit_is_no_padding(m / 64 % 64);
        lemma_digit_is_no_padding(n % 64);
        lemma_digit_is_no_padding(m % 64);
        assert((x.len() > 1) == (y.len() > 1));
        assert((x.len() > 2) == (y.len() > 2));
        lemma_base64_digit(n / 262144, m / 262144);
        lemma_base64_digit(n / 4096 % 64, m / 4096 % 64);
        if x.len() > 1 {
            lemma_base64_digit(n / 64 % 64, m / 64 % 64);
        }
        if x.len() > 2 {
            lemma_base64_digit(n % 64, m % 64);
        }
        assert(n == m);
        let x1 = if x.len() > 1 {
            x[1] as int
        } else {
            0
        };
        let x2 = if x.len() > 2 {
            x[2] as int
        } else {
            0
        };
        let y1 = if y.len() > 1 {
            y[1] as int
        } else {
            0
        };
        let y2 = if y.len() > 2 {
            y[2] as int
        } else {
            0
        };
        lemma_bytes_of(x[0] as int, x1, x2);
        lemma_bytes_of(y[0] as int, y1, y2);
        assert(x[0] == y[0] && x1 == y1 && x2 == y2);
        if x.len() > 3 {
            assert(y.len() > 3);
            law_base64_injective(x.skip(3), y.skip(3));
            assert(x.take(3) =~= y.take(3));
            assert(x =~= x.take(3) + x.skip(3));
            assert(y =~= y.take(3) + y.skip(3));
        } else {
            assert(y.len() <= 3);
            assert(x =~= y);
        }
    }
}

/// The digits of base64.
pub proof fn law_base64_digits(v: int)
    requires
        0 <= v < 64,
    ensures
        base64_digit(v)
            == "ABCDEFGHIJKLMNOPQRSTUVWXYZabcdefghijklmnopqrstuvwxyz0123456789+/"@[v],
{
    reveal_strlit("ABCDEFGHIJKLMNOPQRSTUVWXYZabcdefghijklmnopqrstuvwxyz0123456789+/");
}

/// Base64 goes by groups of three bytes, and four digits of six bits hold the 24 bits of a
/// group; of a last group of one byte or two, the digits that hold nothing are `=`.
pub proof fn law_base64_goes_by_groups(a: u8, b: u8, c: u8, rest: Seq<u8>)
    ensures
        base64_of(seq![a, b, c] + rest) == base64_of(seq![a, b, c]) + base64_of(rest),
        exists|w: int, x: int, y: int, z: int|
            #![trigger base64_digit(w), base64_digit(x), base64_digit(y), base64_digit(z)]
            0 <= w < 64 && 0 <= x < 64 && 0 <= y < 64 && 0 <= z < 64 && base64_of(seq![a, b, c])
                == seq![base64_digit(w), base64_digit(x), base64_digit(y), base64_digit(z)] && w
                * 262144 + x * 4096 + y * 64 + z == a * 65536 + b * 256 + c,
        base64_of(seq![a, b]) == base64_of(seq![a, b, 0]).take(3) + seq!['='],
        base64_of(seq![a]) == base64_of(seq![a, 0, 0]).take(2) + seq!['=', '='],
        base64_of(Seq::empty()).len() == 0,
{
    reveal_with_fuel(base64_of, 2);
    let g = seq![a, b, c];
    assert((g + rest).skip(3) =~= rest);
    assert(g.skip(3) =~= Seq::<u8>::empty());
    assert(seq![a, b, 0u8].skip(3) =~= Seq::<u8>::empty());
    assert(seq![a, 0u8, 0u8].skip(3) =~= Seq::<u8>::empty());
    let n = a as int * 65536 + b as int * 256 + c as int;
    lemma_digits_of(n);
    let w = n / 262144;
    let x = n / 4096 % 64;
    let y = n / 64 % 64;
    let z = n % 64;
    assert(base64_of(g) =~= seq![
        base64_digit(w),
        base64_digit(x),
        base64_digit(y),
        base64_digit(z),
    ]);
    assert(base64_of(seq![a, b]) =~= base64_of(seq![a, b, 0u8]).take(3) + seq!['=']);
    assert(base64_of(seq![a]) =~= base64_of(seq![a, 0u8, 0u8]).take(2) + seq!['=', '=']);
}

/// Bytes are written one by one, each as two hexadecimal digits.
pub proof fn law_hex_goes_by_bytes(a: Seq<u8>, b: Seq<u8>, x: u8)
    ensures
        hex_form(a + b) == hex_form(a) + hex_form(b),
        hex_form(seq![x]) == seq![
            "0123456789abcdef"@[x as int / 16],
            "0123456789abcdef"@[x as int % 16],
        ],
        hex_form(Seq::empty()).len() == 0,
    decreases b.len(),
{
    reveal_strlit("0123456789abcdef");
    reveal_with_fuel(hex_form, 2);
    assert(seq![x].drop_last() =~= Seq::<u8>::empty());
    if b.len() == 0 {
        assert(a + b =~= a);
        assert(hex_form(a) + hex_form(b) =~= hex_form(a));
    } else {
        law_hex_goes_by_bytes(a, b.drop_last(), x);
        assert((a + b).drop_last() =~= a + b.drop_last());
        assert((a + b).last() == b.last());
    }
}

/// Bytes are encoded one by one: a letter or a digit is itself, and any other byte is `%` and
/// two hexadecimal digits.
pub proof fn law_percent_form_goes_by_bytes(a: Seq<u8>, b: Seq<u8>, x: u8)
    ensures
        percent_form(a + b) == percent_form(a) + percent_form(b),
        48 <= x <= 57 || 65 <= x <= 90 || 97 <= x <= 122 ==> percent_form(seq![x]) == seq![
            x as char,
        ],
        !(48 <= x <= 57 || 65 <= x <= 90 || 97 <= x <= 122) ==> percent_form(seq![x]) == seq![
            '%',
            "0123456789ABCDEF"@[x as int / 16],
            "0123456789ABCDEF"@[x as int % 16],
        ],
        percent_form(Seq::empty()).len() == 0,
    decreases b.len(),
{
    reveal_strlit("0123456789ABCDEF");
    reveal_with_fuel(percent_form, 2);
    assert(seq![x].drop_last() =~= Seq::<u8>::empty());
    if b.len() == 0 {
        assert(a + b =~= a);
        assert(percent_form(a) + percent_form(b) =~= percent_form(a));
    } else {
        law_percent_form_goes_by_bytes(a, b.drop_last(), x);
        assert((a + b).drop_last() =~= a + b.drop_last());
        assert((a + b).last() == b.last());
        assert(percent_form(a + b) =~= percent_form(a) + percent_form(b));
    }
}

} // verus!
