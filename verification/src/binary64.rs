//! Decimal numbers as binary floating-point numbers of double precision, in integers.
//!
//! A finite double that is not negative is a multiple of 2^-1074. It stands here for the number
//! of those units. A decimal number is rounded to the nearest double, ties to the even one, as
//! is the product of a double and a whole number.
use crate::text;
use vstd::arithmetic::power2;
use vstd::prelude::*;

verus! {

/// `n / d` rounded to the nearest integer, ties to the even one.
pub open spec fn to_nearest(n: nat, d: nat) -> nat {
    let f = n / d;
    let r = n % d;
    if 2 * r < d {
        f
    } else if 2 * r > d {
        f + 1
    } else {
        f + f % 2
    }
}

/// How many binary digits of `n` are beyond the 53 that a double holds.
pub open spec fn excess(n: nat) -> nat
    decreases n,
{
    if n < 0x20_0000_0000_0000 {
        0
    } else {
        1 + excess(n / 2)
    }
}

/// The double nearest to `n / q`, in the units of `n`.
pub open spec fn nearest(n: nat, q: nat) -> nat {
    let s = excess(n / q);
    to_nearest(n, q * power2::pow2(s)) * power2::pow2(s)
}

/// The powers of ten.
pub open spec fn tens(k: nat) -> nat
    decreases k,
{
    if k == 0 {
        1
    } else {
        10 * tens((k - 1) as nat)
    }
}

/// The double nearest to the decimal number `whole.fraction`.
pub open spec fn of_decimal(whole: Seq<char>, fraction: Seq<char>) -> nat {
    nearest(text::digits_value(whole + fraction) * power2::pow2(1074), tens(fraction.len()))
}

/// A double rounded to the nearest integer, ties away from zero.
pub open spec fn rounded(v: nat) -> nat {
    (v + power2::pow2(1073)) / power2::pow2(1074)
}

/// The decimal number `whole.fraction` as a double, multiplied by `factor` and divided by
/// `divisor` as doubles are, rounded to an integer; nothing where the number is too large for a
/// double.
pub open spec fn scaled(
    whole: Seq<char>,
    fraction: Seq<char>,
    factor: nat,
    divisor: nat,
) -> Option<nat> {
    let d = of_decimal(whole, fraction);
    if d >= power2::pow2(2098) {
        None
    } else {
        Some(rounded(nearest(d * factor, divisor)))
    }
}

proof fn lemma_pow2_add(a: nat, b: nat)
    ensures
        power2::pow2(a + b) == power2::pow2(a) * power2::pow2(b),
        power2::pow2(a) > 0,
        power2::pow2(b) > 0,
{
    power2::lemma_pow2_adds(a, b);
    power2::lemma_pow2_pos(a);
    power2::lemma_pow2_pos(b);
}

proof fn lemma_pow2_53()
    ensures
        power2::pow2(53) == 0x20_0000_0000_0000,
        power2::pow2(52) == 0x10_0000_0000_0000,
        power2::pow2(54) == 0x40_0000_0000_0000,
        power2::pow2(1) == 2,
        power2::pow2(0) == 1,
        power2::pow2(3) == 8,
        power2::pow2(10) == 1024,
        power2::pow2(64) == 0x1_0000_0000_0000_0000,
        power2::pow2(40) == 0x100_0000_0000,
        power2::pow2(56) == 0x100_0000_0000_0000,
        power2::pow2(60) == 0x1000_0000_0000_0000,
{
    power2::lemma2_to64();
    power2::lemma2_to64_rest();
}

proof fn lemma_pow2_order(a: nat, b: nat)
    requires
        a <= b,
    ensures
        power2::pow2(a) <= power2::pow2(b),
{
    if a < b {
        power2::lemma_pow2_strictly_increases(a, b);
    }
}

/// What `excess` counts.
proof fn lemma_excess(n: nat)
    ensures
        n < power2::pow2(53 + excess(n)),
        excess(n) > 0 ==> n >= power2::pow2((52 + excess(n)) as nat),
        n >= 0x20_0000_0000_0000 ==> excess(n) > 0,
    decreases n,
{
    lemma_pow2_53();
    if n >= 0x20_0000_0000_0000 {
        let h = n / 2;
        lemma_excess(h);
        let s = excess(h);
        lemma_pow2_add(1, 53 + s);
        assert(1 + (53 + s) == 53 + excess(n));
        if s > 0 {
            lemma_pow2_add(1, (52 + s) as nat);
            assert(1 + (52 + s) == 52 + excess(n));
        } else {
            assert(52 + excess(n) == 53);
        }
    }
}

/// `excess` is fixed by the power of two below a number.
proof fn lemma_excess_is(n: nat, s: nat)
    requires
        n < power2::pow2(53 + s),
        s > 0 ==> n >= power2::pow2((52 + s) as nat),
    ensures
        excess(n) == s,
{
    lemma_excess(n);
    let e = excess(n);
    if e < s {
        lemma_pow2_order(53 + e, (52 + s) as nat);
    }
    if e > s {
        lemma_pow2_order(53 + s, (52 + e) as nat);
    }
}

proof fn lemma_div_bounds(n: nat, d: nat)
    requires
        d > 0,
    ensures
        (n / d) * d <= n,
        n < (n / d) * d + d,
        n == (n / d) * d + n % d,
        n % d < d,
{
    vstd::arithmetic::div_mod::lemma_fundamental_div_mod(n as int, d as int);
    vstd::arithmetic::div_mod::lemma_mod_bound(n as int, d as int);
    assert((n / d) * d == d * (n / d)) by (nonlinear_arith);
}

proof fn lemma_div_is(n: nat, d: nat, f: nat, r: nat)
    requires
        n == f * d + r,
        r < d,
    ensures
        n / d == f,
        n % d == r,
{
    assert(f * d == d * f) by (nonlinear_arith);
    vstd::arithmetic::div_mod::lemma_fundamental_div_mod_converse(
        n as int,
        d as int,
        f as int,
        r as int,
    );
}

proof fn lemma_div_at_least(n: nat, d: nat, m: nat)
    requires
        d > 0,
    ensures
        n / d >= m <==> n >= m * d,
{
    lemma_div_bounds(n, d);
    let f = n / d;
    if f >= m {
        assert(m * d <= f * d) by (nonlinear_arith)
            requires
                m <= f,
        ;
    } else {
        assert((f + 1) * d <= m * d) by (nonlinear_arith)
            requires
                f + 1 <= m,
        ;
        assert((f + 1) * d == f * d + d) by (nonlinear_arith);
    }
}

/// A common factor does not matter.
proof fn lemma_to_nearest_scale(n: nat, d: nat, c: nat)
    requires
        d > 0,
        c > 0,
    ensures
        (n * c) / (d * c) == n / d,
        to_nearest(n * c, d * c) == to_nearest(n, d),
        d * c > 0,
{
    let f = n / d;
    let r = n % d;
    lemma_div_bounds(n, d);
    assert(d * c > 0) by (nonlinear_arith)
        requires
            d > 0,
            c > 0,
    ;
    assert(n * c == f * (d * c) + r * c) by (nonlinear_arith)
        requires
            n == f * d + r,
    ;
    assert(r * c < d * c) by (nonlinear_arith)
        requires
            r < d,
            c > 0,
    ;
    lemma_div_is(n * c, d * c, f, r * c);
    assert(2 * (r * c) < d * c <==> 2 * r < d) by (nonlinear_arith)
        requires
            c > 0,
    ;
    assert(2 * (r * c) > d * c <==> 2 * r > d) by (nonlinear_arith)
        requires
            c > 0,
    ;
}

/// Rounding does not go below a power of two that the number reaches.
proof fn lemma_nearest_at_least(n: nat, q: nat, j: nat)
    requires
        q > 0,
        n >= power2::pow2(j) * q,
    ensures
        nearest(n, q) >= power2::pow2(j),
{
    lemma_pow2_53();
    let m = n / q;
    lemma_div_at_least(n, q, power2::pow2(j));
    lemma_excess(m);
    let s = excess(m);
    lemma_pow2_add(s, 0);
    let d = q * power2::pow2(s);
    assert(d > 0) by (nonlinear_arith)
        requires
            q > 0,
            power2::pow2(s) > 0,
            d == q * power2::pow2(s),
    ;
    let t: nat = if j >= s {
        (j - s) as nat
    } else {
        52
    };
    let low: nat = t + s;
    assert(n >= power2::pow2(low) * q) by {
        if j < s {
            lemma_div_at_least(n, q, power2::pow2(low));
            assert(low == 52 + s);
        }
    }
    lemma_pow2_add(t, s);
    assert(power2::pow2(low) * q == power2::pow2(t) * d) by (nonlinear_arith)
        requires
            power2::pow2(low) == power2::pow2(t) * power2::pow2(s),
            d == q * power2::pow2(s),
    ;
    lemma_div_at_least(n, d, power2::pow2(t));
    let k = to_nearest(n, d);
    assert(k * power2::pow2(s) >= power2::pow2(t) * power2::pow2(s)) by (nonlinear_arith)
        requires
            k >= power2::pow2(t),
    ;
    if j < s {
        lemma_pow2_order(j, low);
    }
}

/// Rounding does not go above a power of two that the number does not exceed.
proof fn lemma_nearest_at_most(n: nat, q: nat, j: nat)
    requires
        q > 0,
        n <= power2::pow2(j) * q,
    ensures
        nearest(n, q) <= power2::pow2(j),
{
    lemma_pow2_53();
    lemma_pow2_add(j, 0);
    let m = n / q;
    lemma_excess(m);
    let s = excess(m);
    lemma_pow2_add(s, 0);
    let d = q * power2::pow2(s);
    assert(d > 0) by (nonlinear_arith)
        requires
            q > 0,
            power2::pow2(s) > 0,
            d == q * power2::pow2(s),
    ;
    lemma_div_bounds(n, q);
    if s > j {
        assert(m <= power2::pow2(j)) by {
            if m >= power2::pow2(j) + 1 {
                lemma_div_at_least(n, q, power2::pow2(j) + 1);
                assert((power2::pow2(j) + 1) * q == power2::pow2(j) * q + q) by (nonlinear_arith);
            }
        }
        power2::lemma_pow2_strictly_increases(j, (52 + s) as nat);
        assert(false);
    }
    let t: nat = (j - s) as nat;
    lemma_pow2_add(t, s);
    assert(power2::pow2(j) * q == power2::pow2(t) * d) by (nonlinear_arith)
        requires
            power2::pow2(j) == power2::pow2(t) * power2::pow2(s),
            d == q * power2::pow2(s),
    ;
    let f = n / d;
    lemma_div_bounds(n, d);
    let k = to_nearest(n, d);
    assert(k <= power2::pow2(t)) by {
        if f >= power2::pow2(t) {
            lemma_div_at_least(n, d, power2::pow2(t));
            lemma_div_is(n, d, power2::pow2(t), 0);
        }
    }
    assert(k * power2::pow2(s) <= power2::pow2(t) * power2::pow2(s)) by (nonlinear_arith)
        requires
            k <= power2::pow2(t),
    ;
}

/// A common factor does not matter.
proof fn lemma_nearest_scale(n: nat, q: nat, c: nat)
    requires
        q > 0,
        c > 0,
    ensures
        nearest(n * c, q * c) == nearest(n, q),
{
    lemma_to_nearest_scale(n, q, c);
    let s = excess(n / q);
    lemma_pow2_add(s, 0);
    let d = q * power2::pow2(s);
    assert(d > 0) by (nonlinear_arith)
        requires
            q > 0,
            power2::pow2(s) > 0,
            d == q * power2::pow2(s),
    ;
    lemma_to_nearest_scale(n, d, c);
    assert(q * c * power2::pow2(s) == d * c) by (nonlinear_arith)
        requires
            d == q * power2::pow2(s),
    ;
}

/// Finer units do not matter for a number that fills its 53 digits.
proof fn lemma_nearest_units(n: nat, q: nat, c: nat)
    requires
        q > 0,
        n / q >= 0x20_0000_0000_0000,
    ensures
        nearest(n * power2::pow2(c), q) == nearest(n, q) * power2::pow2(c),
{
    lemma_pow2_53();
    let m = n / q;
    lemma_excess(m);
    let s = excess(m);
    lemma_pow2_add(c, s);
    lemma_div_bounds(n, q);
    let fine = n * power2::pow2(c);
    // The quotient in finer units lies between the same powers of two.
    lemma_pow2_add(c, 53 + s);
    lemma_pow2_add(c, (52 + s) as nat);
    lemma_div_at_least(n, q, power2::pow2(53 + s));
    lemma_div_at_least(n, q, power2::pow2((52 + s) as nat));
    lemma_div_at_least(fine, q, power2::pow2(53 + (s + c)));
    lemma_div_at_least(fine, q, power2::pow2((52 + (s + c)) as nat));
    assert(c + (53 + s) == 53 + (s + c));
    assert(c + (52 + s) == 52 + (s + c));
    let p = power2::pow2(c);
    let hi = power2::pow2(53 + s);
    let lo = power2::pow2((52 + s) as nat);
    assert(fine < (p * hi) * q) by (nonlinear_arith)
        requires
            n < hi * q,
            p > 0,
            fine == n * p,
    ;
    assert(fine >= (p * lo) * q) by (nonlinear_arith)
        requires
            n >= lo * q,
            fine == n * p,
    ;
    lemma_excess_is(fine / q, s + c);
    let d = q * power2::pow2(s);
    assert(d > 0) by (nonlinear_arith)
        requires
            q > 0,
            power2::pow2(s) > 0,
            d == q * power2::pow2(s),
    ;
    lemma_to_nearest_scale(n, d, p);
    assert(c + s == s + c);
    assert(q * power2::pow2(s + c) == d * p) by (nonlinear_arith)
        requires
            power2::pow2(s + c) == p * power2::pow2(s),
            d == q * power2::pow2(s),
    ;
    let k = to_nearest(n, d);
    assert(k * power2::pow2(s + c) == (k * power2::pow2(s)) * p) by (nonlinear_arith)
        requires
            power2::pow2(s + c) == p * power2::pow2(s),
    ;
}

/// When a number is too large for a double.
proof fn lemma_infinite(n: nat, q: nat)
    requires
        q > 0,
    ensures
        nearest(n, q) >= power2::pow2(2098) <==> n >= (0x3f_ffff_ffff_ffff * power2::pow2(2044)) * q,
{
    lemma_pow2_53();
    lemma_pow2_add(2045, 53);
    lemma_pow2_add(2044, 54);
    lemma_pow2_add(2044, 1);
    let u = power2::pow2(2044);
    let limit = 0x3f_ffff_ffff_ffff * u;
    assert(power2::pow2(2098) == 0x40_0000_0000_0000 * u);
    assert(power2::pow2(2045) == 2 * u);
    lemma_pow2_add(2045, 52);
    assert(power2::pow2(2097) == 0x20_0000_0000_0000 * u);
    if n >= power2::pow2(2098) * q {
        lemma_nearest_at_least(n, q, 2098);
        assert(limit * q <= power2::pow2(2098) * q) by (nonlinear_arith)
            requires
                limit <= power2::pow2(2098),
        ;
    } else if n < power2::pow2(2097) * q {
        lemma_nearest_at_most(n, q, 2097);
        assert(power2::pow2(2097) * q <= limit * q) by (nonlinear_arith)
            requires
                power2::pow2(2097) <= limit,
        ;
    } else {
        let m = n / q;
        lemma_div_at_least(n, q, power2::pow2(2098));
        lemma_div_at_least(n, q, power2::pow2(2097));
        lemma_excess_is(m, 2045);
        let d = q * power2::pow2(2045);
        assert(d > 0) by (nonlinear_arith)
            requires
                q > 0,
                power2::pow2(2045) > 0,
                d == q * power2::pow2(2045),
        ;
        let top: nat = 0x20_0000_0000_0000;
        assert(top * d == power2::pow2(2098) * q) by (nonlinear_arith)
            requires
                power2::pow2(2098) == power2::pow2(2045) * top,
                d == q * power2::pow2(2045),
        ;
        lemma_div_at_least(n, d, top);
        let f = n / d;
        let r = n % d;
        lemma_div_bounds(n, d);
        assert(f < top);
        assert(2 * (limit * q) == (2 * top - 1) * d) by (nonlinear_arith)
            requires
                limit == (2 * top - 1) * u,
                power2::pow2(2045) == 2 * u,
                d == q * power2::pow2(2045),
        ;
        let k = to_nearest(n, d);
        if f == top - 1 {
            assert(2 * (f * d) == (2 * top - 2) * d) by (nonlinear_arith)
                requires
                    f == top - 1,
            ;
            assert((2 * top - 1) * d == (2 * top - 2) * d + d) by (nonlinear_arith);
            assert(f % 2 == 1);
        } else {
            assert((f + 1) * d <= (top - 1) * d) by (nonlinear_arith)
                requires
                    f + 1 <= top - 1,
                    d > 0,
            ;
            assert((f + 1) * d == f * d + d) by (nonlinear_arith);
            assert(2 * ((top - 1) * d) == (2 * top - 2) * d) by (nonlinear_arith);
            assert((2 * top - 1) * d == (2 * top - 2) * d + d) by (nonlinear_arith);
        }
        assert(k >= top <==> n >= limit * q);
        let w = power2::pow2(2045);
        assert(k * w >= top * w <==> k >= top) by (nonlinear_arith)
            requires
                w > 0,
        ;
        assert(power2::pow2(2098) == top * w) by (nonlinear_arith)
            requires
                power2::pow2(2098) == w * top,
        ;
    }
}

proof fn lemma_tens_pos(k: nat)
    ensures
        tens(k) > 0,
    decreases k,
{
    if k > 0 {
        lemma_tens_pos((k - 1) as nat);
    }
}

/// The value of digits that stand behind others.
proof fn lemma_digits_join(a: Seq<char>, b: Seq<char>)
    requires
        text::all_digits(b),
    ensures
        text::digits_value(a + b) == text::digits_value(a) * tens(b.len()) + text::digits_value(b),
    decreases b.len(),
{
    if b.len() == 0 {
        assert(a + b =~= a);
        let x = text::digits_value(a);
        assert(x * tens(0) == x) by (nonlinear_arith)
            requires
                tens(0) == 1,
        ;
    } else {
        assert(text::is_digit(b[b.len() - 1]));
        assert forall|i: int| 0 <= i < b.len() - 1 implies text::is_digit(
            #[trigger] b.drop_last()[i],
        ) by {
            assert(b.drop_last()[i] == b[i]);
        }
        lemma_digits_join(a, b.drop_last());
        assert((a + b).drop_last() =~= a + b.drop_last());
        assert((a + b).last() == b.last());
        let x = text::digits_value(a);
        let t = tens((b.len() - 1) as nat);
        assert(10 * (x * t) == x * (10 * t)) by (nonlinear_arith);
    }
}

/// The value of decimal digits.
spec fn fraction_value(s: Seq<u8>) -> nat
    decreases s.len(),
{
    if s.len() == 0 {
        0
    } else {
        fraction_value(s.drop_last()) * 10 + s.last() as nat
    }
}

spec fn is_decimal(s: Seq<u8>) -> bool {
    forall|i: int| 0 <= i < s.len() ==> #[trigger] s[i] < 10
}

proof fn lemma_fraction_bound(s: Seq<u8>)
    requires
        is_decimal(s),
    ensures
        fraction_value(s) < tens(s.len()),
        fraction_value(s) == 0 <==> forall|i: int| 0 <= i < s.len() ==> #[trigger] s[i] == 0,
    decreases s.len(),
{
    if s.len() > 0 {
        let f = s.drop_last();
        assert(forall|i: int| 0 <= i < f.len() ==> f[i] == s[i]);
        lemma_fraction_bound(f);
        assert(s.last() == s[s.len() - 1]);
        if fraction_value(s) == 0 {
            assert forall|i: int| 0 <= i < s.len() implies #[trigger] s[i] == 0 by {
                if i < f.len() {
                    assert(f[i] == 0);
                }
            }
        }
    }
}

proof fn lemma_fraction_front(s: Seq<u8>)
    requires
        s.len() > 0,
    ensures
        fraction_value(s) == s[0] * tens((s.len() - 1) as nat) + fraction_value(s.drop_first()),
    decreases s.len(),
{
    if s.len() == 1 {
        assert(s.drop_last() =~= Seq::<u8>::empty());
        assert(s.drop_first() =~= Seq::<u8>::empty());
        reveal_with_fuel(fraction_value, 2);
        assert(tens(0) == 1);
        assert(s[0] * tens(0) == s[0]) by (nonlinear_arith)
            requires
                tens(0) == 1,
        ;
    } else {
        lemma_fraction_front(s.drop_last());
        assert(s.drop_last().drop_first() =~= s.drop_first().drop_last());
        assert(s.drop_first().last() == s.last());
        let t = tens((s.len() - 2) as nat);
        let a = s[0];
        assert(tens((s.len() - 1) as nat) == 10 * t);
        assert(10 * (a * t) == a * (10 * t)) by (nonlinear_arith);
    }
}

/// Doubles a decimal fraction and gives the binary digit that comes out in front.
fn double(digits: &mut Vec<u8>) -> (bit: u8)
    requires
        is_decimal(old(digits)@),
    ensures
        is_decimal(final(digits)@),
        final(digits)@.len() == old(digits)@.len(),
        bit <= 1,
        bit * tens(old(digits)@.len()) + fraction_value(final(digits)@) == 2 * fraction_value(
            old(digits)@,
        ),
{
    let ghost before = digits@;
    let k: usize = digits.len();
    let mut i: usize = k;
    let mut carry: u8 = 0;
    assert(digits@.skip(k as int) =~= Seq::<u8>::empty());
    while i > 0
        invariant
            i <= k,
            k == before.len(),
            digits@.len() == k,
            is_decimal(before),
            carry <= 1,
            forall|j: int| 0 <= j < i ==> #[trigger] digits@[j] == before[j],
            forall|j: int| i <= j < k ==> #[trigger] digits@[j] < 10,
            carry * tens((k - i) as nat) + fraction_value(digits@.skip(i as int)) == 2
                * fraction_value(before.skip(i as int)),
        decreases i,
    {
        let ghost mid = digits@;
        let ghost c0 = carry;
        let at: usize = i - 1;
        let d: u8 = digits[at];
        assert(before[at as int] < 10);
        let v: u8 = d * 2 + carry;
        let low: u8 = if v >= 10 {
            v - 10
        } else {
            v
        };
        carry = if v >= 10 {
            1
        } else {
            0
        };
        digits.set(at, low);
        proof {
            let now = digits@.skip(at as int);
            let was = before.skip(at as int);
            assert(now.drop_first() =~= mid.skip(i as int));
            assert(was.drop_first() =~= before.skip(i as int));
            lemma_fraction_front(now);
            lemma_fraction_front(was);
            let t = tens((k - i) as nat);
            assert(tens((k - at) as nat) == 10 * t);
            assert(carry * (10 * t) + low * t == v * t) by (nonlinear_arith)
                requires
                    v == carry * 10 + low,
            ;
            assert(v * t == 2 * (d * t) + c0 * t) by (nonlinear_arith)
                requires
                    v == d * 2 + c0,
            ;
        }
        i = at;
    }
    assert(digits@.skip(0) =~= digits@);
    assert(before.skip(0) =~= before);
    carry
}

fn all_zero(digits: &Vec<u8>) -> (out: bool)
    requires
        is_decimal(digits@),
    ensures
        out == (fraction_value(digits@) == 0),
{
    proof {
        lemma_fraction_bound(digits@);
    }
    let mut i: usize = 0;
    while i < digits.len()
        invariant
            i <= digits@.len(),
            forall|j: int| 0 <= j < i ==> #[trigger] digits@[j] == 0,
            fraction_value(digits@) == 0 <==> forall|j: int|
                0 <= j < digits@.len() ==> #[trigger] digits@[j] == 0,
        decreases digits@.len() - i,
    {
        if digits[i] != 0 {
            return false;
        }
        i += 1;
    }
    true
}

/// The value of limbs of ten binary digits each, the least significant one first.
spec fn limbs_value(s: Seq<u32>) -> nat
    decreases s.len(),
{
    if s.len() == 0 {
        0
    } else {
        limbs_value(s.drop_last()) + s.last() as nat * power2::pow2((10 * (s.len() - 1)) as nat)
    }
}

spec fn are_limbs(s: Seq<u32>) -> bool {
    forall|i: int| 0 <= i < s.len() ==> #[trigger] s[i] < 1024
}

proof fn lemma_limbs_bound(s: Seq<u32>)
    requires
        are_limbs(s),
    ensures
        limbs_value(s) < power2::pow2((10 * s.len()) as nat),
        s.len() > 0 && s.last() > 0 ==> limbs_value(s) >= power2::pow2((10 * (s.len() - 1)) as nat),
    decreases s.len(),
{
    lemma_pow2_53();
    if s.len() > 0 {
        assert(forall|i: int| 0 <= i < s.len() - 1 ==> s.drop_last()[i] == s[i]);
        lemma_limbs_bound(s.drop_last());
        let n = (10 * (s.len() - 1)) as nat;
        lemma_pow2_add(n, 10);
        assert(n + 10 == 10 * s.len());
        let p = power2::pow2(n);
        let l = s.last() as nat;
        assert(s[s.len() - 1] < 1024);
        assert(l * p + p <= p * 1024) by (nonlinear_arith)
            requires
                l + 1 <= 1024,
        ;
        if l > 0 {
            assert(l * p >= p) by (nonlinear_arith)
                requires
                    l >= 1,
            ;
        }
    }
}

/// Appends a decimal digit to a number.
fn append_digit(limbs: &mut Vec<u32>, d: u32)
    requires
        are_limbs(old(limbs)@),
        old(limbs)@.len() > 0 ==> old(limbs)@.last() > 0,
        d < 10,
    ensures
        are_limbs(final(limbs)@),
        final(limbs)@.len() > 0 ==> final(limbs)@.last() > 0,
        final(limbs)@.len() <= old(limbs)@.len() + 1,
        limbs_value(final(limbs)@) == 10 * limbs_value(old(limbs)@) + d,
{
    let ghost before = limbs@;
    let n: usize = limbs.len();
    let mut i: usize = 0;
    let mut carry: u32 = d;
    proof {
        lemma_pow2_53();
        assert(limbs@.take(0) =~= Seq::<u32>::empty());
        assert(before.take(0) =~= Seq::<u32>::empty());
        assert(carry as nat * power2::pow2(0) == carry) by (nonlinear_arith)
            requires
                power2::pow2(0) == 1,
        ;
    }
    while i < n
        invariant
            i <= n,
            n == before.len(),
            limbs@.len() == n,
            are_limbs(before),
            carry < 10,
            forall|j: int| 0 <= j < i ==> #[trigger] limbs@[j] < 1024,
            forall|j: int| i <= j < n ==> #[trigger] limbs@[j] == before[j],
            i == n && n > 0 && before.last() > 0 ==> limbs@.last() > 0 || carry > 0,
            limbs_value(limbs@.take(i as int)) + carry as nat * power2::pow2((10 * i) as nat) == 10
                * limbs_value(before.take(i as int)) + d,
        decreases n - i,
    {
        let ghost mid = limbs@;
        let ghost c0 = carry;
        let v: u32 = limbs[i] * 10 + carry;
        assert(before[i as int] < 1024);
        let low: u32 = v % 1024;
        carry = v / 1024;
        limbs.set(i, low);
        proof {
            assert(limbs@.take(i + 1).drop_last() =~= mid.take(i as int));
            assert(before.take(i + 1).drop_last() =~= before.take(i as int));
            let n10 = (10 * i) as nat;
            lemma_pow2_53();
            lemma_pow2_add(n10, 10);
            assert(n10 + 10 == 10 * (i + 1));
            let p = power2::pow2(n10);
            let b = before[i as int] as nat;
            assert(low as nat * p + carry as nat * (p * 1024) == v as nat * p) by (nonlinear_arith)
                requires
                    v == carry * 1024 + low,
            ;
            assert(v as nat * p == 10 * (b * p) + c0 as nat * p) by (nonlinear_arith)
                requires
                    v == b * 10 + c0,
            ;
        }
        i += 1;
    }
    assert(limbs@.take(n as int) =~= limbs@);
    assert(before.take(n as int) =~= before);
    if carry > 0 {
        let ghost mid = limbs@;
        limbs.push(carry);
        assert(limbs@.drop_last() =~= mid);
    }
}

/// The whole part of a number, as far as it matters for a size.
enum Whole {
    /// A number below 2^67.
    Small(u128),
    /// A larger number that a double can hold.
    Large,
    /// A number too large for a double.
    Infinite,
}

/// The least number that rounds to more than the largest double.
spec fn too_large() -> nat {
    0x3f_ffff_ffff_ffff * power2::pow2(970)
}

/// The value of the limbs from `from` on.
fn top_value(limbs: &Vec<u32>, from: usize) -> (top: u128)
    requires
        are_limbs(limbs@),
        from <= limbs@.len() <= from + 11,
    ensures
        limbs_value(limbs@) == top as nat * power2::pow2((10 * from) as nat) + limbs_value(
            limbs@.take(from as int),
        ),
        limbs_value(limbs@.take(from as int)) < power2::pow2((10 * from) as nat),
{
    let n: usize = limbs.len();
    let mut i: usize = n;
    let mut top: u128 = 0;
    let mut room: u128 = 1;
    proof {
        assert(limbs@.take(n as int) =~= limbs@);
        lemma_pow2_53();
    }
    while i > from
        invariant
            from <= i <= n,
            n == limbs@.len(),
            n <= from + 11,
            are_limbs(limbs@),
            top < room,
            room == power2::pow2((10 * (n - i)) as nat),
            limbs_value(limbs@) == top as nat * power2::pow2((10 * i) as nat) + limbs_value(
                limbs@.take(i as int),
            ),
        decreases i,
    {
        let at: usize = i - 1;
        let l: u128 = limbs[at] as u128;
        proof {
            lemma_pow2_53();
            lemma_pow2_order((10 * (n - i)) as nat, 100);
            lemma_pow2_add(40, 60);
            lemma_pow2_add(60, 4);
            lemma_pow2_add((10 * (n - i)) as nat, 10);
            lemma_pow2_add((10 * at) as nat, 10);
            assert(10 * at + 10 == 10 * i);
            assert(10 * (n - i) + 10 == 10 * (n - at));
            assert(0x100_0000_0000 * 0x1000_0000_0000_0000 == 0x10_0000_0000_0000_0000_0000_0000int)
                by (nonlinear_arith);
            let p = power2::pow2((10 * at) as nat);
            assert(limbs@.take(i as int).drop_last() =~= limbs@.take(at as int));
            assert(limbs@[at as int] < 1024);
            assert(top as nat * (p * 1024) + l as nat * p == (top * 1024 + l) as nat * p)
                by (nonlinear_arith);
        }
        top = top * 1024 + l;
        room = room * 1024;
        i = at;
    }
    proof {
        assert(are_limbs(limbs@.take(from as int)));
        lemma_limbs_bound(limbs@.take(from as int));
    }
    top
}

fn read_whole(whole: &[char]) -> (out: Whole)
    requires
        text::all_digits(whole@),
    ensures
        match out {
            Whole::Small(v) => v == text::digits_value(whole@) && v < power2::pow2(67),
            Whole::Large => power2::pow2(67) <= text::digits_value(whole@) < too_large(),
            Whole::Infinite => text::digits_value(whole@) >= too_large(),
        },
{
    let mut limbs: Vec<u32> = Vec::new();
    let mut i: usize = 0;
    proof {
        lemma_pow2_53();
        lemma_pow2_add(970, 54);
        lemma_pow2_order(1024, 1080);
        lemma_pow2_order(67, 70);
        lemma_pow2_order(67, 970);
        assert(too_large() <= power2::pow2(1024));
        assert(too_large() >= power2::pow2(970));
        assert(whole@.take(0) =~= Seq::<char>::empty());
    }
    while i < whole.len()
        invariant
            i <= whole@.len(),
            text::all_digits(whole@),
            are_limbs(limbs@),
            limbs@.len() > 0 ==> limbs@.last() > 0,
            limbs@.len() <= 108,
            limbs_value(limbs@) == text::digits_value(whole@.take(i as int)),
            too_large() <= power2::pow2(1080),
        decreases whole@.len() - i,
    {
        let c = whole[i];
        assert(text::is_digit(whole@[i as int]));
        let d: u32 = c as u32 - '0' as u32;
        proof {
            assert(whole@.take(i + 1).drop_last() =~= whole@.take(i as int));
        }
        append_digit(&mut limbs, d);
        i += 1;
        if limbs.len() > 108 {
            proof {
                lemma_limbs_bound(limbs@);
                lemma_digits_grow(whole@, i as int);
            }
            return Whole::Infinite;
        }
    }
    assert(whole@.take(whole@.len() as int) =~= whole@);
    if limbs.len() <= 7 {
        let v = top_value(&limbs, 0);
        proof {
            assert(limbs@.take(0) =~= Seq::<u32>::empty());
            lemma_pow2_53();
            lemma_limbs_bound(limbs@);
            lemma_pow2_order((10 * limbs@.len()) as nat, 70);
            lemma_pow2_order(70, 970);
            lemma_pow2_add(64, 3);
            assert(v as nat * 1 == v as nat) by (nonlinear_arith);
        }
        if v < 0x8_0000_0000_0000_0000 {
            Whole::Small(v)
        } else {
            Whole::Large
        }
    } else if limbs.len() <= 97 {
        proof {
            lemma_limbs_bound(limbs@);
            lemma_pow2_order(70, (10 * (limbs@.len() - 1)) as nat);
            lemma_pow2_order((10 * limbs@.len()) as nat, 970);
        }
        Whole::Large
    } else {
        let top = top_value(&limbs, 97);
        proof {
            lemma_limbs_bound(limbs@);
            lemma_pow2_order(70, (10 * (limbs@.len() - 1)) as nat);
            let p = power2::pow2(970);
            let low = limbs_value(limbs@.take(97));
            if top >= 0x3f_ffff_ffff_ffff {
                assert(top as nat * p >= 0x3f_ffff_ffff_ffff * p) by (nonlinear_arith)
                    requires
                        top >= 0x3f_ffff_ffff_ffff,
                ;
            } else {
                assert(top as nat * p + p <= 0x3f_ffff_ffff_ffff * p) by (nonlinear_arith)
                    requires
                        top + 1 <= 0x3f_ffff_ffff_ffff,
                ;
            }
        }
        if top >= 0x3f_ffff_ffff_ffff {
            Whole::Infinite
        } else {
            Whole::Large
        }
    }
}

proof fn lemma_digits_grow(s: Seq<char>, k: int)
    requires
        0 <= k <= s.len(),
        text::all_digits(s),
    ensures
        text::digits_value(s.take(k)) <= text::digits_value(s),
    decreases s.len(),
{
    if k < s.len() {
        assert(s.drop_last().take(k) =~= s.take(k));
        assert(text::all_digits(s.drop_last())) by {
            assert(forall|i: int| 0 <= i < s.len() - 1 ==> s.drop_last()[i] == s[i]);
        }
        lemma_digits_grow(s.drop_last(), k);
        assert(text::is_digit(s[s.len() - 1]));
    } else {
        assert(s.take(k) =~= s);
    }
}

/// The double nearest to a whole number with something behind it: `b` and, where `more`, a
/// fraction below 1.
fn round53(b: u128, more: bool, n: Ghost<nat>, q: Ghost<nat>) -> (out: u128)
    requires
        0x20_0000_0000_0000 <= b < power2::pow2(120),
        q@ > 0,
        n@ / q@ == b,
        more <==> n@ % q@ != 0,
    ensures
        out == nearest(n@, q@),
        out <= 2 * b,
{
    let mut s: u32 = 0;
    let mut unit: u128 = 1;
    let mut rest: u128 = b;
    let ghost n = n@;
    let ghost q = q@;
    proof {
        lemma_pow2_53();
        lemma_pow2_add(64, 56);
        assert(power2::pow2(120) == 0x100_0000_0000_0000_0000_0000_0000_0000int) by {
            assert(0x1_0000_0000_0000_0000 * 0x100_0000_0000_0000
                == 0x100_0000_0000_0000_0000_0000_0000_0000int) by (nonlinear_arith);
        }
    }
    while rest >= 0x20_0000_0000_0000
        invariant
            s <= 120,
            unit == power2::pow2(s as nat),
            rest == b / unit,
            unit > 0,
            b < 0x100_0000_0000_0000_0000_0000_0000_0000,
            s == 0 ==> b >= 0x20_0000_0000_0000,
            excess(b as nat) == s + excess(rest as nat),
            rest as nat * unit as nat <= b,
        decreases rest,
    {
        proof {
            lemma_pow2_53();
            lemma_pow2_add(s as nat, 1);
            assert(unit <= b) by (nonlinear_arith)
                requires
                    rest as nat * unit as nat <= b,
                    rest >= 1,
            ;
            assert(unit * 0x20_0000_0000_0000 <= b) by (nonlinear_arith)
                requires
                    rest as nat * unit as nat <= b,
                    rest >= 0x20_0000_0000_0000,
            ;
            vstd::arithmetic::div_mod::lemma_div_denominator(b as int, unit as int, 2);
            lemma_div_bounds(b as nat, (unit * 2) as nat);
            if s >= 120 {
                lemma_pow2_order(120, s as nat);
                lemma_pow2_add(64, 56);
                assert(0x1_0000_0000_0000_0000 * 0x100_0000_0000_0000
                    == 0x100_0000_0000_0000_0000_0000_0000_0000int) by (nonlinear_arith);
            }
        }
        rest = rest / 2;
        unit = unit * 2;
        s += 1;
    }
    proof {
        assert(excess(rest as nat) == 0);
        lemma_pow2_53();
        assert(s > 0);
        lemma_pow2_add((s - 1) as nat, 1);
    }
    let over: u128 = b % unit;
    let half: u128 = unit / 2;
    let up = over > half || (over == half && (more || rest % 2 == 1));
    proof {
        let d = q * power2::pow2(s as nat);
        let r = n % q;
        lemma_div_bounds(n, q);
        lemma_div_bounds(b as nat, unit as nat);
        let u = unit as nat;
        let o = over as nat;
        let f = rest as nat;
        let h = half as nat;
        assert(n == f * d + (o * q + r)) by (nonlinear_arith)
            requires
                n == (b as nat) * q + r,
                b as nat == f * u + o,
                d == q * u,
        ;
        assert(o * q + r < d) by (nonlinear_arith)
            requires
                o + 1 <= u,
                r < q,
                d == q * u,
        ;
        lemma_div_is(n, d, f, o * q + r);
        assert(d == 2 * (h * q)) by (nonlinear_arith)
            requires
                d == q * u,
                u == 2 * h,
        ;
        if o > h {
            assert(o * q >= h * q + q) by (nonlinear_arith)
                requires
                    o >= h + 1,
            ;
        } else if o < h {
            assert(o * q + q <= h * q) by (nonlinear_arith)
                requires
                    o + 1 <= h,
            ;
        }
        assert(to_nearest(n, d) == f + if up {
            1nat
        } else {
            0
        });
        assert(f >= 1) by {
            lemma_excess(b as nat);
            lemma_div_at_least(b as nat, u, 1);
            lemma_pow2_order(s as nat, (52 + s) as nat);
        }
        assert((f + 1) * u <= 2 * (b as nat)) by (nonlinear_arith)
            requires
                f * u <= b as nat,
                f >= 1,
        ;
        assert(b as nat <= 0x100_0000_0000_0000_0000_0000_0000_0000);
    }
    if up {
        (rest + 1) * unit
    } else {
        rest * unit
    }
}

/// The value of the digit characters.
fn fraction_digits(fraction: &[char]) -> (out: Vec<u8>)
    requires
        text::all_digits(fraction@),
    ensures
        is_decimal(out@),
        out@.len() == fraction@.len(),
        fraction_value(out@) == text::digits_value(fraction@),
{
    let mut out: Vec<u8> = Vec::new();
    let mut i: usize = 0;
    assert(fraction@.take(0) =~= Seq::<char>::empty());
    while i < fraction.len()
        invariant
            i <= fraction@.len(),
            text::all_digits(fraction@),
            is_decimal(out@),
            out@.len() == i,
            fraction_value(out@) == text::digits_value(fraction@.take(i as int)),
        decreases fraction@.len() - i,
    {
        assert(text::is_digit(fraction@[i as int]));
        let d: u8 = (fraction[i] as u32 - '0' as u32) as u8;
        let ghost before = out@;
        out.push(d);
        assert(out@.drop_last() =~= before);
        assert(fraction@.take(i + 1).drop_last() =~= fraction@.take(i as int));
        i += 1;
    }
    assert(fraction@.take(fraction@.len() as int) =~= fraction@);
    out
}

proof fn lemma_whole_decides(whole: Seq<char>, fraction: Seq<char>)
    requires
        text::all_digits(whole),
        text::all_digits(fraction),
    ensures
        ({
            let n = text::digits_value(whole + fraction);
            let q = tens(fraction.len());
            &&& q > 0
            &&& n / q == text::digits_value(whole)
            &&& n == text::digits_value(whole) * q + text::digits_value(fraction)
            &&& of_decimal(whole, fraction) >= power2::pow2(2098) <==> text::digits_value(whole)
                >= too_large()
        }),
{
    let w = text::digits_value(whole);
    let f = text::digits_value(fraction);
    let n = text::digits_value(whole + fraction);
    let q = tens(fraction.len());
    lemma_tens_pos(fraction.len());
    lemma_digits_join(whole, fraction);
    lemma_digits_bound(fraction);
    lemma_div_is(n, q, w, f);
    let p = power2::pow2(1074);
    lemma_infinite(n * p, q);
    lemma_pow2_add(970, 1074);
    let c: nat = 0x3f_ffff_ffff_ffff;
    let t = too_large();
    lemma_div_at_least(n, q, t);
    assert((c * power2::pow2(2044)) * q == (t * q) * p) by (nonlinear_arith)
        requires
            power2::pow2(2044) == power2::pow2(970) * p,
            t == c * power2::pow2(970),
    ;
    assert(n * p >= (t * q) * p <==> n >= t * q) by (nonlinear_arith)
        requires
            p > 0,
    ;
}

proof fn lemma_digits_bound(s: Seq<char>)
    requires
        text::all_digits(s),
    ensures
        text::digits_value(s) < tens(s.len()),
    decreases s.len(),
{
    if s.len() > 0 {
        assert forall|i: int| 0 <= i < s.len() - 1 implies text::is_digit(
            #[trigger] s.drop_last()[i],
        ) by {
            assert(s.drop_last()[i] == s[i]);
        }
        lemma_digits_bound(s.drop_last());
        assert(text::is_digit(s[s.len() - 1]));
    }
}

/// A number of at least 2^67 saturates, whatever the unit.
proof fn lemma_large(n: nat, q: nat, factor: nat, divisor: nat)
    requires
        q > 0,
        n >= power2::pow2(67) * q,
        factor >= 1,
        1 <= divisor <= 8,
    ensures
        rounded(nearest(nearest(n * power2::pow2(1074), q) * factor, divisor)) >= power2::pow2(64),
{
    lemma_pow2_53();
    lemma_pow2_add(67, 1074);
    let p = power2::pow2(1074);
    assert(n * p >= power2::pow2(1141) * q) by (nonlinear_arith)
        requires
            n >= power2::pow2(67) * q,
            power2::pow2(1141) == power2::pow2(67) * p,
    ;
    lemma_nearest_at_least(n * p, q, 1141);
    let d = nearest(n * p, q);
    lemma_pow2_add(1138, 3);
    assert(d * factor >= power2::pow2(1138) * divisor) by (nonlinear_arith)
        requires
            d >= power2::pow2(1141),
            power2::pow2(1141) == power2::pow2(1138) * 8,
            factor >= 1,
            divisor <= 8,
            power2::pow2(1138) > 0,
    ;
    lemma_nearest_at_least(d * factor, divisor, 1138);
    let v = nearest(d * factor, divisor);
    lemma_pow2_add(64, 1074);
    lemma_div_at_least(v + power2::pow2(1073), p, power2::pow2(64));
}

/// A number below 2^-51 rounds to nothing, whatever the unit.
proof fn lemma_tiny(n: nat, q: nat, factor: nat, divisor: nat)
    requires
        q > 0,
        n * power2::pow2(104) < 0x20_0000_0000_0000 * q,
        factor <= 0x100_0000_0000,
        1 <= divisor,
    ensures
        rounded(nearest(nearest(n * power2::pow2(1074), q) * factor, divisor)) == 0,
{
    lemma_pow2_53();
    lemma_pow2_add(104, 970);
    lemma_pow2_add(53, 970);
    let p = power2::pow2(970);
    assert(n * power2::pow2(1074) <= power2::pow2(1023) * q) by (nonlinear_arith)
        requires
            n * power2::pow2(104) < 0x20_0000_0000_0000 * q,
            power2::pow2(1074) == power2::pow2(104) * p,
            power2::pow2(1023) == 0x20_0000_0000_0000 * p,
            p > 0,
    ;
    lemma_nearest_at_most(n * power2::pow2(1074), q, 1023);
    let d = nearest(n * power2::pow2(1074), q);
    lemma_pow2_add(1023, 40);
    assert(d * factor <= power2::pow2(1063) * divisor) by (nonlinear_arith)
        requires
            d <= power2::pow2(1023),
            factor <= 0x100_0000_0000,
            power2::pow2(1063) == power2::pow2(1023) * 0x100_0000_0000,
            divisor >= 1,
    ;
    lemma_nearest_at_most(d * factor, divisor, 1063);
    let v = nearest(d * factor, divisor);
    lemma_pow2_add(1063, 10);
    lemma_pow2_add(1073, 1);
    lemma_div_is(v + power2::pow2(1073), power2::pow2(1074), 0, v + power2::pow2(1073));
}

/// Rounding in units of 2^-p.
proof fn lemma_rounded(v: nat, p: nat)
    requires
        p <= 1074,
    ensures
        rounded(v * power2::pow2((1074 - p) as nat)) == if p == 0 {
            v
        } else {
            (v + power2::pow2((p - 1) as nat)) / power2::pow2(p)
        },
{
    let c = (1074 - p) as nat;
    let u = power2::pow2(c);
    lemma_pow2_add(p, c);
    if p == 0 {
        lemma_pow2_add(1073, 1);
        lemma_pow2_53();
        lemma_div_is(v * u + power2::pow2(1073), u, v, power2::pow2(1073));
    } else {
        lemma_pow2_add((p - 1) as nat, c);
        assert(v * u + power2::pow2(1073) == (v + power2::pow2((p - 1) as nat)) * u) by (nonlinear_arith)
            requires
                power2::pow2(1073) == power2::pow2((p - 1) as nat) * u,
        ;
        lemma_to_nearest_scale(v + power2::pow2((p - 1) as nat), power2::pow2(p), u);
    }
}

/// The decimal number `whole.fraction` as a double, times `factor` and divided by `divisor`,
/// rounded to an integer and held at the largest 64-bit number. Nothing where the number is too
/// large for a double.
#[verifier::rlimit(50)]
pub fn scale(whole: &[char], fraction: &[char], factor: u64, divisor: u64) -> (out: Option<u64>)
    requires
        text::all_digits(whole@),
        text::all_digits(fraction@),
        1 <= factor <= 0x100_0000_0000,
        divisor == 1 || divisor == 8 && factor == 1,
    ensures
        match scaled(whole@, fraction@, factor as nat, divisor as nat) {
            Some(r) => out == Some(
                if r > u64::MAX {
                    u64::MAX
                } else {
                    r as u64
                },
            ),
            None => out is None,
        },
{
    let ghost n = text::digits_value(whole@ + fraction@);
    let ghost q = tens(fraction@.len());
    let ghost d = of_decimal(whole@, fraction@);
    proof {
        lemma_whole_decides(whole@, fraction@);
        lemma_pow2_53();
    }
    let v: u128 = match read_whole(whole) {
        Whole::Infinite => {
            return None;
        },
        Whole::Large => {
            proof {
                lemma_div_at_least(n, q, power2::pow2(67));
                lemma_large(n, q, factor as nat, divisor as nat);
            }
            return Some(u64::MAX);
        },
        Whole::Small(v) => v,
    };
    let mut digits = fraction_digits(fraction);
    let mut a: u128 = v;
    let mut p: u32 = 0;
    let mut unit: u128 = 1;
    proof {
        lemma_pow2_add(64, 3);
        lemma_pow2_order(67, 970);
        assert(too_large() >= power2::pow2(970));
        assert(n * power2::pow2(0) == n) by (nonlinear_arith)
            requires
                power2::pow2(0) == 1,
        ;
    }
    while a < 0x20_0000_0000_0000 && p < 104
        invariant
            p <= 104,
            unit == power2::pow2(p as nat),
            is_decimal(digits@),
            digits@.len() == fraction@.len(),
            q == tens(fraction@.len()),
            n * power2::pow2(p as nat) == a * q + fraction_value(digits@),
            a < 0x8_0000_0000_0000_0000,
        decreases 104 - p,
    {
        let ghost f0 = fraction_value(digits@);
        let ghost a0 = a;
        let bit = double(&mut digits);
        proof {
            lemma_pow2_53();
            lemma_pow2_add(p as nat, 1);
            lemma_pow2_order(p as nat, 104);
            lemma_pow2_add(64, 40);
            assert(0x1_0000_0000_0000_0000 * 0x100_0000_0000
                == 0x100_0000_0000_0000_0000_0000_0000int) by (nonlinear_arith);
            assert(n * (power2::pow2(p as nat) * 2) == 2 * (n * power2::pow2(p as nat))) by (nonlinear_arith);
            assert(2 * (a0 * q) + bit * q == (a0 * 2 + bit) * q) by (nonlinear_arith);
        }
        a = a * 2 + bit as u128;
        unit = unit * 2;
        p += 1;
    }
    proof {
        lemma_fraction_bound(digits@);
    }
    if a < 0x20_0000_0000_0000 {
        proof {
            assert((a + 1) * q <= 0x20_0000_0000_0000 * q) by (nonlinear_arith)
                requires
                    a + 1 <= 0x20_0000_0000_0000,
            ;
            assert((a + 1) * q == a * q + q) by (nonlinear_arith);
            lemma_tiny(n, q, factor as nat, divisor as nat);
        }
        return Some(0);
    }
    let more = !all_zero(&digits);
    let ghost np = n * power2::pow2(p as nat);
    proof {
        lemma_div_is(np, q, a as nat, fraction_value(digits@));
        lemma_pow2_order(67, 120);
    }
    let dp: u128 = round53(a, more, Ghost(np), Ghost(q));
    let ghost c = (1074 - p) as nat;
    proof {
        lemma_nearest_units(np, q, c);
        lemma_pow2_add(p as nat, c);
        assert(np * power2::pow2(c) == n * power2::pow2(1074)) by (nonlinear_arith)
            requires
                np == n * power2::pow2(p as nat),
                power2::pow2(1074) == power2::pow2(p as nat) * power2::pow2(c),
        ;
        assert(d == dp as nat * power2::pow2(c));
        lemma_div_at_least(np, q, power2::pow2(53));
        lemma_nearest_at_least(np, q, 53);
        assert(dp as nat * factor as nat >= dp) by (nonlinear_arith)
            requires
                factor >= 1,
        ;
        assert(dp as nat * factor as nat <= 0x10_0000_0000_0000_0000 * 0x100_0000_0000)
            by (nonlinear_arith)
            requires
                dp <= 0x10_0000_0000_0000_0000,
                factor <= 0x100_0000_0000,
        ;
        assert(0x10_0000_0000_0000_0000 * 0x100_0000_0000
            == 0x1000_0000_0000_0000_0000_0000_0000int) by (nonlinear_arith);
        lemma_pow2_add(64, 56);
        assert(0x1_0000_0000_0000_0000 * 0x100_0000_0000_0000
            == 0x100_0000_0000_0000_0000_0000_0000_0000int) by (nonlinear_arith);
    }
    let b: u128 = dp * factor as u128;
    proof {
        lemma_div_is(b as nat, 1, b as nat, 0);
    }
    let vp: u128 = round53(b, false, Ghost(b as nat), Ghost(1nat));
    proof {
        lemma_pow2_order(p as nat, 104);
        lemma_pow2_add(64, 40);
        assert(0x1_0000_0000_0000_0000 * 0x100_0000_0000
            == 0x100_0000_0000_0000_0000_0000_0000int) by (nonlinear_arith);
    }
    if divisor == 8 {
        p += 3;
        unit = unit * 8;
    }
    proof {
        let c2 = (1074 - p) as nat;
        lemma_nearest_units(b as nat, 1, c2);
        lemma_pow2_add((p as nat), c2);
        if divisor == 8 {
            lemma_pow2_add(c2, 3);
            lemma_pow2_add((p - 3) as nat, 3);
            let x = dp as nat * power2::pow2(c2);
            assert(d * 1 == x * 8) by (nonlinear_arith)
                requires
                    d == dp as nat * power2::pow2(c),
                    power2::pow2(c) == power2::pow2(c2) * 8,
                    x == dp as nat * power2::pow2(c2),
            ;
            lemma_nearest_scale(x, 1, 8);
            assert(b == dp) by (nonlinear_arith)
                requires
                    b == dp * factor,
                    factor == 1,
            ;
        } else {
            assert(d * factor as nat == b as nat * power2::pow2(c2)) by (nonlinear_arith)
                requires
                    d == dp as nat * power2::pow2(c2),
                    b as nat == dp as nat * factor as nat,
            ;
        }
        assert(nearest(d * factor as nat, divisor as nat) == vp as nat * power2::pow2(c2));
        lemma_rounded(vp as nat, p as nat);
        lemma_pow2_order(p as nat, 107);
        lemma_pow2_add(64, 43);
        lemma_pow2_add(40, 3);
        assert(0x1_0000_0000_0000_0000 * 0x800_0000_0000
            == 0x800_0000_0000_0000_0000_0000_0000int) by (nonlinear_arith);
        if p > 0 {
            lemma_pow2_add((p - 1) as nat, 1);
        }
    }
    let r: u128 = if p == 0 {
        vp
    } else {
        (vp + unit / 2) / unit
    };
    if r > u64::MAX as u128 {
        Some(u64::MAX)
    } else {
        Some(r as u64)
    }
}

/// A whole number of at most 53 binary digits is itself as a double.
proof fn lemma_nearest_exact(n: nat, c: nat)
    requires
        n < 0x20_0000_0000_0000,
    ensures
        nearest(n * power2::pow2(c), 1) == n * power2::pow2(c),
    decreases c,
{
    lemma_pow2_53();
    let v = n * power2::pow2(c);
    lemma_div_is(v, 1, v, 0);
    lemma_excess(v);
    let s = excess(v);
    lemma_pow2_add(s, 0);
    if s <= c {
        let t = (c - s) as nat;
        lemma_pow2_add(t, s);
        assert(v == (n * power2::pow2(t)) * power2::pow2(s)) by (nonlinear_arith)
            requires
                v == n * power2::pow2(c),
                power2::pow2(c) == power2::pow2(t) * power2::pow2(s),
        ;
        lemma_div_is(v, power2::pow2(s), n * power2::pow2(t), 0);
        assert(1 * power2::pow2(s) == power2::pow2(s));
    } else {
        lemma_pow2_add(c, 53);
        assert(n * power2::pow2(c) < power2::pow2(c + 53)) by (nonlinear_arith)
            requires
                n < 0x20_0000_0000_0000,
                power2::pow2(c + 53) == power2::pow2(c) * 0x20_0000_0000_0000,
                power2::pow2(c) > 0,
        ;
        lemma_pow2_order(c + 53, (52 + s) as nat);
    }
}

/// Whole numbers whose product with the factor fits 53 binary digits are scaled exactly.
pub proof fn lemma_exact(whole: Seq<char>, m: nat)
    requires
        text::all_digits(whole),
        m >= 1,
        text::digits_value(whole) * m < 0x20_0000_0000_0000,
    ensures
        scaled(whole, Seq::empty(), m, 1) == Some(text::digits_value(whole) * m),
{
    let n = text::digits_value(whole);
    assert(whole + Seq::<char>::empty() =~= whole);
    assert(tens(0) == 1);
    assert(n <= n * m) by (nonlinear_arith)
        requires
            m >= 1,
    ;
    lemma_nearest_exact(n, 1074);
    let p = power2::pow2(1074);
    assert(n * p * m == (n * m) * p) by (nonlinear_arith);
    lemma_nearest_exact(n * m, 1074);
    lemma_rounded(n * m, 0);
    lemma_pow2_53();
    lemma_pow2_add(1074, 53);
    lemma_pow2_order(1127, 2098);
    assert(n * p <= 0x20_0000_0000_0000 * p) by (nonlinear_arith)
        requires
            n <= 0x20_0000_0000_0000,
    ;
    assert(n * p < p * 0x20_0000_0000_0000) by (nonlinear_arith)
        requires
            n < 0x20_0000_0000_0000,
            p > 0,
    ;
}

/// Rounding goes to the nearest integer, and to the even one of two that are equally near.
pub proof fn law_rounding_goes_to_the_nearest(n: nat, d: nat)
    requires
        d > 0,
    ensures
        2 * (to_nearest(n, d) * d) <= 2 * n + d,
        2 * n <= 2 * (to_nearest(n, d) * d) + d,
        2 * (to_nearest(n, d) * d) == 2 * n + d || 2 * n == 2 * (to_nearest(n, d) * d) + d
            ==> to_nearest(n, d) % 2 == 0,
{
    lemma_div_bounds(n, d);
    let f = n / d;
    let r = n % d;
    assert((f + 1) * d == f * d + d) by (nonlinear_arith);
    assert((f + 0) * d == f * d) by (nonlinear_arith);
    if 2 * r == d {
        assert((f + f % 2) % 2 == 0);
    }
}

/// Rounding a double goes to the nearest integer, and up where two are equally near.
pub proof fn law_halves_are_rounded_up(v: nat)
    ensures
        2 * (rounded(v) * power2::pow2(1074)) <= 2 * v + power2::pow2(1074),
        2 * v < 2 * (rounded(v) * power2::pow2(1074)) + power2::pow2(1074),
{
    let h = power2::pow2(1073);
    let p = power2::pow2(1074);
    lemma_pow2_add(1, 1073);
    lemma_pow2_53();
    assert(p == 2 * h);
    lemma_div_bounds(v + h, p);
}

/// Of a number below 2^53 of its units, no more than half a unit is rounded away.
pub proof fn law_doubles_are_near(n: nat, q: nat)
    requires
        q > 0,
    ensures
        n < 0x20_0000_0000_0000 * q ==> 2 * (nearest(n, q) * q) <= 2 * n + q && 2 * n <= 2 * (
        nearest(n, q) * q) + q,
{
    if n < 0x20_0000_0000_0000 * q {
        lemma_div_at_least(n, q, 0x20_0000_0000_0000);
        assert(excess(n / q) == 0);
        lemma_pow2_53();
        assert(q * 1 == q) by (nonlinear_arith);
        law_rounding_goes_to_the_nearest(n, q);
        assert(to_nearest(n, q) * 1 == to_nearest(n, q)) by (nonlinear_arith);
    }
}

/// Whole numbers that eight divides are divided by it exactly.
pub proof fn lemma_exact_eighth(whole: Seq<char>, k: nat)
    requires
        text::all_digits(whole),
        text::digits_value(whole) == 8 * k,
        8 * k < 0x20_0000_0000_0000,
    ensures
        scaled(whole, Seq::empty(), 1, 8) == Some(k),
{
    let n = text::digits_value(whole);
    assert(whole + Seq::<char>::empty() =~= whole);
    assert(tens(0) == 1);
    lemma_nearest_exact(n, 1074);
    let p = power2::pow2(1074);
    lemma_pow2_53();
    lemma_pow2_add(1074, 53);
    lemma_pow2_order(1127, 2098);
    assert(n * p < p * 0x20_0000_0000_0000) by (nonlinear_arith)
        requires
            n < 0x20_0000_0000_0000,
            p > 0,
    ;
    assert(n * p * 1 == (k * p) * 8) by (nonlinear_arith)
        requires
            n == 8 * k,
    ;
    assert(1nat * 8 == 8);
    lemma_nearest_scale(k * p, 1, 8);
    lemma_nearest_exact(k, 1074);
    lemma_rounded(k, 0);
}

} // verus!
