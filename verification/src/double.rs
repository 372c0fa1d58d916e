//! Decimal numbers at the precision of a binary floating point number with 53 significant
//! bits, scaled by a power of two and cut to whole bytes.

use vstd::arithmetic::div_mod::{
    lemma_div_denominator, lemma_fundamental_div_mod, lemma_fundamental_div_mod_converse,
};
use vstd::arithmetic::power2::{lemma2_to64, lemma_pow2_adds, lemma_pow2_pos, lemma_pow2_unfold, pow2};
use vstd::prelude::*;

verus! {

/// `10` to the power of `n`.
pub open spec fn pow10(n: nat) -> nat
    decreases n,
{
    if n == 0 {
        1
    } else {
        10 * pow10((n - 1) as nat)
    }
}

/// `mantissa * 10^exponent` as a fraction.
pub open spec fn fraction(mantissa: nat, exponent: int) -> (nat, nat) {
    if exponent >= 0 {
        (mantissa * pow10(exponent as nat), 1)
    } else {
        (mantissa, pow10((-exponent) as nat))
    }
}

/// The numerator of `num / den` in units of `2^x`.
pub open spec fn scaled_num(num: nat, x: int) -> nat {
    if x < 0 {
        num * pow2((-x) as nat)
    } else {
        num
    }
}

/// The denominator of `num / den` in units of `2^x`.
pub open spec fn scaled_den(den: nat, x: int) -> nat {
    if x > 0 {
        den * pow2(x as nat)
    } else {
        den
    }
}

/// In units of `2^x`, `num / den` has 53 binary digits before the point.
pub open spec fn in_binade(num: nat, den: nat, x: int) -> bool {
    scaled_den(den, x) * 0x10_0000_0000_0000 <= scaled_num(num, x) < scaled_den(den, x)
        * 0x20_0000_0000_0000
}

/// `a / b` rounded to the nearest integer, halves to the even one.
pub open spec fn round_half_even(a: nat, b: nat) -> nat {
    let q = a / b;
    let r = a % b;
    if 2 * r < b || (2 * r == b && q % 2 == 0) {
        q
    } else {
        q + 1
    }
}

/// `q * 2^y` without its fraction, at most `u64::MAX`.
pub open spec fn shifted(q: nat, y: int) -> nat {
    let v = if y >= 0 {
        q * pow2(y as nat)
    } else {
        q / pow2((-y) as nat)
    };
    if v > u64::MAX {
        u64::MAX as nat
    } else {
        v
    }
}

/// The bytes that `num / den` units of `2^k` bytes make, where `num / den` is first rounded to
/// the nearest number of 53 binary digits.
pub open spec fn double_bytes(num: nat, den: nat, k: nat) -> nat {
    if num == 0 {
        0
    } else {
        let x = choose|x: int| in_binade(num, den, x);
        shifted(round_half_even(scaled_num(num, x), scaled_den(den, x)), x + k)
    }
}

/// One unit is half of the next.
proof fn lemma_scale_step(num: nat, den: nat, x: int)
    ensures
        x >= 0 ==> scaled_num(num, x + 1) == scaled_num(num, x) && scaled_den(den, x + 1) == 2
            * scaled_den(den, x),
        x < 0 ==> scaled_num(num, x) == 2 * scaled_num(num, x + 1) && scaled_den(den, x + 1)
            == scaled_den(den, x),
{
    lemma2_to64();
    if x >= 0 {
        let p = pow2(x as nat);
        let next = pow2((x + 1) as nat);
        lemma_pow2_unfold((x + 1) as nat);
        assert(next == 2 * p);
        assert(den * next == 2 * (den * p)) by (nonlinear_arith)
            requires
                next == 2 * p,
        ;
        if x == 0 {
            assert(den * p == den) by (nonlinear_arith)
                requires
                    p == 1,
            ;
        }
    } else {
        let p = pow2((-x - 1) as nat);
        let next = pow2((-x) as nat);
        lemma_pow2_unfold((-x) as nat);
        assert(next == 2 * p);
        assert(num * next == 2 * (num * p)) by (nonlinear_arith)
            requires
                next == 2 * p,
        ;
        if x == -1 {
            assert(num * p == num) by (nonlinear_arith)
                requires
                    p == 1,
            ;
        }
    }
}

/// A number with at least 53 digits in a larger unit has more in a smaller one.
proof fn lemma_larger_unit(num: nat, den: nat, x: int, y: int)
    requires
        x < y,
        scaled_den(den, y) * 0x10_0000_0000_0000 <= scaled_num(num, y),
    ensures
        scaled_den(den, x) * 0x20_0000_0000_0000 <= scaled_num(num, x),
    decreases y - x,
{
    lemma_scale_step(num, den, x);
    if x + 1 < y {
        lemma_larger_unit(num, den, x + 1, y);
    }
}

/// A number has 53 digits in one unit only.
proof fn lemma_binade_unique(num: nat, den: nat, x: int, y: int)
    requires
        in_binade(num, den, x),
        in_binade(num, den, y),
    ensures
        x == y,
{
    if x < y {
        lemma_larger_unit(num, den, x, y);
    } else if y < x {
        lemma_larger_unit(num, den, y, x);
    }
}

proof fn lemma_binade_above(num: nat, den: nat, x: int) -> (r: int)
    requires
        den > 0,
        x >= 0,
        scaled_den(den, x) * 0x10_0000_0000_0000 <= scaled_num(num, x),
    ensures
        in_binade(num, den, r),
    decreases num - scaled_den(den, x),
{
    if in_binade(num, den, x) {
        x
    } else {
        lemma_scale_step(num, den, x);
        assert(scaled_den(den, x) > 0) by {
            lemma_pow2_pos(x as nat);
            assert(den * pow2(x as nat) > 0) by (nonlinear_arith)
                requires
                    den > 0,
                    pow2(x as nat) > 0,
            ;
        }
        lemma_binade_above(num, den, x + 1)
    }
}

proof fn lemma_binade_below(num: nat, den: nat, x: int) -> (r: int)
    requires
        num > 0,
        den > 0,
        x <= 0,
        scaled_num(num, x) < scaled_den(den, x) * 0x20_0000_0000_0000,
    ensures
        in_binade(num, den, r),
    decreases den * 0x20_0000_0000_0000 - scaled_num(num, x),
{
    if in_binade(num, den, x) {
        x
    } else {
        lemma_scale_step(num, den, x - 1);
        assert(scaled_num(num, x) > 0) by {
            lemma_pow2_pos((-x) as nat);
            assert(num * pow2((-x) as nat) > 0) by (nonlinear_arith)
                requires
                    num > 0,
                    pow2((-x) as nat) > 0,
            ;
        }
        lemma_binade_below(num, den, x - 1)
    }
}

/// Every positive number has 53 digits in some unit.
proof fn lemma_binade_exists(num: nat, den: nat) -> (x: int)
    requires
        num > 0,
        den > 0,
    ensures
        in_binade(num, den, x),
{
    if den * 0x10_0000_0000_0000 <= num {
        lemma_binade_above(num, den, 0)
    } else {
        lemma_binade_below(num, den, 0)
    }
}

/// Rounding keeps 53 digits, or carries to the first number with 54.
proof fn lemma_round_bounds(a: nat, b: nat)
    requires
        b > 0,
        b * 0x10_0000_0000_0000 <= a < b * 0x20_0000_0000_0000,
    ensures
        0x10_0000_0000_0000 <= round_half_even(a, b) <= 0x20_0000_0000_0000,
{
    lemma_fundamental_div_mod(a as int, b as int);
    let q = a / b;
    let r = a % b;
    assert(q >= 0x10_0000_0000_0000) by (nonlinear_arith)
        requires
            a == b * q + r,
            0 <= r < b,
            b * 0x10_0000_0000_0000 <= a,
    ;
    assert(q < 0x20_0000_0000_0000) by (nonlinear_arith)
        requires
            a == b * q + r,
            0 <= r < b,
            a < b * 0x20_0000_0000_0000,
    ;
}

/// The bytes of a number whose unit and rounded digits are known.
proof fn lemma_double_bytes(num: nat, den: nat, k: nat, x: int)
    requires
        num > 0,
        in_binade(num, den, x),
    ensures
        double_bytes(num, den, k) == shifted(
            round_half_even(scaled_num(num, x), scaled_den(den, x)),
            x + k,
        ),
{
    let y = choose|y: int| in_binade(num, den, y);
    lemma_binade_unique(num, den, x, y);
}

proof fn lemma_pow10_adds(a: nat, b: nat)
    ensures
        pow10(a + b) == pow10(a) * pow10(b),
    decreases a,
{
    if a == 0 {
        assert(1 * pow10(b) == pow10(b));
    } else {
        lemma_pow10_adds((a - 1) as nat, b);
        let p = pow10((a - 1) as nat);
        let q = pow10(b);
        assert(10 * (p * q) == (10 * p) * q) by (nonlinear_arith);
    }
}

proof fn lemma_pow10_pos(n: nat)
    ensures
        pow10(n) > 0,
    decreases n,
{
    if n > 0 {
        lemma_pow10_pos((n - 1) as nat);
    }
}

proof fn lemma_pow10_grows(a: nat, b: nat)
    requires
        a <= b,
    ensures
        pow10(a) <= pow10(b),
    decreases b,
{
    if a < b {
        lemma_pow10_grows(a, (b - 1) as nat);
    }
}

proof fn lemma_pow10_22()
    ensures
        pow10(20) == 100000000000000000000,
        pow10(21) == 1000000000000000000000,
        pow10(22) == 10000000000000000000000,
{
    reveal_with_fuel(pow10, 23);
}

/// From `10^21` on, the bytes exceed every `u64`.
pub proof fn lemma_huge(num: nat, den: nat, k: nat)
    requires
        den > 0,
        num >= den * pow10(21),
    ensures
        double_bytes(num, den, k) == u64::MAX,
{
    lemma_pow10_22();
    lemma2_to64();
    assert(num > 0) by (nonlinear_arith)
        requires
            den > 0,
            num >= den * 1000000000000000000000,
    ;
    let x = lemma_binade_exists(num, den);
    assert(scaled_den(den, 16) * 0x10_0000_0000_0000 <= num) by {
        assert((den * 0x10000) * 0x10_0000_0000_0000 <= den * 1000000000000000000000)
            by (nonlinear_arith);
    }
    if x < 16 {
        lemma_larger_unit(num, den, x, 16);
    }
    lemma_double_bytes(num, den, k, x);
    let a = scaled_num(num, x);
    let b = scaled_den(den, x);
    lemma_scaled_den_pos(den, x);
    lemma_round_bounds(a, b);
    let q = round_half_even(a, b);
    let p = pow2((x + k) as nat);
    lemma_pow2_adds(16, (x + k - 16) as nat);
    lemma_pow2_pos((x + k - 16) as nat);
    let rest = pow2((x + k - 16) as nat);
    assert(q * p > 0xffff_ffff_ffff_ffff) by (nonlinear_arith)
        requires
            q >= 0x10_0000_0000_0000,
            p == 0x10000 * rest,
            rest >= 1,
    ;
}

proof fn lemma_scaled_den_pos(den: nat, x: int)
    requires
        den > 0,
    ensures
        scaled_den(den, x) > 0,
{
    if x > 0 {
        lemma_pow2_pos(x as nat);
        let p = pow2(x as nat);
        assert(den * p > 0) by (nonlinear_arith)
            requires
                den > 0,
                p > 0,
        ;
    }
}

/// Up to `10^-22`, no unit below `2^41` makes a whole byte.
pub proof fn lemma_tiny(num: nat, den: nat, k: nat)
    requires
        num > 0,
        k <= 40,
        num * pow10(22) <= den,
    ensures
        double_bytes(num, den, k) == 0,
{
    lemma_pow10_22();
    lemma2_to64();
    lemma_pow2_adds(32, 30);
    lemma_pow2_adds(64, 62);
    lemma_pow2_adds(32, 22);
    assert(den > 0) by (nonlinear_arith)
        requires
            num > 0,
            num * 10000000000000000000000 <= den,
    ;
    let x = lemma_binade_exists(num, den);
    assert(pow2(126) == 0x4000_0000_0000_0000_0000_0000_0000_0000);
    if x > -126 {
        lemma_larger_unit(num, den, -126, x);
        assert(num * 0x4000_0000_0000_0000_0000_0000_0000_0000 < den * 0x20_0000_0000_0000)
            by (nonlinear_arith)
            requires
                num > 0,
                num * 10000000000000000000000 <= den,
        ;
    }
    lemma_double_bytes(num, den, k, x);
    lemma_round_bounds(scaled_num(num, x), scaled_den(den, x));
    let q = round_half_even(scaled_num(num, x), scaled_den(den, x));
    let down = (-(x + k)) as nat;
    lemma_pow2_adds(54, (down - 54) as nat);
    lemma_pow2_pos((down - 54) as nat);
    let rest = pow2((down - 54) as nat);
    let p = pow2(down);
    assert(p > q) by (nonlinear_arith)
        requires
            q <= 0x20_0000_0000_0000,
            p == 0x40_0000_0000_0000 * rest,
            rest >= 1,
    ;
    lemma_fundamental_div_mod_converse(q as int, p as int, 0, q as int);
}

/// The number that decimal digits spell.
pub open spec fn digits_value(s: Seq<u8>) -> nat
    decreases s.len(),
{
    if s.len() == 0 {
        0
    } else {
        10 * digits_value(s.drop_last()) + s.last() as nat
    }
}

/// Every element is a decimal digit.
pub open spec fn are_digits(s: Seq<u8>) -> bool {
    forall|i: int| 0 <= i < s.len() ==> s[i] <= 9
}

proof fn lemma_value_concat(a: Seq<u8>, b: Seq<u8>)
    ensures
        digits_value(a + b) == digits_value(a) * pow10(b.len()) + digits_value(b),
    decreases b.len(),
{
    let v = digits_value(a);
    if b.len() == 0 {
        assert(a + b =~= a);
        assert(v * 1 == v);
    } else {
        let rest = b.drop_last();
        assert((a + b).drop_last() =~= a + rest);
        lemma_value_concat(a, rest);
        let p = pow10(rest.len());
        assert(10 * (v * p) == v * (10 * p)) by (nonlinear_arith);
    }
}

proof fn lemma_value_bound(s: Seq<u8>)
    requires
        are_digits(s),
    ensures
        digits_value(s) < pow10(s.len()),
    decreases s.len(),
{
    if s.len() > 0 {
        lemma_value_bound(s.drop_last());
    }
}

/// A number without leading zeros has as many digits as it is written with.
proof fn lemma_value_lead(s: Seq<u8>)
    requires
        s.len() > 0,
        s[0] > 0,
    ensures
        digits_value(s) >= pow10((s.len() - 1) as nat),
{
    let rest = s.skip(1);
    assert(s =~= seq![s[0]] + rest);
    lemma_value_concat(seq![s[0]], rest);
    lemma_single(s[0]);
    let v = s[0] as nat;
    let p = pow10(rest.len());
    assert(v * p >= p) by (nonlinear_arith)
        requires
            v >= 1,
    ;
}

proof fn lemma_value_zeros(s: Seq<u8>)
    requires
        forall|i: int| 0 <= i < s.len() ==> s[i] == 0,
    ensures
        digits_value(s) == 0,
    decreases s.len(),
{
    if s.len() > 0 {
        lemma_value_zeros(s.drop_last());
    }
}

/// Doubles a decimal fraction in place and returns what goes over the point.
fn double_fraction(frac: &mut Vec<u8>) -> (carry: u8)
    requires
        are_digits(old(frac)@),
    ensures
        are_digits(final(frac)@),
        final(frac)@.len() == old(frac)@.len(),
        carry <= 1,
        2 * digits_value(old(frac)@) == carry * pow10(old(frac)@.len()) + digits_value(final(frac)@),
{
    let ghost before = frac@;
    let len: usize = frac.len();
    let mut carry: u8 = 0;
    let mut i: usize = len;
    assert(before.skip(len as int) =~= Seq::<u8>::empty());
    assert(frac@.skip(len as int) =~= Seq::<u8>::empty());
    while i > 0
        invariant
            i <= len,
            len == frac@.len(),
            len == before.len(),
            are_digits(before),
            are_digits(frac@),
            carry <= 1,
            forall|j: int| 0 <= j < i ==> frac@[j] == before[j],
            2 * digits_value(before.skip(i as int)) == carry * pow10((len - i) as nat)
                + digits_value(frac@.skip(i as int)),
        decreases i,
    {
        let ghost prev = frac@;
        let ghost old_carry = carry as int;
        i -= 1;
        let d: u8 = frac[i] * 2 + carry;
        frac.set(i, d % 10);
        carry = d / 10;
        proof {
            let at = i as int;
            let rest = before.skip(at + 1);
            let new_rest = prev.skip(at + 1);
            assert(before.skip(at) =~= seq![before[at]] + rest);
            assert(frac@.skip(at) =~= seq![frac@[at]] + new_rest);
            lemma_value_concat(seq![before[at]], rest);
            lemma_value_concat(seq![frac@[at]], new_rest);
            lemma_single(before[at]);
            lemma_single(frac@[at]);
            let p = pow10(rest.len());
            assert(rest.len() == len - (i + 1));
            let b = before[at] as int;
            let f = frac@[at] as int;
            let c = carry as int;
            let vr = digits_value(rest) as int;
            let vn = digits_value(new_rest) as int;
            assert(2 * b + old_carry == 10 * c + f);
            assert(2 * (b * p + vr) == c * (10 * p) + (f * p + vn)) by (nonlinear_arith)
                requires
                    2 * b + old_carry == 10 * c + f,
                    2 * vr == old_carry * p + vn,
            ;
        }
    }
    assert(before.skip(0) =~= before);
    assert(frac@.skip(0) =~= frac@);
    carry
}

proof fn lemma_single(d: u8)
    ensures
        digits_value(seq![d]) == d,
{
    reveal_with_fuel(digits_value, 2);
}

/// Whether a digit other than zero stands in `frac` from `from` on.
fn any_nonzero(frac: &Vec<u8>, from: usize) -> (r: bool)
    requires
        from <= frac@.len(),
    ensures
        r == (digits_value(frac@.skip(from as int)) > 0),
{
    let mut i: usize = from;
    while i < frac.len()
        invariant
            from <= i <= frac@.len(),
            forall|j: int| from <= j < i ==> frac@[j] == 0,
        decreases frac@.len() - i,
    {
        if frac[i] != 0 {
            proof {
                let s = frac@.skip(from as int);
                let head = s.take(i - from);
                let tail = s.skip(i - from);
                assert(s =~= head + tail);
                lemma_value_concat(head, tail);
                lemma_value_lead(tail);
                lemma_pow10_pos((tail.len() - 1) as nat);
                let v = digits_value(head);
                let p = pow10(tail.len());
                assert(v * p >= 0) by (nonlinear_arith);
            }
            return true;
        }
        i += 1;
    }
    proof {
        lemma_value_zeros(frac@.skip(from as int));
    }
    false
}

/// How the decimal fraction `frac` compares with one half: below, at or above it.
fn half_order(frac: &Vec<u8>) -> (r: i8)
    requires
        are_digits(frac@),
    ensures
        r < 0 <==> 2 * digits_value(frac@) < pow10(frac@.len()),
        r == 0 <==> 2 * digits_value(frac@) == pow10(frac@.len()),
{
    if frac.len() == 0 {
        return -1;
    }
    let ghost rest = frac@.skip(1);
    let ghost p = pow10(rest.len()) as int;
    let ghost v = digits_value(rest) as int;
    let ghost d = frac@[0] as int;
    proof {
        assert(frac@ =~= seq![frac@[0]] + rest);
        lemma_value_concat(seq![frac@[0]], rest);
        lemma_single(frac@[0]);
        lemma_value_bound(rest);
        lemma_pow10_pos(rest.len());
        assert(d <= 4 ==> 2 * (d * p + v) < 10 * p) by (nonlinear_arith)
            requires
                0 <= v < p,
        ;
        assert(d >= 6 ==> 2 * (d * p + v) > 10 * p) by (nonlinear_arith)
            requires
                0 <= v < p,
        ;
        assert(d == 5 ==> 2 * (d * p + v) == 10 * p + 2 * v) by (nonlinear_arith);
    }
    if frac[0] < 5 {
        -1
    } else if frac[0] > 5 {
        1
    } else if any_nonzero(frac, 1) {
        1
    } else {
        0
    }
}

/// `q * 2^y` without its fraction, at most `u64::MAX`.
fn shift_bytes(q: u64, y: i64) -> (r: u64)
    requires
        q <= 0x20_0000_0000_0000,
        -1000 <= y <= 60,
    ensures
        r == shifted(q as nat, y as int),
{
    if y >= 0 {
        let mut v: u128 = q as u128;
        let mut left: i64 = y;
        proof {
            lemma2_to64();
            let one = pow2(0);
            assert(q * one == q) by (nonlinear_arith)
                requires
                    one == 1,
            ;
        }
        while left > 0
            invariant
                0 <= left <= y <= 60,
                q <= 0x20_0000_0000_0000,
                v == q * pow2((y - left) as nat),
            decreases left,
        {
            proof {
                let done = (y - left) as nat;
                let p = pow2(done);
                lemma_pow2_unfold((done + 1) as nat);
                lemma_pow2_adds(done, (60 - done) as nat);
                lemma_pow2_adds(32, 28);
                lemma2_to64();
                lemma_pow2_pos((60 - done) as nat);
                let other = pow2((60 - done) as nat);
                assert(p <= 0x1000_0000_0000_0000) by (nonlinear_arith)
                    requires
                        p * other == 0x1000_0000_0000_0000,
                        other >= 1,
                ;
                assert(q * p <= 0x20_0000_0000_0000 * 0x1000_0000_0000_0000) by (nonlinear_arith)
                    requires
                        q <= 0x20_0000_0000_0000,
                        p <= 0x1000_0000_0000_0000,
                ;
                assert(q * (2 * p) == 2 * (q * p)) by (nonlinear_arith);
            }
            v = v * 2;
            left -= 1;
        }
        if v > 0xffff_ffff_ffff_ffff {
            0xffff_ffff_ffff_ffff
        } else {
            v as u64
        }
    } else {
        let mut v: u64 = q;
        let mut left: i64 = -y;
        proof {
            lemma2_to64();
            let one = pow2(0);
            assert(q as nat / one == q) by (nonlinear_arith)
                requires
                    one == 1,
            ;
        }
        while left > 0
            invariant
                0 <= left <= -y <= 1000,
                v == q as nat / pow2((-y - left) as nat),
            decreases left,
        {
            proof {
                let done = (-y - left) as nat;
                lemma_pow2_unfold((done + 1) as nat);
                lemma_pow2_pos(done);
                let p = pow2(done);
                lemma_div_denominator(q as int, p as int, 2);
            }
            v = v / 2;
            left -= 1;
        }
        v
    }
}

/// A number that is not tiny reaches 53 digits before it was doubled two hundred times.
proof fn lemma_doubling_ends(num: nat, den: nat, whole: nat, rest: nat, n: nat)
    requires
        n >= 200,
        num * pow10(22) >= den,
        num * pow2(n) == whole * den + rest,
        rest < den,
    ensures
        whole >= 0x10_0000_0000_0000,
{
    lemma_pow10_22();
    lemma2_to64();
    lemma_pow2_adds(32, 31);
    lemma_pow2_adds(64, 63);
    lemma_pow2_adds(127, (n - 127) as nat);
    lemma_pow2_pos((n - 127) as nat);
    let more = pow2((n - 127) as nat);
    let p = pow2(n);
    let low: nat = 0x8000_0000_0000_0000_0000_0000_0000_0000;
    assert(pow2(127) == low);
    assert(p >= low) by (nonlinear_arith)
        requires
            p == low * more,
            more >= 1,
    ;
    if whole < 0x10_0000_0000_0000 {
        assert(whole * den + rest < 0x10_0000_0000_0000 * den) by (nonlinear_arith)
            requires
                whole + 1 <= 0x10_0000_0000_0000,
                rest < den,
        ;
        assert(num * low <= num * p) by (nonlinear_arith)
            requires
                low <= p,
        ;
        assert(false) by (nonlinear_arith)
            requires
                num * 0x8000_0000_0000_0000_0000_0000_0000_0000 < 0x10_0000_0000_0000 * den,
                num * 10000000000000000000000 >= den,
        ;
    }
}

/// Rounds `whole` and the decimal fraction `frac` to 53 binary digits and scales them by `2^k`.
fn point_bytes(whole: u128, frac: Vec<u8>, k: u32) -> (r: u64)
    requires
        are_digits(frac@),
        whole < 1000000000000000000000,
        k <= 40,
        (whole * pow10(frac@.len()) + digits_value(frac@)) * pow10(22) >= pow10(frac@.len()),
    ensures
        r == double_bytes(
            (whole * pow10(frac@.len()) + digits_value(frac@)) as nat,
            pow10(frac@.len()),
            k as nat,
        ),
{
    let ghost den = pow10(frac@.len());
    let ghost num = (whole * den + digits_value(frac@)) as nat;
    proof {
        lemma_pow10_pos(frac@.len());
        lemma2_to64();
        assert(num > 0) by (nonlinear_arith)
            requires
                num * pow10(22) >= den,
                den > 0,
        ;
    }
    if whole < 0x20_0000_0000_0000 {
        let mut top: u128 = whole;
        let mut rest: Vec<u8> = frac;
        let mut n: u32 = 0;
        proof {
            let one = pow2(0);
            assert(num * one == num) by (nonlinear_arith)
                requires
                    one == 1,
            ;
        }
        while top < 0x10_0000_0000_0000
            invariant
                top < 0x20_0000_0000_0000,
                n <= 200,
                are_digits(rest@),
                den == pow10(rest@.len()),
                den > 0,
                num * pow10(22) >= den,
                num * pow2(n as nat) == top * den + digits_value(rest@),
            decreases 200 - n,
        {
            proof {
                lemma_value_bound(rest@);
                if n >= 200 {
                    lemma_doubling_ends(num, den, top as nat, digits_value(rest@), n as nat);
                }
            }
            let ghost v = digits_value(rest@);
            let ghost t = top as int;
            let carry: u8 = double_fraction(&mut rest);
            top = top * 2 + carry as u128;
            n += 1;
            proof {
                lemma_pow2_unfold(n as nat);
                let p = pow2((n - 1) as nat);
                let w = digits_value(rest@);
                let c = carry as int;
                assert(num * (2 * p) == (2 * t + c) * den + w) by (nonlinear_arith)
                    requires
                        num * p == t * den + v,
                        2 * v == c * den + w,
                ;
            }
        }
        let order: i8 = half_order(&rest);
        let q: u64 = if order < 0 || (order == 0 && top % 2 == 0) {
            top as u64
        } else {
            (top + 1) as u64
        };
        proof {
            let x = -(n as int);
            let v = digits_value(rest@);
            let a = (num * pow2(n as nat)) as nat;
            lemma_value_bound(rest@);
            assert(scaled_num(num, x) == a) by {
                if n == 0 {
                    let one = pow2(0);
                    assert(num * one == num) by (nonlinear_arith)
                        requires
                            one == 1,
                    ;
                }
            }
            assert(scaled_den(den, x) == den);
            let t = top as int;
            assert(den * 0x10_0000_0000_0000 <= a < den * 0x20_0000_0000_0000) by (nonlinear_arith)
                requires
                    a == t * den + v,
                    0x10_0000_0000_0000 <= t,
                    t + 1 <= 0x20_0000_0000_0000,
                    0 <= v < den,
            ;
            assert(t * den == den * t) by (nonlinear_arith);
            lemma_fundamental_div_mod_converse(a as int, den as int, t, v as int);
            lemma_double_bytes(num, den, k as nat, x);
        }
        shift_bytes(q, k as i64 - n as i64)
    } else {
        let mut top: u128 = whole;
        let mut unit: u128 = 1;
        let mut d: u32 = 0;
        proof {
            let one = pow2(0);
            assert(whole as nat / one == whole) by (nonlinear_arith)
                requires
                    one == 1,
            ;
        }
        while top >= 0x20_0000_0000_0000
            invariant
                whole < 1000000000000000000000,
                0x10_0000_0000_0000 <= top,
                top * unit <= whole,
                unit == pow2(d as nat),
                top == whole as nat / pow2(d as nat),
                d <= 17,
                d == 0 ==> top >= 0x20_0000_0000_0000,
            decreases top,
        {
            proof {
                lemma_pow2_unfold((d + 1) as nat);
                lemma_pow2_pos(d as nat);
                let p = pow2(d as nat);
                lemma_div_denominator(whole as int, p as int, 2);
                let u = unit as int;
                let t = top as int;
                assert(u <= 0x1_ffff) by (nonlinear_arith)
                    requires
                        t * u <= whole,
                        t >= 0x20_0000_0000_0000,
                        whole < 1000000000000000000000,
                ;
                if d == 17 {
                    lemma2_to64();
                }
                assert((t / 2) * (2 * u) <= t * u) by (nonlinear_arith)
                    requires
                        u >= 0,
                        2 * (t / 2) <= t,
                ;
            }
            top = top / 2;
            unit = unit * 2;
            d += 1;
        }
        proof {
            lemma_fundamental_div_mod(whole as int, unit as int);
            assert(unit * top == top * unit) by (nonlinear_arith);
            assert(d >= 1);
            lemma_pow2_unfold(d as nat);
        }
        let low: u128 = whole - top * unit;
        let half: u128 = unit / 2;
        let below: bool = low < half;
        let tied: bool = low == half && !any_nonzero(&frac, 0);
        let q: u64 = if below || (tied && top % 2 == 0) {
            top as u64
        } else {
            (top + 1) as u64
        };
        proof {
            let x = d as int;
            let v = digits_value(frac@);
            assert(frac@.skip(0) =~= frac@);
            lemma_value_bound(frac@);
            let b = scaled_den(den, x);
            let u = unit as int;
            let t = top as int;
            let l = low as int;
            let h = half as int;
            let r = l * den + v;
            assert(b == den * u);
            assert(u == 2 * h);
            assert(low < unit);
            assert(num == b * t + r) by (nonlinear_arith)
                requires
                    b == den * u,
                    num == (t * u + l) * den + v,
                    r == l * den + v,
            ;
            assert(0 <= r < b) by (nonlinear_arith)
                requires
                    b == den * u,
                    r == l * den + v,
                    0 <= l,
                    l + 1 <= u,
                    0 <= v < den,
            ;
            lemma_fundamental_div_mod_converse(num as int, b as int, t, r);
            assert(b * 0x10_0000_0000_0000 <= num < b * 0x20_0000_0000_0000) by (nonlinear_arith)
                requires
                    num == b * t + r,
                    0 <= r < b,
                    0x10_0000_0000_0000 <= t,
                    t + 1 <= 0x20_0000_0000_0000,
            ;
            assert(l < h ==> 2 * r < b) by (nonlinear_arith)
                requires
                    b == den * (2 * h),
                    r == l * den + v,
                    0 <= v < den,
            ;
            assert(l == h ==> 2 * r == b + 2 * v) by (nonlinear_arith)
                requires
                    b == den * (2 * h),
                    r == l * den + v,
            ;
            assert(l > h ==> 2 * r > b) by (nonlinear_arith)
                requires
                    b == den * (2 * h),
                    r == l * den + v,
                    0 <= v,
                    den > 0,
            ;
            lemma_double_bytes(num, den, k as nat, x);
        }
        shift_bytes(q, k as i64 + d as i64)
    }
}

/// The whole part and the decimal fraction of `0.d * 10^point`, where `d` are the digits of
/// `digits` from `lead` on.
fn place_point(digits: &Vec<u8>, lead: usize, point: i128) -> (r: (u128, Vec<u8>))
    requires
        are_digits(digits@),
        lead <= digits@.len(),
        -21 <= point <= 21,
    ensures
        are_digits(r.1@),
        r.0 < 1000000000000000000000,
        fraction(digits_value(digits@.skip(lead as int)), point - (digits@.len() - lead)) == (
            (r.0 * pow10(r.1@.len()) + digits_value(r.1@)) as nat,
            pow10(r.1@.len()),
        ),
{
    let ghost tail = digits@.skip(lead as int);
    let mut whole: u128 = 0;
    let mut j: usize = lead;
    let mut p: i128 = point;
    proof {
        lemma_pow10_22();
    }
    while p > 0 && j < digits.len()
        invariant
            are_digits(digits@),
            tail == digits@.skip(lead as int),
            lead <= j <= digits@.len(),
            p <= point <= 21,
            j - lead == point - p,
            p >= 0 || p == point,
            whole == digits_value(tail.take(j - lead)),
            pow10(21) == 1000000000000000000000,
        decreases digits@.len() - j,
    {
        proof {
            let seen = tail.take(j - lead);
            lemma_value_bound(seen);
            lemma_pow10_grows(seen.len(), 21);
            assert(tail.take(j - lead + 1).drop_last() =~= seen);
            assert(tail.take(j - lead + 1).last() == digits@[j as int]);
        }
        whole = whole * 10 + digits[j] as u128;
        j += 1;
        p -= 1;
    }
    proof {
        lemma_value_bound(tail.take(j - lead));
    }
    let ghost taken = whole as nat;
    let ghost mut pads: nat = 0;
    proof {
        assert(taken * pow10(0) == taken) by {
            assert(pow10(0) == 1);
            assert(taken * 1 == taken);
        }
        assert(p >= 1 ==> j == digits@.len());
    }
    let ghost at = p as int;
    while p > 0
        invariant
            p <= at,
            p >= 0 || p == at,
            at <= 21,
            pads == at - p,
            whole == taken * pow10(pads),
            taken < pow10((point - at) as nat),
            0 <= point - at,
            point <= 21,
            pow10(21) == 1000000000000000000000,
            pow10(22) == 10000000000000000000000,
        decreases p,
    {
        proof {
            let t = pow10(pads);
            let b = pow10((point - at) as nat);
            lemma_pow10_pos(pads);
            lemma_pow10_adds((point - at) as nat, pads);
            lemma_pow10_grows((point - at + pads) as nat, 21);
            assert(taken * t < b * t) by (nonlinear_arith)
                requires
                    taken < b,
                    t > 0,
            ;
            assert(taken * (10 * t) == 10 * (taken * t)) by (nonlinear_arith);
            pads = pads + 1;
        }
        whole = whole * 10;
        p -= 1;
    }
    proof {
        if at > 0 {
            let t = pow10(pads);
            let b = pow10((point - at) as nat);
            lemma_pow10_pos(pads);
            lemma_pow10_adds((point - at) as nat, pads);
            lemma_pow10_grows((point - at + pads) as nat, 21);
            assert(taken * t < b * t) by (nonlinear_arith)
                requires
                    taken < b,
                    t > 0,
            ;
        } else {
            lemma_pow10_grows((point - at) as nat, 21);
        }
    }
    let mut frac: Vec<u8> = Vec::new();
    let ghost start = p as int;
    while p < 0
        invariant
            start <= p,
            p <= 0 || p == start,
            frac@.len() == p - start,
            forall|i: int| 0 <= i < frac@.len() ==> frac@[i] == 0,
        decreases -p,
    {
        frac.push(0);
        p += 1;
    }
    let ghost zeros = frac@;
    let ghost from = j as int;
    while j < digits.len()
        invariant
            are_digits(digits@),
            are_digits(frac@),
            lead <= from <= j <= digits@.len(),
            frac@ =~= zeros + digits@.subrange(from, j as int),
        decreases digits@.len() - j,
    {
        frac.push(digits[j]);
        j += 1;
    }
    proof {
        let rest = digits@.skip(from);
        assert(digits@.subrange(from, digits@.len() as int) =~= rest);
        lemma_value_concat(zeros, rest);
        lemma_value_zeros(zeros);
        assert(0 * pow10(rest.len()) == 0);
        assert(digits_value(frac@) == digits_value(rest));
        let exponent = point - (digits@.len() - lead);
        let n = tail.len();
        if at > 0 {
            assert(from == digits@.len());
            assert(tail.take(from - lead) =~= tail);
            assert(exponent == at);
            assert(pads == exponent);
            assert(frac@.len() == 0);
            assert(whole * 1 == whole);
        } else if point > 0 {
            assert(at == 0);
            assert(zeros.len() == 0);
            assert(tail =~= tail.take(from - lead) + rest);
            lemma_value_concat(tail.take(from - lead), rest);
            assert(frac@.len() == rest.len());
            assert(exponent == -(rest.len() as int));
            if exponent == 0 {
                let m = digits_value(tail);
                assert(m * 1 == m);
            }
        } else {
            assert(from == lead);
            assert(rest == tail);
            assert(tail.take(0) =~= Seq::<u8>::empty());
            assert(0 * pow10(frac@.len()) == 0);
            assert(frac@.len() == n - point);
            assert(exponent == -(frac@.len() as int));
            if exponent == 0 {
                let m = digits_value(tail);
                assert(m * 1 == m);
            }
        }
    }
    (whole, frac)
}

/// The bytes that `digits * 10^exponent` units of `2^k` bytes make.
pub fn decimal_bytes(digits: &Vec<u8>, exponent: i128, k: u32) -> (r: u64)
    requires
        are_digits(digits@),
        -0x1000_0000_0000_0000_0000_0000 <= exponent <= 0x1000_0000_0000_0000_0000_0000,
        k <= 40,
    ensures
        r == double_bytes(
            fraction(digits_value(digits@), exponent as int).0,
            fraction(digits_value(digits@), exponent as int).1,
            k as nat,
        ),
{
    let mut lead: usize = 0;
    while lead < digits.len() && digits[lead] == 0
        invariant
            lead <= digits@.len(),
            forall|i: int| 0 <= i < lead ==> digits@[i] == 0,
        decreases digits@.len() - lead,
    {
        lead += 1;
    }
    let ghost head = digits@.take(lead as int);
    let ghost tail = digits@.skip(lead as int);
    let ghost m = digits_value(tail);
    let ghost n = tail.len();
    proof {
        assert(digits@ =~= head + tail);
        lemma_value_concat(head, tail);
        lemma_value_zeros(head);
        assert(0 * pow10(tail.len()) == 0);
        assert(digits_value(digits@) == m);
    }
    if lead == digits.len() {
        proof {
            lemma_value_zeros(tail);
            let e = pow10(if exponent >= 0 {
                exponent as nat
            } else {
                0
            });
            assert(0 * e == 0);
        }
        return 0;
    }
    let point: i128 = (digits.len() - lead) as i128 + exponent;
    let ghost num = fraction(m, exponent as int).0;
    let ghost den = fraction(m, exponent as int).1;
    proof {
        lemma_value_lead(tail);
        lemma_value_bound(tail);
        lemma_pow10_pos((n - 1) as nat);
        if exponent >= 0 {
            let e = pow10(exponent as nat);
            let low = pow10((n - 1) as nat);
            lemma_pow10_pos(exponent as nat);
            lemma_pow10_adds((n - 1) as nat, exponent as nat);
            assert(m * e >= low * e) by (nonlinear_arith)
                requires
                    m >= low,
            ;
            assert(num >= pow10((point - 1) as nat));
        } else {
            lemma_pow10_pos((-exponent) as nat);
        }
    }
    if point > 21 {
        proof {
            if exponent >= 0 {
                lemma_pow10_grows(21, (point - 1) as nat);
                assert(1 * pow10(21) == pow10(21));
            } else {
                lemma_pow10_adds((-exponent) as nat, 21);
                lemma_pow10_grows((-exponent + 21) as nat, (n - 1) as nat);
            }
            lemma_huge(num, den, k as nat);
        }
        0xffff_ffff_ffff_ffff
    } else if point < -21 {
        proof {
            let high = pow10(n);
            lemma_pow10_adds(n, 22);
            lemma_pow10_pos(22);
            assert(m * pow10(22) <= high * pow10(22)) by (nonlinear_arith)
                requires
                    m <= high,
            ;
            lemma_pow10_grows(n + 22, (-exponent) as nat);
            lemma_tiny(num, den, k as nat);
        }
        0
    } else {
        proof {
            lemma_pow10_22();
            assert(num * pow10(22) >= den) by {
                if exponent >= 0 {
                    lemma_pow10_pos((point - 1) as nat);
                    assert(num * 10000000000000000000000 >= 1) by (nonlinear_arith)
                        requires
                            num >= 1,
                    ;
                } else {
                    let low = pow10((n - 1) as nat);
                    lemma_pow10_adds((n - 1) as nat, 22);
                    assert(m * pow10(22) >= low * pow10(22)) by (nonlinear_arith)
                        requires
                            m >= low,
                    ;
                    lemma_pow10_grows((-exponent) as nat, (n - 1 + 22) as nat);
                }
            }
        }
        let (whole, frac) = place_point(digits, lead, point);
        point_bytes(whole, frac, k)
    }
}

/// Powers of ten beyond every number of digits make no difference.
pub proof fn lemma_far_exponents(digits: Seq<u8>, e1: int, e2: int, k: nat)
    requires
        are_digits(digits),
        digits.len() <= 0xffff_ffff_ffff_ffff,
        k <= 40,
        (e1 > 0x1_0000_0000_0000_ffff && e2 > 0x1_0000_0000_0000_ffff) || (e1
            < -0x1_0000_0000_0000_ffff && e2 < -0x1_0000_0000_0000_ffff),
    ensures
        double_bytes(
            fraction(digits_value(digits), e1).0,
            fraction(digits_value(digits), e1).1,
            k,
        ) == double_bytes(
            fraction(digits_value(digits), e2).0,
            fraction(digits_value(digits), e2).1,
            k,
        ),
{
    lemma_far_exponent(digits, e1, k);
    lemma_far_exponent(digits, e2, k);
}

proof fn lemma_far_exponent(digits: Seq<u8>, e: int, k: nat)
    requires
        are_digits(digits),
        digits.len() <= 0xffff_ffff_ffff_ffff,
        k <= 40,
        e > 0x1_0000_0000_0000_ffff || e < -0x1_0000_0000_0000_ffff,
    ensures
        double_bytes(
            fraction(digits_value(digits), e).0,
            fraction(digits_value(digits), e).1,
            k,
        ) == (if digits_value(digits) == 0 || e < 0 {
            0
        } else {
            u64::MAX as nat
        }),
{
    let m = digits_value(digits);
    if e > 0 {
        let p = pow10(e as nat);
        if m == 0 {
            assert(0 * p == 0);
        } else {
            lemma_pow10_grows(21, e as nat);
            assert(m * p >= 1 * pow10(21)) by (nonlinear_arith)
                requires
                    m >= 1,
                    p >= pow10(21),
            ;
            lemma_huge(m * p, 1, k);
        }
    } else if m > 0 {
        let n = digits.len();
        let high = pow10(n);
        lemma_value_bound(digits);
        lemma_pow10_adds(n, 22);
        assert(m * pow10(22) <= high * pow10(22)) by (nonlinear_arith)
            requires
                m <= high,
        ;
        lemma_pow10_grows(n + 22, (-e) as nat);
        lemma_tiny(m, pow10((-e) as nat), k);
    }
}

/// Whole numbers up to `2^53` lose nothing to rounding.
pub proof fn law_whole_numbers_exact(num: nat, k: nat)
    requires
        num <= 0x20_0000_0000_0000,
    ensures
        double_bytes(num, 1, k) == shifted(num, k as int),
{
    lemma2_to64();
    let up = pow2(k);
    if num == 0 {
        assert(0 * up == 0);
    } else if num == 0x20_0000_0000_0000 {
        assert(1 * pow2(1) == 2);
        assert(in_binade(num, 1, 1));
        lemma_double_bytes(num, 1, k, 1);
        lemma_pow2_unfold((k + 1) as nat);
        let half: nat = 0x10_0000_0000_0000;
        assert(half * (2 * up) == num * up) by (nonlinear_arith)
            requires
                num == 2 * half,
        ;
    } else {
        let x = lemma_binade_exists(num, 1);
        if x > 0 {
            lemma_larger_unit(num, 1, 0, x);
        }
        let n = (-x) as nat;
        let p = pow2(n);
        let a = scaled_num(num, x);
        assert(num * 1 == num);
        assert(a == num * p);
        lemma_fundamental_div_mod_converse(a as int, 1, a as int, 0);
        lemma_double_bytes(num, 1, k, x);
        lemma_pow2_pos(n);
        if x + k >= 0 {
            let rest = pow2((x + k) as nat);
            lemma_pow2_adds(n, (x + k) as nat);
            assert((num * p) * rest == num * (p * rest)) by (nonlinear_arith);
        } else {
            let rest = pow2((-(x + k)) as nat);
            lemma_pow2_pos((-(x + k)) as nat);
            lemma_pow2_adds((-(x + k)) as nat, k);
            assert(num * p == (num * up) * rest) by (nonlinear_arith)
                requires
                    p == rest * up,
            ;
            lemma_fundamental_div_mod_converse(a as int, rest as int, (num * up) as int, 0);
        }
    }
}

/// A number with more than 53 binary digits counts as the nearest one that has 53, and a smaller
/// one is brought to 53 digits first: the number as a fraction, in units of a power of two in
/// which it has 53 digits before the point, is rounded and scaled back.
pub proof fn law_numbers_are_rounded(num: nat, den: nat, n: nat, k: nat)
    requires
        num > 0,
    ensures
        (den * pow2(n)) * 0x10_0000_0000_0000 <= num < (den * pow2(n)) * 0x20_0000_0000_0000
            ==> double_bytes(num, den, k) == shifted(
            round_half_even(num, den * pow2(n)),
            n as int + k,
        ),
        den * 0x10_0000_0000_0000 <= num * pow2(n) < den * 0x20_0000_0000_0000 ==> double_bytes(
            num,
            den,
            k,
        ) == shifted(round_half_even(num * pow2(n), den), k - n),
{
    lemma2_to64();
    let up = n as int;
    let down = -up;
    if n == 0 {
        assert(den * 1 == den);
        assert(num * 1 == num);
    }
    if (den * pow2(n)) * 0x10_0000_0000_0000 <= num < (den * pow2(n)) * 0x20_0000_0000_0000 {
        assert(scaled_num(num, up) == num && scaled_den(den, up) == den * pow2(n));
        assert(in_binade(num, den, up));
        lemma_double_bytes(num, den, k, up);
    }
    if den * 0x10_0000_0000_0000 <= num * pow2(n) < den * 0x20_0000_0000_0000 {
        assert(scaled_num(num, down) == num * pow2(n) && scaled_den(den, down) == den);
        assert(in_binade(num, den, down));
        lemma_double_bytes(num, den, k, down);
    }
}

/// A fraction is rounded to the nearest integer, and halfway between two to the even one.
pub proof fn law_rounds_to_nearest(a: nat, b: nat)
    requires
        b > 0,
    ensures
        ({
            let q = round_half_even(a, b);
            &&& 2 * (q * b) <= 2 * a + b
            &&& 2 * a <= 2 * (q * b) + b
            &&& 2 * (q * b) == 2 * a + b || 2 * a == 2 * (q * b) + b ==> q % 2 == 0
        }),
{
    lemma_fundamental_div_mod(a as int, b as int);
    let q = a / b;
    let r = a % b;
    assert(b * q == q * b) by (nonlinear_arith);
    assert((q + 1) * b == q * b + b) by (nonlinear_arith);
    assert(r < b);
}

/// Scaling by a power of two drops what is left of a byte, and stops at the largest `u64`.
pub proof fn law_scaled_to_bytes(q: nat, n: nat)
    ensures
        q * pow2(n) <= u64::MAX ==> shifted(q, n as int) == q * pow2(n),
        q * pow2(n) > u64::MAX ==> shifted(q, n as int) == u64::MAX,
        n > 0 && shifted(q, -(n as int)) < u64::MAX ==> shifted(q, -(n as int)) * pow2(n) <= q < (
        shifted(q, -(n as int)) + 1) * pow2(n),
        n > 0 && shifted(q, -(n as int)) == u64::MAX ==> u64::MAX * pow2(n) <= q,
        shifted(q, -(n as int)) <= u64::MAX,
{
    lemma_pow2_pos(n);
    let p = pow2(n);
    lemma_fundamental_div_mod(q as int, p as int);
    let v = q / p;
    assert(p * v == v * p) by (nonlinear_arith);
    assert((v + 1) * p == v * p + p) by (nonlinear_arith);
    assert(v >= u64::MAX ==> v * p >= u64::MAX * p) by (nonlinear_arith)
        requires
            p > 0,
    ;
}

/// A power of ten moves the point of a decimal number.
pub proof fn law_powers_of_ten(mantissa: nat, n: nat)
    ensures
        pow10(n) == vstd::arithmetic::power::pow(10, n),
        fraction(mantissa, n as int) == (mantissa * pow10(n), 1nat),
        n > 0 ==> fraction(mantissa, -(n as int)) == (mantissa, pow10(n)),
    decreases n,
{
    reveal(vstd::arithmetic::power::pow);
    if n > 0 {
        law_powers_of_ten(mantissa, (n - 1) as nat);
    }
}

} // verus!
