//! Decimal and hexadecimal digit text: how numbers are written in the
//! archive's text form, and how digit runs are read back.

use vstd::prelude::*;

verus! {

/// `base` raised to `w`.
pub open spec fn spec_pow(base: int, w: nat) -> int
    decreases w,
{
    if w == 0 {
        1
    } else {
        base * spec_pow(base, (w - 1) as nat)
    }
}

/// The digit character for a value below sixteen (lower case above nine).
pub open spec fn spec_digit_char(v: int) -> char {
    if v == 0 {
        '0'
    } else if v == 1 {
        '1'
    } else if v == 2 {
        '2'
    } else if v == 3 {
        '3'
    } else if v == 4 {
        '4'
    } else if v == 5 {
        '5'
    } else if v == 6 {
        '6'
    } else if v == 7 {
        '7'
    } else if v == 8 {
        '8'
    } else if v == 9 {
        '9'
    } else if v == 10 {
        'a'
    } else if v == 11 {
        'b'
    } else if v == 12 {
        'c'
    } else if v == 13 {
        'd'
    } else if v == 14 {
        'e'
    } else {
        'f'
    }
}

/// The value a digit character stands for, or -1 for any other character.
/// Letters count in either case, as hexadecimal digits.
pub open spec fn spec_digit_val(c: char) -> int {
    if '0' <= c && c <= '9' {
        c as int - '0' as int
    } else if 'a' <= c && c <= 'f' {
        c as int - 'a' as int + 10
    } else if 'A' <= c && c <= 'F' {
        c as int - 'A' as int + 10
    } else {
        -1
    }
}

pub open spec fn spec_is_dec_digit(c: char) -> bool {
    '0' <= c && c <= '9'
}

pub open spec fn spec_is_digit(c: char, base: int) -> bool {
    0 <= spec_digit_val(c) < base
}

/// `n` written in `base` as exactly `w` digits, leading zeroes kept.
pub open spec fn spec_pad(n: int, w: nat, base: int) -> Seq<char>
    decreases w,
{
    if w == 0 {
        Seq::empty()
    } else {
        spec_pad(n / base, (w - 1) as nat, base).push(spec_digit_char(n % base))
    }
}

/// The number a digit string stands for, most significant digit first.
pub open spec fn spec_num_of(s: Seq<char>, base: int) -> int
    decreases s.len(),
{
    if s.len() == 0 {
        0
    } else {
        spec_digit_val(s[0]) * spec_pow(base, (s.len() - 1) as nat) + spec_num_of(
            s.drop_first(),
            base,
        )
    }
}

/// How many digits `n` takes in `base` without leading zeroes.
pub open spec fn spec_ndigits(n: int, base: int) -> nat
    decreases n,
    via spec_ndigits_decreases
{
    if n < base || base <= 1 {
        1
    } else {
        1 + spec_ndigits(n / base, base)
    }
}

#[via_fn]
proof fn spec_ndigits_decreases(n: int, base: int) {
    if !(n < base || base <= 1) {
        assert(0 <= n / base < n) by (nonlinear_arith)
            requires
                base >= 2,
                n >= base,
        ;
    }
}

pub proof fn lemma_ndigits_pos(n: int, base: int)
    ensures
        spec_ndigits(n, base) >= 1,
{
}

/// `n` written in decimal without leading zeroes.
pub open spec fn spec_dec_digits(n: int) -> Seq<char> {
    spec_pad(n, spec_ndigits(n, 10), 10)
}

pub proof fn lemma_pow_pos(base: int, w: nat)
    requires
        base >= 1,
    ensures
        spec_pow(base, w) >= 1,
    decreases w,
{
    if w > 0 {
        lemma_pow_pos(base, (w - 1) as nat);
        assert(spec_pow(base, w) == base * spec_pow(base, (w - 1) as nat));
        assert(base * spec_pow(base, (w - 1) as nat) >= 1) by (nonlinear_arith)
            requires
                base >= 1,
                spec_pow(base, (w - 1) as nat) >= 1,
        ;
    }
}

/// A digit character reads back as the value it was written from.
pub proof fn lemma_digit_char_val(v: int)
    requires
        0 <= v < 16,
    ensures
        spec_digit_val(spec_digit_char(v)) == v,
        v < 10 ==> spec_is_dec_digit(spec_digit_char(v)),
        spec_is_digit(spec_digit_char(v), 16),
        v < 10 ==> spec_is_digit(spec_digit_char(v), 10),
{
}

/// The fixed-width text of `n` is `w` digit characters.
pub proof fn lemma_pad_shape(n: int, w: nat, base: int)
    requires
        base == 10 || base == 16,
        n >= 0,
    ensures
        spec_pad(n, w, base).len() == w,
        forall|k: int|
            0 <= k < w ==> spec_is_digit(#[trigger] spec_pad(n, w, base)[k], base),
        base == 10 ==> forall|k: int|
            0 <= k < w ==> spec_is_dec_digit(#[trigger] spec_pad(n, w, base)[k]),
    decreases w,
{
    if w > 0 {
        lemma_pad_shape(n / base, (w - 1) as nat, base);
        lemma_digit_char_val(n % base);
    }
}

/// Appending a digit multiplies the value by the base and adds the digit.
pub proof fn lemma_num_of_push(s: Seq<char>, c: char, base: int)
    ensures
        spec_num_of(s.push(c), base) == spec_num_of(s, base) * base + spec_digit_val(c),
    decreases s.len(),
{
    if s.len() == 0 {
        assert(s.push(c).drop_first() =~= Seq::<char>::empty());
        assert(s.push(c)[0] == c);
        assert(s.push(c).len() == 1);
        assert(spec_num_of(Seq::<char>::empty(), base) == 0);
        assert(spec_pow(base, 0) == 1);
        assert(spec_num_of(s.push(c), base) == spec_digit_val(c) * spec_pow(base, 0));
    } else {
        let t = s.drop_first();
        lemma_num_of_push(t, c, base);
        assert(s.push(c).drop_first() =~= t.push(c));
        let w = (s.len() - 1) as nat;
        assert(spec_num_of(s.push(c), base) == spec_digit_val(s[0]) * spec_pow(base, w + 1)
            + spec_num_of(t, base) * base + spec_digit_val(c));
        assert(spec_digit_val(s[0]) * spec_pow(base, w + 1) == (spec_digit_val(s[0]) * spec_pow(
            base,
            w,
        )) * base) by (nonlinear_arith)
            requires
                spec_pow(base, w + 1) == base * spec_pow(base, w),
        ;
        assert((spec_digit_val(s[0]) * spec_pow(base, w) + spec_num_of(t, base)) * base
            == spec_digit_val(s[0]) * spec_pow(base, w) * base + spec_num_of(t, base) * base)
            by (nonlinear_arith);
    }
}

/// Fixed-width text reads back as the number it was written from.
pub proof fn lemma_num_of_pad(n: int, w: nat, base: int)
    requires
        base == 10 || base == 16,
        0 <= n < spec_pow(base, w),
    ensures
        spec_num_of(spec_pad(n, w, base), base) == n,
    decreases w,
{
    if w == 0 {
        assert(spec_pow(base, 0) == 1);
    } else {
        let q = n / base;
        lemma_pow_pos(base, (w - 1) as nat);
        assert(0 <= q < spec_pow(base, (w - 1) as nat)) by (nonlinear_arith)
            requires
                base >= 2,
                n >= 0,
                q == n / base,
                n < base * spec_pow(base, (w - 1) as nat),
                spec_pow(base, (w - 1) as nat) >= 1,
        ;
        lemma_num_of_pad(q, (w - 1) as nat, base);
        lemma_num_of_push(spec_pad(q, (w - 1) as nat, base), spec_digit_char(n % base), base);
        lemma_digit_char_val(n % base);
        assert(q * base + n % base == n) by (nonlinear_arith)
            requires
                base >= 2,
                n >= 0,
                q == n / base,
        ;
    }
}

/// A number is smaller than the power of the base at its digit count.
pub proof fn lemma_ndigits_bound(n: int, base: int)
    requires
        base == 10 || base == 16,
        n >= 0,
    ensures
        n < spec_pow(base, spec_ndigits(n, base)),
    decreases n,
{
    if n < base {
        assert(spec_pow(base, 1) == base * spec_pow(base, 0));
    } else {
        let q = n / base;
        assert(0 <= q < n) by (nonlinear_arith)
            requires
                base >= 2,
                n >= base,
                q == n / base,
        ;
        lemma_ndigits_bound(q, base);
        let w = spec_ndigits(q, base);
        assert(spec_ndigits(n, base) == w + 1);
        assert(n < base * spec_pow(base, w)) by (nonlinear_arith)
            requires
                base >= 2,
                n >= 0,
                q == n / base,
                q < spec_pow(base, w),
        ;
    }
}

/// Without leading zeroes the first digit of a multi-digit number is not zero.
pub proof fn lemma_dec_digits_first(n: int)
    requires
        n >= 0,
    ensures
        spec_dec_digits(n).len() == spec_ndigits(n, 10),
        spec_ndigits(n, 10) > 1 ==> spec_digit_val(spec_dec_digits(n)[0]) != 0,
    decreases n,
{
    let w = spec_ndigits(n, 10);
    lemma_pad_shape(n, w, 10);
    if n >= 10 {
        let q = n / 10;
        assert(1 <= q < n) by (nonlinear_arith)
            requires
                n >= 10,
                q == n / 10,
        ;
        lemma_dec_digits_first(q);
        let wq = spec_ndigits(q, 10);
        assert(w == wq + 1);
        lemma_pad_shape(q, wq, 10);
        assert(spec_pad(n, w, 10) == spec_pad(q, wq, 10).push(spec_digit_char(n % 10)));
        assert(spec_pad(n, w, 10)[0] == spec_pad(q, wq, 10)[0]);
        if wq == 1 {
            assert(q < 10) by {
                if q >= 10 {
                    assert(spec_ndigits(q, 10) == 1 + spec_ndigits(q / 10, 10));
                    lemma_ndigits_pos(q / 10, 10);
                }
            }
            assert(spec_pad(q, 1, 10) == spec_pad(q / 10, 0, 10).push(spec_digit_char(q % 10)));
            assert(q % 10 == q);
            lemma_digit_char_val(q);
        }
    }
}

/// A digit string with a non-zero first digit is at least the power of the
/// base at one less than its length.
pub proof fn lemma_num_of_lower(s: Seq<char>, base: int)
    requires
        base == 10 || base == 16,
        s.len() > 0,
        forall|k: int| 0 <= k < s.len() ==> spec_is_digit(#[trigger] s[k], base),
        spec_digit_val(s[0]) >= 1,
    ensures
        spec_num_of(s, base) >= spec_pow(base, (s.len() - 1) as nat),
    decreases s.len(),
{
    let w = (s.len() - 1) as nat;
    let t = s.drop_first();
    assert(forall|k: int| 0 <= k < t.len() ==> spec_is_digit(#[trigger] t[k], base));
    lemma_num_of_nonneg(t, base);
    lemma_pow_pos(base, w);
    assert(spec_digit_val(s[0]) * spec_pow(base, w) >= spec_pow(base, w)) by (nonlinear_arith)
        requires
            spec_digit_val(s[0]) >= 1,
            spec_pow(base, w) >= 1,
    ;
}

/// Digit strings stand for numbers that are not negative.
pub proof fn lemma_num_of_nonneg(s: Seq<char>, base: int)
    requires
        base == 10 || base == 16,
        forall|k: int| 0 <= k < s.len() ==> spec_is_digit(#[trigger] s[k], base),
    ensures
        spec_num_of(s, base) >= 0,
    decreases s.len(),
{
    if s.len() > 0 {
        let t = s.drop_first();
        assert(forall|k: int| 0 <= k < t.len() ==> spec_is_digit(#[trigger] t[k], base));
        lemma_num_of_nonneg(t, base);
        lemma_pow_pos(base, (s.len() - 1) as nat);
        assert(spec_digit_val(s[0]) * spec_pow(base, (s.len() - 1) as nat) >= 0)
            by (nonlinear_arith)
            requires
                spec_digit_val(s[0]) >= 0,
                spec_pow(base, (s.len() - 1) as nat) >= 1,
        ;
    }
}

/// The concrete powers of ten the timestamp text needs.
pub proof fn lemma_pow10_values()
    ensures
        spec_pow(10, 0) == 1,
        spec_pow(10, 1) == 10,
        spec_pow(10, 2) == 100,
        spec_pow(10, 3) == 1000,
        spec_pow(10, 4) == 10000,
        spec_pow(10, 5) == 100000,
        spec_pow(10, 6) == 1000000,
        spec_pow(10, 7) == 10000000,
        spec_pow(10, 8) == 100000000,
        spec_pow(10, 9) == 1000000000,
        spec_pow(10, 10) == 10000000000,
{
    assert(spec_pow(10, 0) == 1);
    assert(spec_pow(10, 1) == 10);
    assert(spec_pow(10, 2) == 100);
    assert(spec_pow(10, 3) == 1000);
    assert(spec_pow(10, 4) == 10000);
    assert(spec_pow(10, 5) == 100000);
    assert(spec_pow(10, 6) == 1000000);
    assert(spec_pow(10, 7) == 10000000);
    assert(spec_pow(10, 8) == 100000000);
    assert(spec_pow(10, 9) == 1000000000);
    assert(spec_pow(10, 10) == 10000000000);
}

/// The concrete powers of sixteen a four-digit escape needs.
pub proof fn lemma_pow16_values()
    ensures
        spec_pow(16, 0) == 1,
        spec_pow(16, 1) == 16,
        spec_pow(16, 2) == 256,
        spec_pow(16, 3) == 4096,
        spec_pow(16, 4) == 65536,
{
    assert(spec_pow(16, 0) == 1);
    assert(spec_pow(16, 1) == 16);
    assert(spec_pow(16, 2) == 256);
    assert(spec_pow(16, 3) == 4096);
    assert(spec_pow(16, 4) == 65536);
}

/// Powers grow with the exponent.
pub proof fn lemma_pow_mono(base: int, a: nat, b: nat)
    requires
        base >= 1,
        a <= b,
    ensures
        spec_pow(base, a) <= spec_pow(base, b),
    decreases b,
{
    if a < b {
        lemma_pow_mono(base, a, (b - 1) as nat);
        lemma_pow_pos(base, (b - 1) as nat);
        assert(spec_pow(base, (b - 1) as nat) <= base * spec_pow(base, (b - 1) as nat))
            by (nonlinear_arith)
            requires
                base >= 1,
                spec_pow(base, (b - 1) as nat) >= 1,
        ;
    }
}

/// A power splits over a sum of exponents.
pub proof fn lemma_pow_split(base: int, a: nat, b: nat)
    ensures
        spec_pow(base, a + b) == spec_pow(base, a) * spec_pow(base, b),
    decreases a,
{
    if a == 0 {
        assert(spec_pow(base, b) == 1 * spec_pow(base, b)) by (nonlinear_arith);
    } else {
        lemma_pow_split(base, (a - 1) as nat, b);
        assert((a + b) as nat == ((a - 1) as nat + b) + 1);
        assert(spec_pow(base, a + b) == base * spec_pow(base, ((a - 1) as nat + b) as nat));
        assert(base * (spec_pow(base, (a - 1) as nat) * spec_pow(base, b)) == (base * spec_pow(
            base,
            (a - 1) as nat,
        )) * spec_pow(base, b)) by (nonlinear_arith);
    }
}

/// The digit character for `v`, executable form.
pub fn digit_char(v: u32) -> (c: char)
    requires
        v < 16,
    ensures
        c == spec_digit_char(v as int),
{
    if v == 0 {
        '0'
    } else if v == 1 {
        '1'
    } else if v == 2 {
        '2'
    } else if v == 3 {
        '3'
    } else if v == 4 {
        '4'
    } else if v == 5 {
        '5'
    } else if v == 6 {
        '6'
    } else if v == 7 {
        '7'
    } else if v == 8 {
        '8'
    } else if v == 9 {
        '9'
    } else if v == 10 {
        'a'
    } else if v == 11 {
        'b'
    } else if v == 12 {
        'c'
    } else if v == 13 {
        'd'
    } else if v == 14 {
        'e'
    } else {
        'f'
    }
}

/// Relies on `String::push`: appends exactly one character.
#[verifier::external_body]
pub(crate) fn push_char(out: &mut String, c: char)
    ensures
        final(out)@ == old(out)@.push(c),
{
    out.push(c);
}

/// Writes `n` in `base` as exactly `w` digits, leading zeroes kept.
pub fn emit_pad(out: &mut String, n: u32, w: u32, base: u32)
    requires
        base == 10 || base == 16,
    ensures
        final(out)@ == old(out)@ + spec_pad(n as int, w as nat, base as int),
    decreases w,
{
    if w == 0 {
        proof {
            assert(out@ =~= out@ + spec_pad(n as int, 0, base as int));
        }
    } else {
        emit_pad(out, n / base, w - 1, base);
        push_char(out, digit_char(n % base));
        proof {
            assert(out@ =~= old(out)@ + spec_pad(n as int, w as nat, base as int));
        }
    }
}

/// Writes `n` in decimal without leading zeroes.
pub fn emit_u32(out: &mut String, n: u32)
    ensures
        final(out)@ == old(out)@ + spec_dec_digits(n as int),
    decreases n,
{
    if n < 10 {
        push_char(out, digit_char(n));
        proof {
            assert(spec_ndigits(n as int, 10) == 1);
            assert(spec_pad(n as int / 10, 0, 10) == Seq::<char>::empty());
            assert(spec_pad(n as int, 1, 10) == spec_pad(n as int / 10, 0, 10).push(
                spec_digit_char(n as int % 10),
            ));
            assert(out@ =~= old(out)@ + spec_dec_digits(n as int));
        }
    } else {
        emit_u32(out, n / 10);
        push_char(out, digit_char(n % 10));
        proof {
            assert(spec_ndigits(n as int, 10) == 1 + spec_ndigits(n as int / 10, 10));
            assert((spec_ndigits(n as int, 10) - 1) as nat == spec_ndigits(n as int / 10, 10));
            assert(spec_pad(n as int, spec_ndigits(n as int, 10), 10) == spec_pad(
                n as int / 10,
                (spec_ndigits(n as int, 10) - 1) as nat,
                10,
            ).push(spec_digit_char(n as int % 10)));
            assert(out@ =~= (old(out)@ + spec_dec_digits(n as int / 10)).push(
                spec_digit_char(n as int % 10),
            ));
            assert(out@ =~= old(out)@ + spec_dec_digits(n as int));
        }
    }
}

} // verus!
