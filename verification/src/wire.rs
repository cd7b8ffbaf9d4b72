//! Primitives of the stored text form: literal matching, numbers, quoted
//! strings with escapes, and timestamps, each with a writer, a reader, and
//! the proof that the reader inverts the writer.

use vstd::prelude::*;
use crate::date::YarkDate;
use crate::numtext::spec_pow;
use crate::numtext::spec_pad;
use crate::numtext::spec_num_of;
use crate::numtext::spec_dec_digits;
use crate::numtext::spec_ndigits;
use crate::numtext::spec_digit_val;
use crate::numtext::spec_digit_char;
use crate::numtext::spec_is_dec_digit;
use crate::numtext::spec_is_digit;
use crate::numtext::lemma_pad_shape;
use crate::numtext::lemma_pow_pos;
use crate::numtext::lemma_num_of_pad;
use crate::numtext::lemma_ndigits_bound;
use crate::numtext::lemma_dec_digits_first;
use crate::numtext::lemma_digit_char_val;
use crate::numtext::lemma_pow10_values;
use crate::numtext::lemma_pow16_values;
use crate::numtext::lemma_pow_mono;
use crate::numtext::lemma_pow_split;
use crate::numtext::lemma_num_of_push;
use crate::numtext::push_char;
use crate::numtext::emit_pad;
use vstd::string::StringExecFns;

verus! {

/// `pat` occurs in `s` at position `i`.
pub open spec fn matches_at(s: Seq<char>, i: int, pat: Seq<char>) -> bool {
    &&& 0 <= i
    &&& i + pat.len() <= s.len()
    &&& s.subrange(i, i + pat.len()) == pat
}

/// A match of a concatenation is a match of each part in turn.
pub proof fn lemma_matches_at_split(s: Seq<char>, i: int, a: Seq<char>, b: Seq<char>)
    requires
        matches_at(s, i, a + b),
    ensures
        matches_at(s, i, a),
        matches_at(s, i + a.len(), b),
{
    let whole = s.subrange(i, i + a.len() + b.len());
    assert forall|k: int| 0 <= k < a.len() implies s.subrange(i, i + a.len() as int)[k] == a[k] by {
        assert(whole[k] == (a + b)[k]);
    }
    assert(s.subrange(i, i + a.len() as int) =~= a);
    assert forall|k: int|
        0 <= k < b.len() implies s.subrange(
            i + a.len(),
            i + a.len() + b.len() as int,
        )[k] == b[k] by {
        assert(whole[a.len() + k] == (a + b)[a.len() + k]);
    }
    assert(s.subrange(i + a.len(), i + a.len() + b.len() as int) =~= b);
}

/// The characters `pat` matched are the characters of `pat`.
pub proof fn lemma_matches_at_index(s: Seq<char>, i: int, pat: Seq<char>, k: int)
    requires
        matches_at(s, i, pat),
        0 <= k < pat.len(),
    ensures
        s[i + k] == pat[k],
{
    assert(s.subrange(i, i + pat.len() as int)[k] == pat[k]);
}

/// Every character's code point lies in the Unicode scalar range, and the
/// casts to `int` and to `u32` agree on it.
pub proof fn lemma_char_range(c: char)
    ensures
        0 <= c as int <= 0x10FFFF,
        c as int == (c as u32) as int,
{
}

/// How many decimal digits run from position `i`.
pub open spec fn digit_run(s: Seq<char>, i: int) -> int
    decreases s.len() - i,
{
    if i < 0 || i >= s.len() {
        0
    } else if spec_is_dec_digit(s[i]) {
        1 + digit_run(s, i + 1)
    } else {
        0
    }
}

/// Where `w` digit characters sit at `i` followed by a non-digit or the
/// end, the run from `i` is exactly `w`.
pub proof fn lemma_digit_run_exact(s: Seq<char>, i: int, w: int)
    requires
        0 <= i,
        i + w <= s.len(),
        w >= 0,
        forall|k: int| 0 <= k < w ==> spec_is_dec_digit(#[trigger] s[i + k]),
        i + w == s.len() || !spec_is_dec_digit(s[i + w]),
    ensures
        digit_run(s, i) == w,
    decreases w,
{
    if w == 0 {
    } else {
        assert(spec_is_dec_digit(s[i + 0]));
        assert forall|k: int| 0 <= k < w - 1 implies spec_is_dec_digit(#[trigger] s[i + 1 + k]) by {
            assert(s[i + 1 + k] == s[i + (k + 1)]);
        }
        lemma_digit_run_exact(s, i + 1, w - 1);
    }
}

/// The run never reaches past the end.
pub proof fn lemma_digit_run_bounds(s: Seq<char>, i: int)
    requires
        0 <= i <= s.len(),
    ensures
        0 <= digit_run(s, i),
        i + digit_run(s, i) <= s.len(),
        forall|k: int| 0 <= k < digit_run(s, i) ==> spec_is_dec_digit(#[trigger] s[i + k]),
    decreases s.len() - i,
{
    if i < s.len() && spec_is_dec_digit(s[i]) {
        lemma_digit_run_bounds(s, i + 1);
        assert forall|k: int|
            0 <= k < digit_run(s, i) implies spec_is_dec_digit(#[trigger] s[i + k]) by {
            if k > 0 {
                assert(s[i + k] == s[(i + 1) + (k - 1)]);
            }
        }
    }
}

/// All-digit strings stand for numbers below the power at their length.
pub proof fn lemma_num_of_upper(s: Seq<char>, base: int)
    requires
        base == 10 || base == 16,
        forall|k: int| 0 <= k < s.len() ==> spec_is_digit(#[trigger] s[k], base),
    ensures
        spec_num_of(s, base) < spec_pow(base, s.len() as nat),
    decreases s.len(),
{
    if s.len() == 0 {
    } else {
        let t = s.drop_first();
        assert(forall|k: int| 0 <= k < t.len() ==> spec_is_digit(#[trigger] t[k], base));
        lemma_num_of_upper(t, base);
        let w = (s.len() - 1) as nat;
        lemma_pow_pos(base, w);
        assert(spec_digit_val(s[0]) * spec_pow(base, w) + spec_num_of(t, base) < base * spec_pow(
            base,
            w,
        )) by (nonlinear_arith)
            requires
                spec_digit_val(s[0]) <= base - 1,
                spec_num_of(t, base) < spec_pow(base, w),
                spec_pow(base, w) >= 1,
                base >= 2,
        ;
    }
}

/// Reading a decimal number: the longest digit run, refused when empty,
/// padded with a leading zero, or too large for 32 bits.
pub open spec fn spec_parse_u32(s: Seq<char>, i: int) -> Option<(u32, int)> {
    let l = digit_run(s, i);
    if i < 0 || l == 0 {
        None
    } else if spec_digit_val(s[i]) == 0 && l > 1 {
        None
    } else if spec_num_of(s.subrange(i, i + l), 10) > u32::MAX {
        None
    } else {
        Some((spec_num_of(s.subrange(i, i + l), 10) as u32, i + l))
    }
}

/// Reading the decimal text of `n` back, with no digit following, yields
/// `n` again.
pub proof fn lemma_parse_ser_u32(s: Seq<char>, i: int, n: u32)
    requires
        matches_at(s, i, spec_dec_digits(n as int)),
        i + spec_dec_digits(n as int).len() == s.len() || !spec_is_dec_digit(
            s[i + spec_dec_digits(n as int).len()],
        ),
    ensures
        spec_parse_u32(s, i) == Some((n, i + spec_dec_digits(n as int).len())),
{
    let w = spec_ndigits(n as int, 10);
    lemma_pad_shape(n as int, w, 10);
    let pat = spec_dec_digits(n as int);
    assert(pat.len() == w);
    assert forall|k: int| 0 <= k < w implies spec_is_dec_digit(#[trigger] s[i + k]) by {
        lemma_matches_at_index(s, i, pat, k);
    }
    lemma_digit_run_exact(s, i, w as int);
    assert(s.subrange(i, i + w as int) =~= pat);
    lemma_ndigits_bound(n as int, 10);
    lemma_num_of_pad(n as int, w, 10);
    assert(spec_num_of(s.subrange(i, i + w as int), 10) == n);
    lemma_dec_digits_first(n as int);
    if w > 1 {
        lemma_matches_at_index(s, i, pat, 0);
        assert(spec_digit_val(s[i]) != 0);
    }
}

/// Reading exactly `w` digits in `base`, most significant first.
pub open spec fn spec_parse_fixed(s: Seq<char>, i: int, w: nat, base: int) -> Option<(int, int)>
    decreases w,
{
    if w == 0 {
        Some((0, i))
    } else if 0 <= i && i < s.len() && spec_is_digit(s[i], base) {
        match spec_parse_fixed(s, i + 1, (w - 1) as nat, base) {
            Some((v, j)) => Some(
                (spec_digit_val(s[i]) * spec_pow(base, (w - 1) as nat) + v, j),
            ),
            None => None,
        }
    } else {
        None
    }
}

/// On success exactly `w` characters were consumed and the value is in
/// range.
pub proof fn lemma_parse_fixed_shape(s: Seq<char>, i: int, w: nat, base: int)
    requires
        base == 10 || base == 16,
    ensures
        spec_parse_fixed(s, i, w, base) matches Some((v, j)) ==> j == i + w && 0 <= v < spec_pow(
            base,
            w,
        ),
    decreases w,
{
    if w > 0 && 0 <= i && i < s.len() && spec_is_digit(s[i], base) {
        lemma_parse_fixed_shape(s, i + 1, (w - 1) as nat, base);
        if let Some((v, j)) = spec_parse_fixed(s, i + 1, (w - 1) as nat, base) {
            lemma_pow_pos(base, (w - 1) as nat);
            assert(spec_digit_val(s[i]) * spec_pow(base, (w - 1) as nat) + v < base * spec_pow(
                base,
                (w - 1) as nat,
            )) by (nonlinear_arith)
                requires
                    spec_digit_val(s[i]) <= base - 1,
                    0 <= v < spec_pow(base, (w - 1) as nat),
                    spec_pow(base, (w - 1) as nat) >= 1,
                    base >= 2,
            ;
            assert(spec_digit_val(s[i]) * spec_pow(base, (w - 1) as nat) >= 0) by (nonlinear_arith)
                requires
                    spec_digit_val(s[i]) >= 0,
                    spec_pow(base, (w - 1) as nat) >= 1,
            ;
        }
    }
}

/// Reading the `w`-digit text of `n` back yields `n` again.
pub proof fn lemma_parse_ser_fixed(s: Seq<char>, i: int, n: int, w: nat, base: int)
    requires
        base == 10 || base == 16,
        0 <= n < spec_pow(base, w),
        matches_at(s, i, spec_pad(n, w, base)),
    ensures
        spec_parse_fixed(s, i, w, base) == Some((n, i + w)),
    decreases w,
{
    lemma_pad_shape(n, w, base);
    if w == 0 {
    } else {
        let q = n / base;
        lemma_pow_pos(base, (w - 1) as nat);
        assert(0 <= q < spec_pow(base, (w - 1) as nat)) by (nonlinear_arith)
            requires
                base >= 2,
                n >= 0,
                q == n / base,
                n < base * spec_pow(base, (w - 1) as nat),
                spec_pow(base, (w - 1) as nat) >= 1,
        ;
        let qpat = spec_pad(q, (w - 1) as nat, base);
        lemma_pad_shape(q, (w - 1) as nat, base);
        assert(spec_pad(n, w, base) == qpat.push(spec_digit_char(n % base)));
        assert(qpat.push(spec_digit_char(n % base)) =~= qpat + seq![spec_digit_char(n % base)]);
        lemma_matches_at_split(s, i, qpat, seq![spec_digit_char(n % base)]);
        lemma_parse_ser_fixed(s, i, q, (w - 1) as nat, base);
        // the leading w-1 digits give q; the last digit closes the value
        lemma_matches_at_index(s, i + qpat.len(), seq![spec_digit_char(n % base)], 0);
        lemma_digit_char_val(n % base);
        // align with the front-first reading
        lemma_parse_fixed_snoc(s, i, q, (w - 1) as nat, base, n % base);
        assert(q * base + n % base == n) by (nonlinear_arith)
            requires
                base >= 2,
                n >= 0,
                q == n / base,
        ;
    }
}

/// Extending a fixed-width read by one digit multiplies by the base.
pub proof fn lemma_parse_fixed_snoc(s: Seq<char>, i: int, v: int, w: nat, base: int, d: int)
    requires
        0 <= i,
        base == 10 || base == 16,
        spec_parse_fixed(s, i, w, base) == Some((v, i + w)),
        i + w < s.len(),
        0 <= d < base,
        spec_digit_val(s[i + w]) == d,
    ensures
        spec_parse_fixed(s, i, w + 1, base) == Some((v * base + d, i + w + 1)),
    decreases w,
{
    if w == 0 {
        assert(v == 0);
        assert(spec_is_digit(s[i], base));
        assert(spec_parse_fixed(s, i + 1, 0, base) == Some((0int, i + 1)));
        assert(spec_pow(base, 0) == 1);
        assert(spec_parse_fixed(s, i, 1, base) == Some(
            (spec_digit_val(s[i]) * spec_pow(base, 0) + 0, i + 1),
        ));
        assert(spec_digit_val(s[i]) * 1 + 0 == d);
    } else {
        assert(0 <= i && i < s.len() && spec_is_digit(s[i], base));
        let rest = spec_parse_fixed(s, i + 1, (w - 1) as nat, base);
        assert(rest is Some);
        let (v1, j1) = rest.unwrap();
        lemma_parse_fixed_shape(s, i + 1, (w - 1) as nat, base);
        assert(j1 == i + w);
        assert(v == spec_digit_val(s[i]) * spec_pow(base, (w - 1) as nat) + v1);
        lemma_parse_fixed_snoc(s, i + 1, v1, (w - 1) as nat, base, d);
        assert(spec_parse_fixed(s, i + 1, w, base) == Some((v1 * base + d, i + w + 1)));
        assert(spec_parse_fixed(s, i, w + 1, base) == Some(
            (spec_digit_val(s[i]) * spec_pow(base, w) + v1 * base + d, i + w + 1),
        ));
        assert(spec_digit_val(s[i]) * spec_pow(base, w) == (spec_digit_val(s[i]) * spec_pow(
            base,
            (w - 1) as nat,
        )) * base) by (nonlinear_arith)
            requires
                spec_pow(base, w) == base * spec_pow(base, (w - 1) as nat),
        ;
        assert((spec_digit_val(s[i]) * spec_pow(base, (w - 1) as nat) + v1) * base == (
        spec_digit_val(s[i]) * spec_pow(base, (w - 1) as nat)) * base + v1 * base)
            by (nonlinear_arith);
    }
}

/// The escape a character gets inside a quoted string.
pub open spec fn esc_char(c: char) -> Seq<char> {
    if c == '"' {
        seq!['\\', '"']
    } else if c == '\\' {
        seq!['\\', '\\']
    } else if c == '\n' {
        seq!['\\', 'n']
    } else if c == '\r' {
        seq!['\\', 'r']
    } else if c == '\t' {
        seq!['\\', 't']
    } else if (c as u32) == 8 {
        seq!['\\', 'b']
    } else if (c as u32) == 12 {
        seq!['\\', 'f']
    } else if (c as u32) < 32 {
        seq!['\\', 'u'] + spec_pad((c as u32) as int, 4, 16)
    } else {
        seq![c]
    }
}

/// A character sequence with every character escaped as the text form
/// requires.
pub open spec fn spec_escape(s: Seq<char>) -> Seq<char>
    decreases s.len(),
{
    if s.len() == 0 {
        Seq::empty()
    } else {
        esc_char(s[0]) + spec_escape(s.drop_first())
    }
}

/// A quoted string in the text form.
pub open spec fn spec_ser_string(s: Seq<char>) -> Seq<char> {
    seq!['"'] + spec_escape(s) + seq!['"']
}

/// Escaping one more character appends its escape.
pub proof fn lemma_escape_snoc(s: Seq<char>, c: char)
    ensures
        spec_escape(s.push(c)) == spec_escape(s) + esc_char(c),
    decreases s.len(),
{
    if s.len() == 0 {
        assert(s.push(c)[0] == c);
        assert(s.push(c).drop_first() =~= Seq::<char>::empty());
        assert(spec_escape(Seq::<char>::empty()) == Seq::<char>::empty());
        assert(spec_escape(s.push(c)) == esc_char(c) + spec_escape(Seq::<char>::empty()));
        assert(spec_escape(s) == Seq::<char>::empty());
        assert(spec_escape(s.push(c)) =~= spec_escape(s) + esc_char(c));
    } else {
        lemma_escape_snoc(s.drop_first(), c);
        assert(s.push(c).drop_first() =~= s.drop_first().push(c));
        assert(s.push(c)[0] == s[0]);
        assert(spec_escape(s.push(c)) == esc_char(s[0]) + (spec_escape(s.drop_first())
            + esc_char(c)));
        assert(spec_escape(s.push(c)) =~= spec_escape(s) + esc_char(c));
    }
}

/// Reading the inside of a quoted string up to its closing quote,
/// unescaping as it goes. Raw control characters are refused.
pub open spec fn spec_parse_str_body(s: Seq<char>, i: int) -> Option<(Seq<char>, int)>
    decreases s.len() - i,
{
    if i < 0 || i >= s.len() {
        None
    } else if s[i] == '"' {
        Some((Seq::empty(), i + 1))
    } else if s[i] == '\\' {
        if i + 1 >= s.len() {
            None
        } else {
            let e = s[i + 1];
            if e == 'u' {
                match spec_parse_fixed(s, i + 2, 4, 16) {
                    Some((v, _)) => if v > 0xFF || i + 6 > s.len() {
                        None
                    } else {
                        match spec_parse_str_body(s, i + 6) {
                            Some((t, j)) => Some((seq![((v as u32) as char)] + t, j)),
                            None => None,
                        }
                    },
                    None => None,
                }
            } else {
                let u = if e == '"' {
                    Some('"')
                } else if e == '\\' {
                    Some('\\')
                } else if e == '/' {
                    Some('/')
                } else if e == 'n' {
                    Some('\n')
                } else if e == 'r' {
                    Some('\r')
                } else if e == 't' {
                    Some('\t')
                } else if e == 'b' {
                    Some((8u32 as char))
                } else if e == 'f' {
                    Some((12u32 as char))
                } else {
                    None
                };
                match u {
                    None => None,
                    Some(c) => match spec_parse_str_body(s, i + 2) {
                        Some((t, j)) => Some((seq![c] + t, j)),
                        None => None,
                    },
                }
            }
        }
    } else if (s[i] as u32) < 32 {
        None
    } else {
        match spec_parse_str_body(s, i + 1) {
            Some((t, j)) => Some((seq![s[i]] + t, j)),
            None => None,
        }
    }
}

/// Reading a quoted string: the opening quote, then its body.
pub open spec fn spec_parse_string(s: Seq<char>, i: int) -> Option<(Seq<char>, int)> {
    if 0 <= i && i < s.len() && s[i] == '"' {
        spec_parse_str_body(s, i + 1)
    } else {
        None
    }
}

/// Reading an escaped body followed by the closing quote yields the
/// original characters.
pub proof fn lemma_parse_ser_str_body(s: Seq<char>, i: int, t: Seq<char>)
    requires
        matches_at(s, i, spec_escape(t) + seq!['"']),
    ensures
        spec_parse_str_body(s, i) == Some((t, i + spec_escape(t).len() + 1)),
    decreases t.len(),
{
    if t.len() == 0 {
        lemma_matches_at_index(s, i, spec_escape(t) + seq!['"'], 0);
        assert(s[i] == '"');
    } else {
        let c = t[0];
        let rest = t.drop_first();
        let ec = esc_char(c);
        assert(spec_escape(t) == ec + spec_escape(rest));
        assert(spec_escape(t) + seq!['"'] =~= ec + (spec_escape(rest) + seq!['"']));
        lemma_matches_at_split(s, i, ec, spec_escape(rest) + seq!['"']);
        lemma_parse_ser_str_body(s, i + ec.len(), rest);
        assert(t =~= seq![c] + rest);
        if c == '"' || c == '\\' || c == '\n' || c == '\r' || c == '\t' || (c as u32) == 8 || (
        c as u32) == 12 {
            lemma_matches_at_index(s, i, ec, 0);
            lemma_matches_at_index(s, i, ec, 1);
            assert(s[i] == '\\');
            if (c as u32) == 8 {
                vstd::utf8::char_u32_cast(c, 8);
            }
            if (c as u32) == 12 {
                vstd::utf8::char_u32_cast(c, 12);
            }
        } else if (c as u32) < 32 {
            let cv = (c as u32) as int;
            assert(ec == seq!['\\', 'u'] + spec_pad(cv, 4, 16));
            lemma_matches_at_split(s, i, seq!['\\', 'u'], spec_pad(cv, 4, 16));
            lemma_matches_at_index(s, i, seq!['\\', 'u'], 0);
            lemma_matches_at_index(s, i, seq!['\\', 'u'], 1);
            assert(s[i] == '\\' && s[i + 1] == 'u');
            assert(0 <= cv && cv < 32);
            assert(cv < spec_pow(16, 4)) by {
                assert(spec_pow(16, 0) == 1);
                assert(spec_pow(16, 1) == 16);
                assert(spec_pow(16, 2) == 256);
                assert(spec_pow(16, 3) == 4096);
                assert(spec_pow(16, 4) == 65536);
                assert(0 <= cv && cv < 32);
            }
            lemma_pad_shape(cv, 4, 16);
            lemma_parse_ser_fixed(s, i + 2, cv, 4, 16);
            assert(spec_parse_fixed(s, i + 2, 4, 16) == Some((cv, i + 6)));
            vstd::utf8::char_u32_cast(c, c as u32);
            assert(((cv as u32) as char) == c);
            assert(ec.len() == 6);
        } else {
            assert(ec == seq![c]);
            lemma_matches_at_index(s, i, ec, 0);
            assert(s[i] == c);
        }
    }
}

/// Reading a written string back yields the original characters.
pub proof fn lemma_parse_ser_string(s: Seq<char>, i: int, t: Seq<char>)
    requires
        matches_at(s, i, spec_ser_string(t)),
    ensures
        spec_parse_string(s, i) == Some((t, i + spec_ser_string(t).len())),
{
    assert(spec_ser_string(t) =~= seq!['"'] + (spec_escape(t) + seq!['"']));
    lemma_matches_at_split(s, i, seq!['"'], spec_escape(t) + seq!['"']);
    lemma_matches_at_index(s, i, seq!['"'], 0);
    lemma_parse_ser_str_body(s, i + 1, t);
}

/// A timestamp's text up to, not including, any offset marker: quoted
/// calendar fields with a nine-digit fraction.
pub open spec fn spec_date_prefix(d: YarkDate, frac: bool) -> Seq<char> {
    let base = seq!['"'] + spec_pad(d.year as int, 4, 10) + seq!['-'] + spec_pad(
        d.month as int,
        2,
        10,
    ) + seq!['-'] + spec_pad(d.day as int, 2, 10) + seq!['T'] + spec_pad(d.hour as int, 2, 10)
        + seq![':'] + spec_pad(d.minute as int, 2, 10) + seq![':'] + spec_pad(
        d.second as int,
        2,
        10,
    );
    if frac {
        base + seq!['.'] + spec_pad(d.nanos as int, 9, 10)
    } else {
        base
    }
}

/// The canonical written form of a timestamp: fraction kept, UTC marked.
pub open spec fn spec_ser_date(d: YarkDate) -> Seq<char> {
    spec_date_prefix(d, true) + seq!['Z'] + seq!['"']
}

/// Reading a timestamp: quoted calendar fields, an optional fraction of
/// one to nine digits, an optional `Z` or `+00:00` marker — any other
/// offset fails the closing-quote check — and the calendar validity check.
pub open spec fn spec_parse_date(s: Seq<char>, i: int) -> Option<(YarkDate, int)> {
    if !(0 <= i && i < s.len() && s[i] == '"') {
        None
    } else {
        match spec_parse_fixed(s, i + 1, 4, 10) {
            None => None,
            Some((year, _)) => if !(i + 5 < s.len() && s[i + 5] == '-') {
                None
            } else {
                match spec_parse_fixed(s, i + 6, 2, 10) {
                    None => None,
                    Some((month, _)) => if !(i + 8 < s.len() && s[i + 8] == '-') {
                        None
                    } else {
                        match spec_parse_fixed(s, i + 9, 2, 10) {
                            None => None,
                            Some((day, _)) => if !(i + 11 < s.len() && s[i + 11] == 'T') {
                                None
                            } else {
                                match spec_parse_fixed(s, i + 12, 2, 10) {
                                    None => None,
                                    Some((hour, _)) => if !(i + 14 < s.len() && s[i + 14]
                                        == ':') {
                                        None
                                    } else {
                                        match spec_parse_fixed(s, i + 15, 2, 10) {
                                            None => None,
                                            Some((minute, _)) => if !(i + 17 < s.len() && s[i
                                                + 17] == ':') {
                                                None
                                            } else {
                                                match spec_parse_fixed(s, i + 18, 2, 10) {
                                                    None => None,
                                                    Some((second, _)) => spec_parse_date_tail(
                                                        s,
                                                        i + 20,
                                                        year,
                                                        month,
                                                        day,
                                                        hour,
                                                        minute,
                                                        second,
                                                    ),
                                                }
                                            },
                                        }
                                    },
                                }
                            },
                        }
                    },
                }
            },
        }
    }
}

/// The fraction, offset marker and closing quote of a timestamp's text.
pub open spec fn spec_parse_date_tail(
    s: Seq<char>,
    j0: int,
    year: int,
    month: int,
    day: int,
    hour: int,
    minute: int,
    second: int,
) -> Option<(YarkDate, int)> {
    let frac = j0 < s.len() && s[j0] == '.';
    let run = digit_run(s, j0 + 1);
    if frac && (run == 0 || run > 9) {
        None
    } else {
        let nanos = if frac {
            spec_num_of(s.subrange(j0 + 1, j0 + 1 + run), 10) * spec_pow(10, (9 - run) as nat)
        } else {
            0
        };
        let j1 = if frac {
            j0 + 1 + run
        } else {
            j0
        };
        let j2 = if j1 < s.len() && s[j1] == 'Z' {
            j1 + 1
        } else if matches_at(s, j1, "+00:00"@) {
            j1 + 6
        } else {
            j1
        };
        if !(j2 < s.len() && s[j2] == '"') {
            None
        } else {
            let d = YarkDate {
                year: year as u32,
                month: month as u32,
                day: day as u32,
                hour: hour as u32,
                minute: minute as u32,
                second: second as u32,
                nanos: nanos as u32,
            };
            if d.wf() {
                Some((d, j2 + 1))
            } else {
                None
            }
        }
    }
}

/// Reading back any accepted rendering of a well-formed timestamp — with
/// or without the fraction, with a `Z`, a `+00:00`, or no marker at all —
/// yields the same timestamp.
pub proof fn lemma_parse_date_forms(s: Seq<char>, i: int, d: YarkDate, frac: bool, sfx: Seq<char>)
    requires
        d.wf(),
        frac || d.nanos == 0,
        sfx =~= Seq::<char>::empty() || sfx =~= seq!['Z'] || sfx =~= "+00:00"@,
        matches_at(s, i, spec_date_prefix(d, frac) + sfx + seq!['"']),
    ensures
        spec_parse_date(s, i) == Some(
            (d, i + spec_date_prefix(d, frac).len() + sfx.len() + 1),
        ),
{
    crate::numtext::lemma_pow10_values();
    reveal_strlit("+00:00");
    let p4y = spec_pad(d.year as int, 4, 10);
    let p2mo = spec_pad(d.month as int, 2, 10);
    let p2d = spec_pad(d.day as int, 2, 10);
    let p2h = spec_pad(d.hour as int, 2, 10);
    let p2mi = spec_pad(d.minute as int, 2, 10);
    let p2s = spec_pad(d.second as int, 2, 10);
    let p9 = spec_pad(d.nanos as int, 9, 10);
    lemma_pad_shape(d.year as int, 4, 10);
    lemma_pad_shape(d.month as int, 2, 10);
    lemma_pad_shape(d.day as int, 2, 10);
    lemma_pad_shape(d.hour as int, 2, 10);
    lemma_pad_shape(d.minute as int, 2, 10);
    lemma_pad_shape(d.second as int, 2, 10);
    lemma_pad_shape(d.nanos as int, 9, 10);
    let base = seq!['"'] + p4y + seq!['-'] + p2mo + seq!['-'] + p2d + seq!['T'] + p2h + seq![':']
        + p2mi + seq![':'] + p2s;
    let prefix = spec_date_prefix(d, frac);
    let plen = prefix.len() as int;
    // peel the closing quote, then the offset marker, then the prefix parts
    lemma_matches_at_split(s, i, prefix + sfx, seq!['"']);
    lemma_matches_at_split(s, i, prefix, sfx);
    lemma_matches_at_index(s, i + plen + sfx.len(), seq!['"'], 0);
    if frac {
        assert(prefix =~= (base + seq!['.']) + p9);
        lemma_matches_at_split(s, i, base + seq!['.'], p9);
        lemma_matches_at_split(s, i, base, seq!['.']);
        lemma_matches_at_index(s, i + base.len(), seq!['.'], 0);
    } else {
        assert(prefix == base);
    }
    assert(base =~= (seq!['"'] + p4y + seq!['-'] + p2mo + seq!['-'] + p2d + seq!['T'] + p2h
        + seq![':'] + p2mi + seq![':']) + p2s);
    lemma_matches_at_split(
        s,
        i,
        seq!['"'] + p4y + seq!['-'] + p2mo + seq!['-'] + p2d + seq!['T'] + p2h + seq![':'] + p2mi
            + seq![':'],
        p2s,
    );
    lemma_matches_at_split(
        s,
        i,
        seq!['"'] + p4y + seq!['-'] + p2mo + seq!['-'] + p2d + seq!['T'] + p2h + seq![':'] + p2mi,
        seq![':'],
    );
    lemma_matches_at_split(
        s,
        i,
        seq!['"'] + p4y + seq!['-'] + p2mo + seq!['-'] + p2d + seq!['T'] + p2h + seq![':'],
        p2mi,
    );
    lemma_matches_at_split(
        s,
        i,
        seq!['"'] + p4y + seq!['-'] + p2mo + seq!['-'] + p2d + seq!['T'] + p2h,
        seq![':'],
    );
    lemma_matches_at_split(s, i, seq!['"'] + p4y + seq!['-'] + p2mo + seq!['-'] + p2d + seq!['T'], p2h);
    lemma_matches_at_split(s, i, seq!['"'] + p4y + seq!['-'] + p2mo + seq!['-'] + p2d, seq!['T']);
    lemma_matches_at_split(s, i, seq!['"'] + p4y + seq!['-'] + p2mo + seq!['-'], p2d);
    lemma_matches_at_split(s, i, seq!['"'] + p4y + seq!['-'] + p2mo, seq!['-']);
    lemma_matches_at_split(s, i, seq!['"'] + p4y + seq!['-'], p2mo);
    lemma_matches_at_split(s, i, seq!['"'] + p4y, seq!['-']);
    lemma_matches_at_split(s, i, seq!['"'], p4y);
    lemma_matches_at_index(s, i, seq!['"'], 0);
    lemma_matches_at_index(s, i + 5, seq!['-'], 0);
    lemma_matches_at_index(s, i + 8, seq!['-'], 0);
    lemma_matches_at_index(s, i + 11, seq!['T'], 0);
    lemma_matches_at_index(s, i + 14, seq![':'], 0);
    lemma_matches_at_index(s, i + 17, seq![':'], 0);
    lemma_parse_ser_fixed(s, i + 1, d.year as int, 4, 10);
    lemma_parse_ser_fixed(s, i + 6, d.month as int, 2, 10);
    lemma_parse_ser_fixed(s, i + 9, d.day as int, 2, 10);
    lemma_parse_ser_fixed(s, i + 12, d.hour as int, 2, 10);
    lemma_parse_ser_fixed(s, i + 15, d.minute as int, 2, 10);
    lemma_parse_ser_fixed(s, i + 18, d.second as int, 2, 10);
    let j0 = i + 20;
    // the fraction: nine digits then a non-digit, or none at all
    if frac {
        assert(s[j0] == '.');
        assert forall|k: int| 0 <= k < 9 implies spec_is_dec_digit(#[trigger] s[j0 + 1 + k]) by {
            lemma_matches_at_index(s, j0 + 1, p9, k);
        }
        assert(!spec_is_dec_digit(s[j0 + 10])) by {
            if sfx.len() == 0 {
                assert(s[j0 + 10] == '"');
            } else {
                lemma_matches_at_index(s, i + plen, sfx, 0);
                assert(s[j0 + 10] == 'Z' || s[j0 + 10] == '+');
            }
        }
        lemma_digit_run_exact(s, j0 + 1, 9);
        assert(s.subrange(j0 + 1, j0 + 10) =~= p9);
        lemma_num_of_pad(d.nanos as int, 9, 10);
    } else {
        assert(s[j0] != '.') by {
            if sfx.len() == 0 {
                assert(s[j0] == '"');
            } else {
                lemma_matches_at_index(s, i + plen, sfx, 0);
            }
        }
    }
    let j1 = if frac {
        j0 + 10
    } else {
        j0
    };
    assert(j1 == i + plen);
    // the offset marker, or none
    let j2 = if sfx.len() == 1 {
        lemma_matches_at_index(s, j1, sfx, 0);
        assert(s[j1] == 'Z');
        j1 + 1
    } else if sfx.len() == 6 {
        lemma_matches_at_index(s, j1, sfx, 0);
        assert(s[j1] == '+');
        assert(matches_at(s, j1, "+00:00"@));
        j1 + 6
    } else {
        assert(s[j1] == '"');
        assert(s[j1] != 'Z');
        assert(!matches_at(s, j1, "+00:00"@)) by {
            if matches_at(s, j1, "+00:00"@) {
                lemma_matches_at_index(s, j1, "+00:00"@, 0);
            }
        }
        j1
    };
    assert(s[j2] == '"');
    assert(spec_parse_date_tail(
        s,
        j0,
        d.year as int,
        d.month as int,
        d.day as int,
        d.hour as int,
        d.minute as int,
        d.second as int,
    ) == Some((d, j2 + 1)));
}

/// Reading the canonical written form of a timestamp back yields it again.
pub proof fn lemma_parse_ser_date(s: Seq<char>, i: int, d: YarkDate)
    requires
        d.wf(),
        matches_at(s, i, spec_ser_date(d)),
    ensures
        spec_parse_date(s, i) == Some((d, i + spec_ser_date(d).len())),
        spec_ser_date(d).len() == 32,
{
    lemma_pad_shape(d.year as int, 4, 10);
    lemma_pad_shape(d.month as int, 2, 10);
    lemma_pad_shape(d.day as int, 2, 10);
    lemma_pad_shape(d.hour as int, 2, 10);
    lemma_pad_shape(d.minute as int, 2, 10);
    lemma_pad_shape(d.second as int, 2, 10);
    lemma_pad_shape(d.nanos as int, 9, 10);
    assert(spec_ser_date(d) =~= spec_date_prefix(d, true) + seq!['Z'] + seq!['"']);
    lemma_parse_date_forms(s, i, d, true, seq!['Z']);
}

/// The characters of a string slice, as a vector.
pub fn str_to_chars(s: &str) -> (r: Vec<char>)
    ensures
        r@ == s@,
{
    let n = s.unicode_len();
    let mut v: Vec<char> = Vec::new();
    for i in 0..n
        invariant
            n == s@.len(),
            v@ == s@.take(i as int),
    {
        let c = s.get_char(i);
        v.push(c);
        proof {
            assert(s@.take(i as int + 1) =~= s@.take(i as int).push(s@[i as int]));
        }
    }
    proof {
        assert(s@.take(n as int) =~= s@);
    }
    v
}

/// Whether the literal occurs at position `i`.
pub fn match_lit(s: &Vec<char>, i: usize, lit: &str) -> (r: bool)
    requires
        i <= s@.len(),
    ensures
        r == matches_at(s@, i as int, lit@),
{
    let n = lit.unicode_len();
    let slen = s.len();
    if slen - i < n {
        proof {
            if matches_at(s@, i as int, lit@) {
                assert(false);
            }
        }
        return false;
    }
    for k in 0..n
        invariant
            n == lit@.len(),
            slen == s@.len(),
            i + n <= slen,
            forall|t: int| 0 <= t < k ==> s@[i + t] == lit@[t],
    {
        let c = lit.get_char(k);
        if s[i + k] != c {
            proof {
                if matches_at(s@, i as int, lit@) {
                    lemma_matches_at_index(s@, i as int, lit@, k as int);
                }
            }
            return false;
        }
    }
    proof {
        assert(s@.subrange(i as int, i as int + n as int) =~= lit@);
    }
    true
}

pub(crate) fn is_dec_digit_exec(c: char) -> (r: bool)
    ensures
        r == spec_is_dec_digit(c),
{
    proof {
        lemma_char_range(c);
    }
    let cv = c as u32;
    48 <= cv && cv <= 57
}

/// The length of the run of decimal digits starting at `i`.
pub fn digit_run_at(s: &Vec<char>, i: usize) -> (r: usize)
    requires
        i <= s@.len(),
    ensures
        i + r <= s@.len(),
        r as int == digit_run(s@, i as int),
{
    let mut j = i;
    while j < s.len() && is_dec_digit_exec(s[j])
        invariant
            i <= j <= s@.len(),
            digit_run(s@, i as int) == (j - i) + digit_run(s@, j as int),
        decreases s@.len() - j,
    {
        proof {
            assert(digit_run(s@, j as int) == 1 + digit_run(s@, j as int + 1));
        }
        j = j + 1;
    }
    proof {
        assert(digit_run(s@, j as int) == 0);
    }
    j - i
}

/// The value of `w` decimal digits starting at `i`, most significant first.
pub(crate) fn num_of_dec_at(s: &Vec<char>, i: usize, w: usize) -> (r: u64)
    requires
        i + w <= s@.len(),
        w <= 10,
        forall|k: int| 0 <= k < w ==> spec_is_dec_digit(#[trigger] s@[i + k]),
    ensures
        r as int == spec_num_of(s@.subrange(i as int, i as int + w as int), 10),
        (r as int) < spec_pow(10, w as nat),
{
    proof {
        lemma_pow10_values();
    }
    let mut acc: u64 = 0;
    let slen = s.len();
    for k in 0..w
        invariant
            slen == s@.len(),
            i + w <= slen,
            w <= 10,
            forall|t: int| 0 <= t < w ==> spec_is_dec_digit(#[trigger] s@[i + t]),
            acc as int == spec_num_of(s@.subrange(i as int, i as int + k as int), 10),
            (acc as int) < spec_pow(10, k as nat),
    {
        proof {
            lemma_pow10_values();
        }
        let c = s[i + k];
        proof {
            assert(spec_is_dec_digit(s@[i + k as int]));
        }
        let d = (c as u32) - 48;
        proof {
            lemma_char_range(c);
            assert(d as int == spec_digit_val(c));
            let sub = s@.subrange(i as int, i as int + k as int);
            lemma_num_of_push(sub, c, 10);
            assert(s@.subrange(i as int, i as int + k as int + 1) =~= sub.push(c));
            assert(spec_pow(10, (k + 1) as nat) == 10 * spec_pow(10, k as nat));
            assert(acc as int * 10 + d < 10 * spec_pow(10, k as nat)) by (nonlinear_arith)
                requires
                    (acc as int) < spec_pow(10, k as nat),
                    d as int <= 9,
            ;
            lemma_pow_mono(10, (k + 1) as nat, 10);
        }
        acc = acc * 10 + (d as u64);
    }
    acc
}

/// Raises `base` to `w`, for the small exponents the text form uses.
pub fn pow_small(base: u32, w: u32) -> (r: u32)
    requires
        (base == 10 && w <= 9) || (base == 16 && w <= 4),
    ensures
        r as int == spec_pow(base as int, w as nat),
    decreases w,
{
    proof {
        lemma_pow10_values();
        lemma_pow16_values();
    }
    if w == 0 {
        1
    } else {
        let p = pow_small(base, w - 1);
        proof {
            if base == 10 {
                lemma_pow_mono(10, w as nat, 9);
            } else {
                lemma_pow_mono(16, w as nat, 4);
            }
        }
        base * p
    }
}

/// Reads exactly `w` digits in `base` starting at `i`.
pub fn parse_fixed_at(s: &Vec<char>, i: usize, w: u32, base: u32) -> (r: Option<(u32, usize)>)
    requires
        i <= s@.len(),
        (base == 10 && w <= 9) || (base == 16 && w <= 4),
    ensures
        match spec_parse_fixed(s@, i as int, w as nat, base as int) {
            Some((v, j)) => r matches Some(p) && p.0 as int == v && p.1 as int == j && p.1
                <= s@.len(),
            None => r is None,
        },
    decreases w,
{
    if w == 0 {
        return Some((0, i));
    }
    if i >= s.len() {
        return None;
    }
    let c = s[i];
    let cv = c as u32;
    let d: u32 = if 48 <= cv && cv <= 57 {
        cv - 48
    } else if 97 <= cv && cv <= 102 {
        cv - 97 + 10
    } else if 65 <= cv && cv <= 70 {
        cv - 65 + 10
    } else {
        proof {
            assert(spec_digit_val(c) == -1);
        }
        return None;
    };
    proof {
        lemma_char_range(c);
        assert(d as int == spec_digit_val(c));
    }
    if d >= base {
        return None;
    }
    match parse_fixed_at(s, i + 1, w - 1, base) {
        None => None,
        Some((v, j)) => {
            let p = pow_small(base, w - 1);
            proof {
                lemma_parse_fixed_shape(s@, i as int + 1, (w - 1) as nat, base as int);
                lemma_pow10_values();
                lemma_pow16_values();
                if base == 10 {
                    lemma_pow_mono(10, w as nat, 9);
                } else {
                    lemma_pow_mono(16, w as nat, 4);
                }
                assert((d as int * (p as int) + v as int) < (base as int) * (p as int))
                    by (nonlinear_arith)
                    requires
                        d as int <= base as int - 1,
                        0 <= v as int && (v as int) < p as int,
                        p as int >= 1,
                ;
                assert((base as int) * (p as int) == spec_pow(base as int, w as nat));
                assert(d as int * (p as int) >= 0) by (nonlinear_arith)
                    requires
                        d as int >= 0,
                        p as int >= 0,
                ;
            }
            Some((d * p + v, j))
        },
    }
}

/// Reads a decimal number starting at `i`.
pub fn parse_u32_at(s: &Vec<char>, i: usize) -> (r: Option<(u32, usize)>)
    requires
        i <= s@.len(),
    ensures
        match spec_parse_u32(s@, i as int) {
            Some((n, j)) => r matches Some(p) && p.0 == n && p.1 as int == j && p.1 <= s@.len(),
            None => r is None,
        },
{
    proof {
        lemma_pow10_values();
        lemma_digit_run_bounds(s@, i as int);
    }
    let run = digit_run_at(s, i);
    if run == 0 {
        return None;
    }
    let first = s[i];
    if (first as u32) == 48 && run > 1 {
        proof {
            assert(spec_digit_val(s@[i as int]) == 0);
        }
        return None;
    }
    let ghost l = digit_run(s@, i as int);
    let ghost sub = s@.subrange(i as int, i as int + l);
    proof {
        assert forall|k: int| 0 <= k < sub.len() implies spec_is_dec_digit(#[trigger] sub[k]) by {
            assert(sub[k] == s@[i + k]);
        }
        assert(forall|k: int|
            0 <= k < sub.len() ==> spec_is_digit(#[trigger] sub[k], 10));
    }
    if run > 10 {
        proof {
            assert(spec_digit_val(sub[0]) >= 1);
            crate::numtext::lemma_num_of_lower(sub, 10);
            lemma_pow_mono(10, 10, (l - 1) as nat);
            assert(spec_num_of(sub, 10) > u32::MAX);
        }
        return None;
    }
    let num = num_of_dec_at(s, i, run);
    if num > 0xFFFF_FFFF {
        return None;
    }
    let slen = s.len();
    proof {
        assert(i + run <= slen);
    }
    Some((num as u32, i + run))
}

fn parse_str_body_at(s: &Vec<char>, i: usize) -> (r: Option<(String, usize)>)
    requires
        i <= s@.len(),
    ensures
        match spec_parse_str_body(s@, i as int) {
            Some((t, j)) => r matches Some(p) && p.0@ == t && p.1 as int == j && p.1 <= s@.len(),
            None => r is None,
        },
    decreases s@.len() - i,
{
    if i >= s.len() {
        return None;
    }
    let c = s[i];
    if c == '"' {
        return Some((String::new(), i + 1));
    }
    if c == '\\' {
        if i + 1 >= s.len() {
            return None;
        }
        let e = s[i + 1];
        if e == 'u' {
            match parse_fixed_at(s, i + 2, 4, 16) {
                None => None,
                Some((v, j)) => {
                    proof {
                        lemma_parse_fixed_shape(s@, i as int + 2, 4, 16);
                    }
                    if v > 0xFF {
                        return None;
                    }
                    match parse_str_body_at(s, j) {
                        None => None,
                        Some((rest, k)) => {
                            let mut out = String::new();
                            let u = (v as u8) as char;
                            push_char(&mut out, u);
                            out.append(rest.as_str());
                            proof {
                                assert(u == ((v as u32) as char));
                                assert(out@ =~= seq![((v as u32) as char)] + rest@);
                            }
                            Some((out, k))
                        },
                    }
                },
            }
        } else {
            let u: Option<char> = if e == '"' {
                Some('"')
            } else if e == '\\' {
                Some('\\')
            } else if e == '/' {
                Some('/')
            } else if e == 'n' {
                Some('\n')
            } else if e == 'r' {
                Some('\r')
            } else if e == 't' {
                Some('\t')
            } else if e == 'b' {
                Some((8u8 as char))
            } else if e == 'f' {
                Some((12u8 as char))
            } else {
                None
            };
            match u {
                None => None,
                Some(cc) => match parse_str_body_at(s, i + 2) {
                    None => None,
                    Some((rest, k)) => {
                        let mut out = String::new();
                        push_char(&mut out, cc);
                        out.append(rest.as_str());
                        proof {
                            assert((8u8 as char) == (8u32 as char));
                            assert((12u8 as char) == (12u32 as char));
                            assert(out@ =~= seq![cc] + rest@);
                        }
                        Some((out, k))
                    },
                },
            }
        }
    } else {
        proof {
            lemma_char_range(c);
        }
        if (c as u32) < 32 {
            return None;
        }
        match parse_str_body_at(s, i + 1) {
            None => None,
            Some((rest, k)) => {
                let mut out = String::new();
                push_char(&mut out, c);
                out.append(rest.as_str());
                proof {
                    assert(out@ =~= seq![c] + rest@);
                }
                Some((out, k))
            },
        }
    }
}

/// Reads a quoted string starting at `i`.
pub fn parse_string_at(s: &Vec<char>, i: usize) -> (r: Option<(String, usize)>)
    requires
        i <= s@.len(),
    ensures
        match spec_parse_string(s@, i as int) {
            Some((t, j)) => r matches Some(p) && p.0@ == t && p.1 as int == j && p.1 <= s@.len(),
            None => r is None,
        },
{
    if i < s.len() && s[i] == '"' {
        parse_str_body_at(s, i + 1)
    } else {
        None
    }
}

/// Reads a quoted timestamp starting at `i`.
pub fn parse_date_at(s: &Vec<char>, i: usize) -> (r: Option<(YarkDate, usize)>)
    requires
        i <= s@.len(),
    ensures
        match spec_parse_date(s@, i as int) {
            Some((d, j)) => r matches Some(p) && p.0 == d && p.1 as int == j && p.1 <= s@.len(),
            None => r is None,
        },
{
    proof {
        lemma_pow10_values();
    }
    if !(i < s.len() && s[i] == '"') {
        return None;
    }
    let (year, j1) = match parse_fixed_at(s, i + 1, 4, 10) {
        None => {
            return None;
        },
        Some(p) => p,
    };
    proof {
        lemma_parse_fixed_shape(s@, i as int + 1, 4, 10);
    }
    if !(j1 < s.len() && s[j1] == '-') {
        return None;
    }
    let (month, j2) = match parse_fixed_at(s, j1 + 1, 2, 10) {
        None => {
            return None;
        },
        Some(p) => p,
    };
    proof {
        lemma_parse_fixed_shape(s@, i as int + 6, 2, 10);
    }
    if !(j2 < s.len() && s[j2] == '-') {
        return None;
    }
    let (day, j3) = match parse_fixed_at(s, j2 + 1, 2, 10) {
        None => {
            return None;
        },
        Some(p) => p,
    };
    proof {
        lemma_parse_fixed_shape(s@, i as int + 9, 2, 10);
    }
    if !(j3 < s.len() && s[j3] == 'T') {
        return None;
    }
    let (hour, j4) = match parse_fixed_at(s, j3 + 1, 2, 10) {
        None => {
            return None;
        },
        Some(p) => p,
    };
    proof {
        lemma_parse_fixed_shape(s@, i as int + 12, 2, 10);
    }
    if !(j4 < s.len() && s[j4] == ':') {
        return None;
    }
    let (minute, j5) = match parse_fixed_at(s, j4 + 1, 2, 10) {
        None => {
            return None;
        },
        Some(p) => p,
    };
    proof {
        lemma_parse_fixed_shape(s@, i as int + 15, 2, 10);
    }
    if !(j5 < s.len() && s[j5] == ':') {
        return None;
    }
    let (second, j6) = match parse_fixed_at(s, j5 + 1, 2, 10) {
        None => {
            return None;
        },
        Some(p) => p,
    };
    proof {
        lemma_parse_fixed_shape(s@, i as int + 18, 2, 10);
    }
    // the optional fraction
    let j0 = j6;
    let mut nanos: u32 = 0;
    let mut j7 = j0;
    if j0 < s.len() && s[j0] == '.' {
        let run = digit_run_at(s, j0 + 1);
        if run == 0 || run > 9 {
            return None;
        }
        proof {
            lemma_digit_run_bounds(s@, j0 as int + 1);
            assert forall|k: int|
                0 <= k < run implies spec_is_dec_digit(
                #[trigger] s@.subrange(j0 as int + 1, j0 as int + 1 + run as int)[k],
            ) by {
                assert(s@.subrange(j0 as int + 1, j0 as int + 1 + run as int)[k] == s@[j0 + 1 + k]);
            }
        }
        let num = num_of_dec_at(s, j0 + 1, run);
        let scale = pow_small(10, 9 - (run as u32));
        proof {
            let ghost sub = s@.subrange(j0 as int + 1, j0 as int + 1 + run as int);
            assert(forall|k: int| 0 <= k < sub.len() ==> spec_is_digit(#[trigger] sub[k], 10));
            assert(num as int * (scale as int) < spec_pow(10, run as nat) * spec_pow(
                10,
                (9 - run) as nat,
            )) by (nonlinear_arith)
                requires
                    0 <= num as int,
                    (num as int) < spec_pow(10, run as nat),
                    scale as int == spec_pow(10, (9 - run) as nat),
                    spec_pow(10, (9 - run) as nat) >= 1,
            {
                lemma_pow_pos(10, (9 - run) as nat);
            }
            lemma_pow_split(10, run as nat, (9 - run) as nat);
            lemma_pow10_values();
            assert(num as int * (scale as int) >= 0) by (nonlinear_arith)
                requires
                    num as int >= 0,
                    scale as int >= 0,
            ;
        }
        nanos = num as u32 * scale;
        j7 = j0 + 1 + run;
    }
    // the optional offset marker
    let j8 = if j7 < s.len() && s[j7] == 'Z' {
        j7 + 1
    } else if match_lit(s, j7, "+00:00") {
        proof {
            reveal_strlit("+00:00");
        }
        j7 + 6
    } else {
        j7
    };
    proof {
        reveal_strlit("+00:00");
    }
    if !(j8 < s.len() && s[j8] == '"') {
        return None;
    }
    let cand = YarkDate { year, month, day, hour, minute, second, nanos };
    if cand.is_valid() {
        Some((cand, j8 + 1))
    } else {
        None
    }
}

/// Writes the canonical text of a timestamp.
pub fn emit_date(out: &mut String, d: YarkDate)
    ensures
        final(out)@ == old(out)@ + spec_ser_date(d),
{
    push_char(out, '"');
    emit_pad(out, d.year, 4, 10);
    push_char(out, '-');
    emit_pad(out, d.month, 2, 10);
    push_char(out, '-');
    emit_pad(out, d.day, 2, 10);
    push_char(out, 'T');
    emit_pad(out, d.hour, 2, 10);
    push_char(out, ':');
    emit_pad(out, d.minute, 2, 10);
    push_char(out, ':');
    emit_pad(out, d.second, 2, 10);
    push_char(out, '.');
    emit_pad(out, d.nanos, 9, 10);
    push_char(out, 'Z');
    push_char(out, '"');
    proof {
        assert(out@ =~= old(out)@ + spec_ser_date(d));
    }
}

fn emit_escaped_char(out: &mut String, c: char)
    ensures
        final(out)@ == old(out)@ + esc_char(c),
{
    proof {
        lemma_char_range(c);
    }
    if c == '"' {
        push_char(out, '\\');
        push_char(out, '"');
        proof {
            assert(out@ =~= old(out)@ + esc_char(c));
        }
    } else if c == '\\' {
        push_char(out, '\\');
        push_char(out, '\\');
        proof {
            assert(out@ =~= old(out)@ + esc_char(c));
        }
    } else if c == '\n' {
        push_char(out, '\\');
        push_char(out, 'n');
        proof {
            assert(out@ =~= old(out)@ + esc_char(c));
        }
    } else if c == '\r' {
        push_char(out, '\\');
        push_char(out, 'r');
        proof {
            assert(out@ =~= old(out)@ + esc_char(c));
        }
    } else if c == '\t' {
        push_char(out, '\\');
        push_char(out, 't');
        proof {
            assert(out@ =~= old(out)@ + esc_char(c));
        }
    } else if (c as u32) == 8 {
        push_char(out, '\\');
        push_char(out, 'b');
        proof {
            assert(out@ =~= old(out)@ + esc_char(c));
        }
    } else if (c as u32) == 12 {
        push_char(out, '\\');
        push_char(out, 'f');
        proof {
            assert(out@ =~= old(out)@ + esc_char(c));
        }
    } else if (c as u32) < 32 {
        push_char(out, '\\');
        push_char(out, 'u');
        emit_pad(out, c as u32, 4, 16);
        proof {
            assert(out@ =~= old(out)@ + esc_char(c));
        }
    } else {
        push_char(out, c);
        proof {
            assert(out@ =~= old(out)@ + esc_char(c));
        }
    }
}

/// Writes a quoted, escaped string.
pub fn emit_string(out: &mut String, t: &str)
    ensures
        final(out)@ == old(out)@ + spec_ser_string(t@),
{
    push_char(out, '"');
    let n = t.unicode_len();
    for i in 0..n
        invariant
            n == t@.len(),
            out@ == old(out)@ + seq!['"'] + spec_escape(t@.take(i as int)),
    {
        let c = t.get_char(i);
        emit_escaped_char(out, c);
        proof {
            lemma_escape_snoc(t@.take(i as int), c);
            assert(t@.take(i as int + 1) =~= t@.take(i as int).push(c));
            assert(out@ =~= old(out)@ + seq!['"'] + spec_escape(t@.take(i as int + 1)));
        }
    }
    push_char(out, '"');
    proof {
        assert(t@.take(n as int) =~= t@);
        assert(out@ =~= old(out)@ + spec_ser_string(t@));
    }
}

/// A successful string read moved the position forward, within bounds.
pub proof fn lemma_parse_str_body_shape(s: Seq<char>, i: int)
    ensures
        spec_parse_str_body(s, i) matches Some((t, j)) ==> i < j <= s.len(),
    decreases s.len() - i,
{
    if 0 <= i && i < s.len() {
        if s[i] == '"' {
        } else if s[i] == '\\' {
            if i + 1 < s.len() {
                if s[i + 1] == 'u' {
                    if i + 6 <= s.len() {
                        lemma_parse_str_body_shape(s, i + 6);
                    }
                } else {
                    lemma_parse_str_body_shape(s, i + 2);
                }
            }
        } else {
            lemma_parse_str_body_shape(s, i + 1);
        }
    }
}

/// A successful quoted-string read moved the position forward.
pub proof fn lemma_parse_string_shape(s: Seq<char>, i: int)
    ensures
        spec_parse_string(s, i) matches Some((t, j)) ==> i < j <= s.len(),
{
    lemma_parse_str_body_shape(s, i + 1);
}

/// A successful timestamp read moved the position forward, within bounds.
pub proof fn lemma_parse_date_shape(s: Seq<char>, i: int)
    ensures
        spec_parse_date(s, i) matches Some((d, j)) ==> i < j <= s.len() && d.wf(),
{
    let j0 = i + 20;
    if 0 <= j0 + 1 <= s.len() {
        lemma_digit_run_bounds(s, j0 + 1);
    }
}

} // verus!
