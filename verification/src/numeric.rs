//! Fixed-point decimal numbers.
//!
//! Coordinates are carried as `i64` ticks of one micrometer: one meter
//! is `SCALE` ticks.  This module parses a decimal text field into
//! ticks and formats ticks back into decimal text.
//!
//! Parsing is deliberately lenient: a field that is not a plain signed
//! decimal number yields `0`, never an error.  Fractional digits past
//! the sixth are dropped; a value whose magnitude would not fit in an
//! `i64` saturates at `i64::MAX` ticks in magnitude.

use vstd::prelude::*;
use vstd::arithmetic::mul::*;

verus! {

/// Ticks per unit: one micrometer resolution.
pub const SCALE: i64 = 1000000;

/// First integer-part value whose scaled magnitude is certainly above
/// `i64::MAX` ticks.
const SAT_UNITS: u64 = 9223372036855;

const MAX_MAG: u64 = 9223372036854775807;

pub open spec fn is_digit(c: char) -> bool {
    '0' <= c && c <= '9'
}

pub open spec fn digit_val(c: char) -> int {
    c as int - 48
}

pub open spec fn digit_char(n: nat) -> char {
    ((48 + n) as u8) as char
}

pub open spec fn all_digits(s: Seq<char>) -> bool {
    forall|i: int| 0 <= i < s.len() ==> is_digit(s[i])
}

/// The value of a digit string read in base ten.
pub open spec fn digits_val(s: Seq<char>) -> int
    decreases s.len(),
{
    if s.len() == 0 {
        0
    } else {
        digits_val(s.drop_last()) * 10 + digit_val(s.last())
    }
}

pub open spec fn pow10(n: nat) -> int
    decreases n,
{
    if n == 0 {
        1
    } else {
        10 * pow10((n - 1) as nat)
    }
}

pub open spec fn contains_char(s: Seq<char>, c: char) -> bool {
    exists|i: int| 0 <= i < s.len() && s[i] == c
}

/// Index of the first occurrence of `c` in `s` (meaningful only when
/// `s` contains `c`).
pub open spec fn first_index(s: Seq<char>, c: char) -> int
    decreases s.len(),
{
    if s.len() == 0 {
        0
    } else if s[0] == c {
        0
    } else {
        1 + first_index(s.drop_first(), c)
    }
}

pub open spec fn sign_of(s: Seq<char>) -> int {
    if s.len() > 0 && s[0] == '-' {
        -1
    } else {
        1
    }
}

pub open spec fn body_of(s: Seq<char>) -> Seq<char> {
    if s.len() > 0 && (s[0] == '-' || s[0] == '+') {
        s.drop_first()
    } else {
        s
    }
}

/// The integer-part and fraction-part digit strings of a number body.
pub open spec fn split_body(b: Seq<char>) -> (Seq<char>, Seq<char>) {
    if !contains_char(b, '.') {
        (b, Seq::<char>::empty())
    } else {
        let k = first_index(b, '.');
        (b.take(k), b.skip(k + 1))
    }
}

/// A plain signed decimal number: an optional sign, then digits with at
/// most one decimal point and at least one digit.
pub open spec fn valid_number(s: Seq<char>) -> bool {
    let b = body_of(s);
    let (ip, fp) = split_body(b);
    &&& all_digits(ip)
    &&& all_digits(fp)
    &&& ip.len() + fp.len() > 0
    &&& (contains_char(b, '.') ==> ip.len() + 1 + fp.len() == b.len())
}

/// Ticks contributed by the fraction digits: the first six digits,
/// weighted by their decimal position.
pub open spec fn frac_ticks(fp: Seq<char>) -> int {
    let d = if fp.len() >= 6 {
        fp.take(6)
    } else {
        fp
    };
    digits_val(d) * pow10((6 - d.len()) as nat)
}

pub open spec fn clamp_mag(v: int) -> int {
    if v > i64::MAX {
        i64::MAX as int
    } else if v < -(i64::MAX as int) {
        -(i64::MAX as int)
    } else {
        v
    }
}

/// The exact mathematical value, in ticks, of a valid number.
pub open spec fn number_value(s: Seq<char>) -> int {
    let b = body_of(s);
    let (ip, fp) = split_body(b);
    sign_of(s) * (digits_val(ip) * (SCALE as int) + frac_ticks(fp))
}

/// What parsing a numeric field yields: the clamped tick value of a
/// valid number, and `0` for anything else.
pub open spec fn parse_fixed_spec(s: Seq<char>) -> int {
    if valid_number(s) {
        clamp_mag(number_value(s))
    } else {
        0
    }
}

/// Lenient parsing: a field that is not a plain decimal number --
/// blank, truncated, or non-numeric -- yields zero, and parsing never
/// fails on any input.
pub proof fn lemma_lenient_parse(s: Seq<char>)
    ensures
        !valid_number(s) ==> parse_fixed_spec(s) == 0,
        valid_number(s) ==> parse_fixed_spec(s) == clamp_mag(number_value(s)),
{
}

/// Decimal representation of a natural number, most significant digit
/// first.
pub open spec fn dec_rep(n: nat) -> Seq<char>
    decreases n,
{
    if n < 10 {
        seq![digit_char(n)]
    } else {
        dec_rep(n / 10).push(digit_char(n % 10))
    }
}

pub open spec fn zeros(n: nat) -> Seq<char> {
    Seq::new(n, |i: int| '0')
}

pub open spec fn trim_zeros(s: Seq<char>) -> Seq<char>
    decreases s.len(),
{
    if s.len() > 0 && s.last() == '0' {
        trim_zeros(s.drop_last())
    } else {
        s
    }
}

/// The text a tick value is written as: sign, integer part, and the
/// fraction digits with trailing zeros removed (no point when the
/// fraction is zero).
pub open spec fn format_fixed_spec(c: int) -> Seq<char> {
    let m = if c < 0 {
        -c
    } else {
        c
    };
    let ip = m / (SCALE as int);
    let f = m % (SCALE as int);
    let sign = if c < 0 {
        seq!['-']
    } else {
        Seq::<char>::empty()
    };
    let frep = dec_rep(f as nat);
    if f == 0 {
        sign + dec_rep(ip as nat)
    } else {
        sign + dec_rep(ip as nat) + seq!['.'] + trim_zeros(
            zeros((6 - frep.len()) as nat) + frep,
        )
    }
}

pub proof fn lemma_digits_val_bounds(s: Seq<char>)
    requires
        all_digits(s),
    ensures
        0 <= digits_val(s) < pow10(s.len()),
    decreases s.len(),
{
    if s.len() == 0 {
    } else {
        assert(all_digits(s.drop_last())) by {
            assert(forall|i: int|
                0 <= i < s.len() - 1 ==> s.drop_last()[i] == s[i]);
        }
        lemma_digits_val_bounds(s.drop_last());
        assert(is_digit(s.last()));
        assert(digits_val(s.drop_last()) <= pow10(s.drop_last().len()) - 1);
        lemma_mul_inequality(
            digits_val(s.drop_last()),
            pow10(s.drop_last().len()) - 1,
            10,
        );
    }
}

proof fn lemma_digits_val_step(t: Seq<char>, c: char)
    ensures
        digits_val(t.push(c)) == digits_val(t) * 10 + digit_val(c),
{
    assert(t.push(c).drop_last() =~= t);
    assert(t.push(c).last() == c);
}

proof fn lemma_digits_val_zero_prefix(d: Seq<char>)
    ensures
        digits_val(seq!['0'] + d) == digits_val(d),
    decreases d.len(),
{
    if d.len() == 0 {
        assert(seq!['0'] + d =~= seq!['0']);
        let s0 = seq!['0'];
        assert(s0.drop_last() =~= Seq::<char>::empty());
        assert(s0.last() == '0');
        assert(digits_val(s0) == digits_val(Seq::<char>::empty()) * 10
            + digit_val('0'));
    } else {
        assert((seq!['0'] + d).drop_last() =~= seq!['0'] + d.drop_last());
        assert((seq!['0'] + d).last() == d.last());
        lemma_digits_val_zero_prefix(d.drop_last());
    }
}

proof fn lemma_digits_val_zeros(k: nat, d: Seq<char>)
    ensures
        digits_val(zeros(k) + d) == digits_val(d),
    decreases k,
{
    if k == 0 {
        assert(zeros(0) + d =~= d);
    } else {
        assert(zeros(k) + d =~= seq!['0'] + (zeros((k - 1) as nat) + d));
        lemma_digits_val_zeros((k - 1) as nat, d);
        lemma_digits_val_zero_prefix(zeros((k - 1) as nat) + d);
    }
}

pub proof fn lemma_dec_rep(n: nat)
    ensures
        all_digits(dec_rep(n)),
        dec_rep(n).len() >= 1,
        digits_val(dec_rep(n)) == n,
    decreases n,
{
    if n < 10 {
        assert(is_digit(digit_char(n)));
        assert(dec_rep(n).drop_last() =~= Seq::<char>::empty());
        assert(dec_rep(n).last() == digit_char(n));
        assert(digits_val(Seq::<char>::empty()) == 0);
        assert(digit_val(digit_char(n)) == n);
    } else {
        lemma_dec_rep(n / 10);
        lemma_digits_val_step(dec_rep(n / 10), digit_char(n % 10));
        assert(is_digit(digit_char(n % 10)));
        assert(all_digits(dec_rep(n))) by {
            let t = dec_rep(n / 10);
            assert(forall|i: int|
                0 <= i < t.len() ==> dec_rep(n)[i] == t[i]);
            assert(dec_rep(n).last() == digit_char(n % 10));
        }
        assert(digit_val(digit_char(n % 10)) == n % 10);
        assert(digits_val(dec_rep(n)) == (n / 10) * 10 + (n % 10));
        vstd::arithmetic::div_mod::lemma_fundamental_div_mod(n as int, 10);
    }
}

/// A number below `pow10(k)` is written with at most `k` digits.
pub proof fn lemma_dec_rep_len(n: nat, k: nat)
    requires
        k >= 1,
        n < pow10(k),
    ensures
        dec_rep(n).len() <= k,
    decreases n,
{
    if n >= 10 {
        reveal_with_fuel(pow10, 2);
        if k == 1 {
            assert(pow10(1) == 10);
            assert(false);
        }
        assert(pow10(k) == 10 * pow10((k - 1) as nat));
        lemma_pow10_pos_one((k - 1) as nat);
        assert(n / 10 < pow10((k - 1) as nat)) by {
            if n / 10 >= pow10((k - 1) as nat) {
                lemma_mul_inequality(
                    pow10((k - 1) as nat),
                    n as int / 10,
                    10,
                );
                vstd::arithmetic::div_mod::lemma_fundamental_div_mod(
                    n as int,
                    10,
                );
                assert(false);
            }
        }
        lemma_dec_rep_len(n / 10, (k - 1) as nat);
    }
}

pub proof fn lemma_pow10_pos()
    ensures
        forall|k: nat| #[trigger] pow10(k) >= 1,
{
    assert forall|k: nat| #[trigger] pow10(k) >= 1 by {
        lemma_pow10_pos_one(k);
    }
}

proof fn lemma_pow10_pos_one(k: nat)
    ensures
        pow10(k) >= 1,
    decreases k,
{
    if k > 0 {
        lemma_pow10_pos_one((k - 1) as nat);
    }
}

/// Removing trailing zeros from a fraction of at most six digits does
/// not change the ticks it denotes.
proof fn lemma_frac_ticks_trim(s: Seq<char>)
    requires
        s.len() <= 6,
    ensures
        frac_ticks(trim_zeros(s)) == frac_ticks(s),
    decreases s.len(),
{
    if s.len() > 0 && s.last() == '0' {
        lemma_frac_ticks_trim(s.drop_last());
        let t = s.drop_last();
        if s.len() >= 6 {
            assert(s.take(6) =~= s);
        }
        if t.len() >= 6 {
            assert(t.take(6) =~= t);
        }
        assert(digit_val('0') == 0);
        assert(digits_val(s) == digits_val(t) * 10 + digit_val('0'));
        assert(frac_ticks(s) == (digits_val(t) * 10) * pow10((6 - s.len()) as nat));
        assert(frac_ticks(t) == digits_val(t) * pow10((6 - t.len()) as nat));
        assert(pow10((6 - t.len()) as nat) == 10 * pow10((6 - s.len()) as nat));
        lemma_mul_is_associative(digits_val(t), 10, pow10((6 - s.len()) as nat));
    }
}

proof fn lemma_trim_zeros_shape(s: Seq<char>)
    requires
        all_digits(s),
    ensures
        all_digits(trim_zeros(s)),
        trim_zeros(s).len() <= s.len(),
        !contains_char(s, '.') ==> !contains_char(trim_zeros(s), '.'),
    decreases s.len(),
{
    if s.len() > 0 && s.last() == '0' {
        assert(forall|i: int|
            0 <= i < s.len() - 1 ==> s.drop_last()[i] == s[i]);
        assert(!contains_char(s, '.') ==> !contains_char(s.drop_last(), '.')) by {
            if contains_char(s.drop_last(), '.') {
                let i = choose|i: int|
                    0 <= i < s.drop_last().len() && s.drop_last()[i] == '.';
                assert(s[i] == '.');
            }
        }
        lemma_trim_zeros_shape(s.drop_last());
    }
}

/// An all-digit string contains no point; the first point of
/// `ip + "." + fp` sits right after `ip` when `ip` is all digits.
proof fn lemma_first_dot(ip: Seq<char>, fp: Seq<char>)
    requires
        all_digits(ip),
    ensures
        contains_char(ip + seq!['.'] + fp, '.'),
        first_index(ip + seq!['.'] + fp, '.') == ip.len(),
    decreases ip.len(),
{
    let b = ip + seq!['.'] + fp;
    assert(b[ip.len() as int] == '.');
    if ip.len() == 0 {
        assert(b[0] == '.');
    } else {
        assert(b[0] == ip[0]);
        assert(is_digit(ip[0]));
        assert(b[0] != '.');
        assert(b.drop_first() =~= ip.drop_first() + seq!['.'] + fp);
        assert(all_digits(ip.drop_first())) by {
            assert(forall|i: int|
                0 <= i < ip.len() - 1 ==> ip.drop_first()[i] == ip[i + 1]);
        }
        lemma_first_dot(ip.drop_first(), fp);
    }
}

/// Digit strings never contain a point.
proof fn lemma_digits_no_dot(s: Seq<char>)
    requires
        all_digits(s),
    ensures
        !contains_char(s, '.'),
{
    if contains_char(s, '.') {
        let i = choose|i: int| 0 <= i < s.len() && s[i] == '.';
        assert(is_digit(s[i]));
    }
}

pub fn is_digit_exec(c: char) -> (r: bool)
    ensures
        r == is_digit(c),
{
    '0' <= c && c <= '9'
}

fn digit_of(c: char) -> (d: u64)
    requires
        is_digit(c),
    ensures
        d == digit_val(c),
        d < 10,
{
    (c as u64) - 48
}

pub fn digit_char_exec(d: u64) -> (c: char)
    requires
        d < 10,
    ensures
        c == digit_char(d as nat),
{
    ((d as u8) + 48) as char
}

/// Append the decimal representation of `n` to `out`.
pub fn push_dec(out: &mut Vec<char>, n: u64)
    ensures
        final(out)@ == old(out)@ + dec_rep(n as nat),
    decreases n,
{
    if n < 10 {
        out.push(digit_char_exec(n));
        assert(out@ =~= old(out)@ + dec_rep(n as nat));
    } else {
        push_dec(out, n / 10);
        out.push(digit_char_exec(n % 10));
        assert(out@ =~= old(out)@ + dec_rep(n as nat));
    }
}

/// Append the decimal representation of `n` to `out`.
pub fn push_dec_u128(out: &mut Vec<char>, n: u128)
    ensures
        final(out)@ == old(out)@ + dec_rep(n as nat),
    decreases n,
{
    if n < 10 {
        out.push(digit_char_exec((n % 10) as u64));
        assert(out@ =~= old(out)@ + dec_rep(n as nat));
    } else {
        push_dec_u128(out, n / 10);
        out.push(digit_char_exec((n % 10) as u64));
        assert(out@ =~= old(out)@ + dec_rep(n as nat));
    }
}

fn pow10_exec(k: u64) -> (r: u64)
    requires
        k <= 6,
    ensures
        r == pow10(k as nat),
{
    proof {
        reveal_with_fuel(pow10, 7);
    }
    if k == 0 {
        1
    } else if k == 1 {
        10
    } else if k == 2 {
        100
    } else if k == 3 {
        1000
    } else if k == 4 {
        10000
    } else if k == 5 {
        100000
    } else {
        1000000
    }
}


/// A completed scan that consumed the whole field describes a
/// well-formed number, split at the point the scan saw.
proof fn lemma_scan_accept(sq: Seq<char>, i0: int, int_end: int, f0: int, iend: int, has_dot: bool)
    requires
        0 <= i0 <= int_end <= sq.len(),
        body_of(sq) == sq.skip(i0),
        all_digits(sq.subrange(i0, int_end)),
        all_digits(sq.subrange(f0, iend)),
        has_dot ==> int_end < sq.len() && sq[int_end] == '.' && f0 == int_end + 1
            && f0 <= iend,
        !has_dot ==> f0 == int_end && iend == int_end,
        iend == sq.len(),
        int_end - i0 > 0 || (has_dot && iend - f0 > 0),
    ensures
        valid_number(sq),
        split_body(body_of(sq)) == (sq.subrange(i0, int_end), sq.subrange(f0, iend)),
{
    let body = body_of(sq);
    let ip = sq.subrange(i0, int_end);
    let fp = sq.subrange(f0, iend);
    if has_dot {
        assert(body =~= ip + seq!['.'] + fp);
        lemma_first_dot(ip, fp);
        assert(body.take(ip.len() as int) =~= ip);
        assert(body.skip(ip.len() as int + 1) =~= fp);
    } else {
        assert(fp =~= Seq::<char>::empty());
        assert(body =~= ip);
        lemma_digits_no_dot(body);
    }
}

/// A scan that got stuck before the end of the field, or that saw no
/// digit at all, faces a malformed number.
proof fn lemma_scan_reject(sq: Seq<char>, i0: int, int_end: int, f0: int, iend: int, has_dot: bool)
    requires
        0 <= i0 <= int_end <= sq.len(),
        body_of(sq) == sq.skip(i0),
        all_digits(sq.subrange(i0, int_end)),
        int_end == sq.len() || !is_digit(sq[int_end]),
        has_dot <==> (int_end < sq.len() && sq[int_end] == '.'),
        has_dot ==> f0 == int_end + 1 && f0 <= iend <= sq.len() && all_digits(
            sq.subrange(f0, iend),
        ) && (iend == sq.len() || !is_digit(sq[iend])),
        !has_dot ==> f0 == int_end && iend == int_end,
        !(iend == sq.len() && (int_end - i0 > 0 || (has_dot && iend - f0 > 0))),
    ensures
        !valid_number(sq),
{
    let body = body_of(sq);
    let ip = sq.subrange(i0, int_end);
    let n = sq.len() as int;
    if valid_number(sq) {
        let (vip, vfp) = split_body(body);
        if !contains_char(body, '.') {
            assert(vip == body);
            assert forall|j: int| i0 <= j < n implies is_digit(sq[j]) by {
                assert(sq[j] == body[j - i0]);
            }
            assert(int_end == n);
            assert(!has_dot);
            assert(int_end - i0 == body.len());
        } else {
            let k = first_index(body, '.');
            assert(body =~= vip + seq!['.'] + vfp) by {
                lemma_dot_split(body);
            }
            lemma_first_dot(vip, vfp);
            // the integer scan stops exactly at the point
            assert(int_end - i0 == vip.len()) by {
                if int_end - i0 < vip.len() {
                    assert(sq[int_end] == body[int_end - i0]);
                    assert(body[int_end - i0] == vip[int_end - i0]);
                    assert(is_digit(sq[int_end]));
                }
                if int_end - i0 > vip.len() {
                    assert(ip[vip.len() as int] == body[vip.len() as int]);
                    assert(body[vip.len() as int] == '.');
                    assert(is_digit(ip[vip.len() as int]));
                }
            }
            assert(sq[int_end] == body[int_end - i0]);
            assert(has_dot);
            assert forall|j: int| f0 <= j < n implies is_digit(sq[j]) by {
                assert(sq[j] == body[j - i0]);
                assert(body[j - i0] == vfp[j - f0]);
            }
            assert(iend == n);
            assert(vip.len() + vfp.len() > 0);
        }
        assert(false);
    }
}

/// Parse a numeric field into ticks; anything malformed yields `0`.
#[verifier::rlimit(100)]
pub fn parse_fixed(s: &Vec<char>) -> (r: i64)
    ensures
        r as int == parse_fixed_spec(s@),
{
    let ghost sq = s@;
    let n = s.len();
    let mut i: usize = 0;
    let mut neg = false;
    if n > 0 && (s[0] == '-' || s[0] == '+') {
        neg = s[0] == '-';
        i = 1;
    }
    let ghost body = body_of(sq);
    proof {
        assert(body =~= sq.skip(i as int));
    }
    let i0 = i;
    let mut acc: u64 = 0;
    while i < n && is_digit_exec(s[i])
        invariant
            sq == s@,
            i0 <= i <= n,
            n == sq.len(),
            all_digits(sq.subrange(i0 as int, i as int)),
            digits_val(sq.subrange(i0 as int, i as int)) < SAT_UNITS ==> acc
                == digits_val(sq.subrange(i0 as int, i as int)),
            digits_val(sq.subrange(i0 as int, i as int)) >= SAT_UNITS ==> acc
                >= SAT_UNITS,
            acc <= 92233720368549,
        decreases n - i,
    {
        let d = digit_of(s[i]);
        proof {
            let pfx = sq.subrange(i0 as int, i as int);
            let pfx1 = sq.subrange(i0 as int, i + 1);
            assert(pfx1 =~= pfx.push(sq[i as int]));
            lemma_digits_val_step(pfx, sq[i as int]);
            lemma_digits_val_bounds(pfx);
        }
        if acc < SAT_UNITS {
            acc = acc * 10 + d;
        }
        i = i + 1;
    }
    let int_end = i;
    let ghost ip = sq.subrange(i0 as int, int_end as int);
    let mut has_dot = false;
    if i < n && s[i] == '.' {
        has_dot = true;
        i = i + 1;
    }
    let f0 = i;
    let mut facc: u64 = 0;
    let mut fcount: usize = 0;
    if has_dot {
        while i < n && is_digit_exec(s[i])
            invariant
                sq == s@,
                f0 <= i <= n,
                n == sq.len(),
                all_digits(sq.subrange(f0 as int, i as int)),
                fcount == if i - f0 >= 6 {
                    6int
                } else {
                    i - f0
                },
                facc == digits_val(sq.subrange(f0 as int, f0 + fcount)),
                facc < 1000000,
            decreases n - i,
        {
            let d = digit_of(s[i]);
            proof {
                let kept = sq.subrange(f0 as int, f0 + fcount);
                lemma_digits_val_bounds(kept);
                if fcount < 6 {
                    assert(i == f0 + fcount);
                    assert(sq.subrange(f0 as int, f0 + fcount + 1) =~= kept.push(
                        sq[i as int],
                    ));
                    lemma_digits_val_step(kept, sq[i as int]);
                    assert(kept.len() < 6);
                    assert(pow10(kept.len()) <= 100000) by {
                        reveal_with_fuel(pow10, 7);
                        lemma_pow10_mono(kept.len() as int, 5);
                    }
                }
                assert(sq.subrange(f0 as int, i + 1) =~= sq.subrange(
                    f0 as int,
                    i as int,
                ).push(sq[i as int]));
            }
            if fcount < 6 {
                facc = facc * 10 + d;
                fcount = fcount + 1;
            }
            i = i + 1;
        }
    }
    let ghost fp = sq.subrange(f0 as int, i as int);
    let idig = int_end - i0;
    let flen = i - f0;
    if i == n && (idig > 0 || (has_dot && flen > 0)) {
        // the field is a well-formed number
        proof {
            lemma_scan_accept(sq, i0 as int, int_end as int, f0 as int, i as int, has_dot);
            assert(valid_number(sq));
            assert(split_body(body) == (ip, fp));
            assert(fcount == if fp.len() >= 6 {
                6int
            } else {
                fp.len() as int
            });
            if fp.len() >= 6 {
                assert(fp.take(6) =~= sq.subrange(f0 as int, f0 + fcount));
            } else {
                assert(fp =~= sq.subrange(f0 as int, f0 + fcount));
            }
        }
        let mult = pow10_exec(6 - (fcount as u64));
        proof {
            reveal_with_fuel(pow10, 7);
            lemma_digits_val_bounds(sq.subrange(f0 as int, f0 + fcount));
            assert(facc * mult <= 999999) by {
                let kept = sq.subrange(f0 as int, f0 + fcount);
                assert(digits_val(kept) <= pow10(kept.len()) - 1);
                lemma_mul_inequality(
                    digits_val(kept),
                    pow10(kept.len()) - 1,
                    pow10((6 - kept.len()) as nat),
                );
                lemma_mul_is_distributive_sub_other_way(
                    pow10((6 - kept.len()) as nat),
                    pow10(kept.len()),
                    1,
                );
                lemma_pow10_split(kept.len() as nat, (6 - kept.len()) as nat);
            }
        }
        let ft: u64 = facc * mult;
        proof {
            assert(ft == frac_ticks(fp));
            assert(number_value(sq) == sign_of(sq) * (digits_val(ip) * 1000000
                + ft));
        }
        let mag: u64 = if acc >= SAT_UNITS {
            proof {
                lemma_digits_val_bounds(ip);
                assert(digits_val(ip) >= SAT_UNITS);
                lemma_mul_inequality(SAT_UNITS as int, digits_val(ip), 1000000);
            }
            MAX_MAG
        } else {
            proof {
                assert(acc == digits_val(ip));
                lemma_mul_inequality(acc as int, 9223372036854, 1000000);
            }
            let t = acc * 1000000 + ft;
            if t > MAX_MAG {
                MAX_MAG
            } else {
                t
            }
        };
        proof {
            assert(mag == if digits_val(ip) * 1000000 + ft > MAX_MAG {
                MAX_MAG as int
            } else {
                digits_val(ip) * 1000000 + ft
            });
        }
        proof {
            lemma_digits_val_bounds(ip);
        }
        if neg {
            proof {
                assert(sign_of(sq) == -1);
                assert(number_value(sq) == -(digits_val(ip) * 1000000 + ft as int))
                    by (nonlinear_arith)
                    requires
                        number_value(sq) == sign_of(sq) * (digits_val(ip) * 1000000
                            + ft as int),
                        sign_of(sq) == -1,
                ;
                assert(clamp_mag(number_value(sq)) == -(mag as int));
            }
            -(mag as i64)
        } else {
            proof {
                assert(sign_of(sq) == 1);
                assert(number_value(sq) == digits_val(ip) * 1000000 + ft as int)
                    by (nonlinear_arith)
                    requires
                        number_value(sq) == sign_of(sq) * (digits_val(ip) * 1000000
                            + ft as int),
                        sign_of(sq) == 1,
                ;
                assert(clamp_mag(number_value(sq)) == mag as int);
            }
            mag as i64
        }
    } else {
        // reject: the field is not a well-formed number
        proof {
            lemma_scan_reject(sq, i0 as int, int_end as int, f0 as int, i as int, has_dot);
        }
        0
    }
}

proof fn lemma_pow10_mono(a: int, b: int)
    requires
        0 <= a <= b,
    ensures
        pow10(a as nat) <= pow10(b as nat),
    decreases b,
{
    if a < b {
        lemma_pow10_mono(a, b - 1);
        lemma_pow10_pos_one((b - 1) as nat);
    }
}

proof fn lemma_pow10_split(a: nat, b: nat)
    ensures
        pow10(a) * pow10(b) == pow10(a + b),
    decreases a,
{
    if a == 0 {
        assert(pow10(0) == 1);
    } else {
        lemma_pow10_split((a - 1) as nat, b);
        assert(pow10(a) == 10 * pow10((a - 1) as nat));
        lemma_mul_is_associative(10, pow10((a - 1) as nat), pow10(b));
    }
}

/// A body that contains a point splits into its parts around the first
/// point.
#[verifier::rlimit(50)]
proof fn lemma_dot_split(b: Seq<char>)
    requires
        contains_char(b, '.'),
    ensures
        0 <= first_index(b, '.') < b.len(),
        b[first_index(b, '.')] == '.',
        b =~= b.take(first_index(b, '.')) + seq!['.'] + b.skip(
            first_index(b, '.') + 1,
        ),
    decreases b.len(),
{
    let k = first_index(b, '.');
    if b.len() > 0 && b[0] != '.' {
        assert(contains_char(b.drop_first(), '.')) by {
            let i = choose|i: int| 0 <= i < b.len() && b[i] == '.';
            assert(b.drop_first()[i - 1] == '.');
        }
        lemma_dot_split(b.drop_first());
        assert(b.drop_first()[first_index(b.drop_first(), '.')] == '.');
        assert(b[k] == b.drop_first()[k - 1]);
    }
}

/// Formatting ticks and parsing the text back returns the same ticks:
/// the numeric half of the delimited round trip.
pub proof fn lemma_parse_format(c: int)
    requires
        -(i64::MAX as int) <= c <= i64::MAX as int,
    ensures
        parse_fixed_spec(format_fixed_spec(c)) == c,
{
    reveal_with_fuel(pow10, 7);
    let m = if c < 0 {
        -c
    } else {
        c
    };
    let ip = m / 1000000;
    let f = m % 1000000;
    let irep = dec_rep(ip as nat);
    let frep = dec_rep(f as nat);
    lemma_dec_rep(ip as nat);
    lemma_dec_rep(f as nat);
    let s = format_fixed_spec(c);
    assert(0 <= f < 1000000);
    assert(m == ip * 1000000 + f);
    if f == 0 {
        // body is the integer digits alone
        let b = body_of(s);
        if c < 0 {
            assert(s =~= seq!['-'] + irep);
            assert(s[0] == '-');
            assert(b =~= irep);
        } else {
            assert(s =~= irep);
            assert(is_digit(s[0]));
            assert(b =~= irep);
        }
        lemma_digits_no_dot(b);
        assert(split_body(b) == (b, Seq::<char>::empty()));
        assert(valid_number(s));
        assert(frac_ticks(Seq::<char>::empty()) == 0);
        assert(number_value(s) == sign_of(s) * (ip * 1000000 + 0));
        if c < 0 {
            assert(sign_of(s) == -1);
            assert(number_value(s) == -m) by (nonlinear_arith)
                requires
                    number_value(s) == sign_of(s) * (ip * 1000000 + 0),
                    sign_of(s) == -1,
                    m == ip * 1000000,
            ;
            assert(number_value(s) == c);
        } else {
            assert(irep[0] != '-');
            assert(sign_of(s) == 1);
            assert(number_value(s) == m) by (nonlinear_arith)
                requires
                    number_value(s) == sign_of(s) * (ip * 1000000 + 0),
                    sign_of(s) == 1,
                    m == ip * 1000000,
            ;
            assert(number_value(s) == c);
        }
        assert(clamp_mag(c) == c);
    } else {
        let padded = zeros((6 - frep.len()) as nat) + frep;
        let fpart = trim_zeros(padded);
        assert(f < pow10(6));
        lemma_dec_rep_len(f as nat, 6);
        assert(frep.len() <= 6);
        assert(all_digits(padded)) by {
            assert(forall|i: int|
                0 <= i < (6 - frep.len()) ==> padded[i] == '0');
            assert(forall|i: int|
                (6 - frep.len()) <= i < 6 ==> padded[i] == frep[
                    i - (6 - frep.len())
                ]);
            assert(padded.len() == 6);
        }
        lemma_trim_zeros_shape(padded);
        assert(padded.len() == 6);
        // the fraction written is nonzero, so something survives trimming
        let body0 = irep + seq!['.'] + fpart;
        let b = body_of(s);
        if c < 0 {
            assert(s =~= seq!['-'] + body0);
            assert(s[0] == '-');
            assert(b =~= body0);
        } else {
            assert(s =~= body0);
            assert(is_digit(s[0]));
            assert(b =~= body0);
        }
        lemma_first_dot(irep, fpart);
        assert(contains_char(b, '.'));
        assert(first_index(b, '.') == irep.len());
        assert(b.take(irep.len() as int) =~= irep);
        assert(b.skip(irep.len() as int + 1) =~= fpart);
        assert(split_body(b) == (irep, fpart));
        assert(valid_number(s));
        lemma_frac_ticks_trim(padded);
        assert(frac_ticks(fpart) == frac_ticks(padded));
        assert(frac_ticks(padded) == digits_val(padded) * pow10(0)) by {
            assert(padded.take(6) =~= padded);
        }
        lemma_digits_val_zeros((6 - frep.len()) as nat, frep);
        assert(pow10(0) == 1);
        assert(digits_val(padded) == f);
        assert(digits_val(padded) * pow10(0) == digits_val(padded))
            by (nonlinear_arith)
            requires
                pow10(0) == 1,
        ;
        assert(frac_ticks(fpart) == f);
        assert(number_value(s) == sign_of(s) * (ip * 1000000 + f));
        if c < 0 {
            assert(sign_of(s) == -1);
            assert(number_value(s) == -m) by (nonlinear_arith)
                requires
                    number_value(s) == sign_of(s) * (ip * 1000000 + f),
                    sign_of(s) == -1,
                    m == ip * 1000000 + f,
            ;
            assert(number_value(s) == c);
        } else {
            assert(irep[0] != '-');
            assert(sign_of(s) == 1);
            assert(number_value(s) == m) by (nonlinear_arith)
                requires
                    number_value(s) == sign_of(s) * (ip * 1000000 + f),
                    sign_of(s) == 1,
                    m == ip * 1000000 + f,
            ;
            assert(number_value(s) == c);
        }
        assert(clamp_mag(c) == c);
    }
}

/// Every character of a formatted number is a sign, a point, or a
/// digit.
pub proof fn lemma_format_chars(c: int)
    ensures
        forall|i: int| 0 <= i < format_fixed_spec(c).len() ==> (
            #[trigger] format_fixed_spec(c)[i] == '-' || format_fixed_spec(c)[i]
                == '.' || is_digit(format_fixed_spec(c)[i])),
{
    let m = if c < 0 {
        -c
    } else {
        c
    };
    let ip = m / 1000000;
    let f = m % 1000000;
    let irep = dec_rep(ip as nat);
    let frep = dec_rep(f as nat);
    lemma_dec_rep(ip as nat);
    lemma_dec_rep(f as nat);
    let sign: Seq<char> = if c < 0 {
        seq!['-']
    } else {
        Seq::<char>::empty()
    };
    let s = format_fixed_spec(c);
    if f == 0 {
        assert(s == sign + irep);
        assert forall|i: int| 0 <= i < s.len() implies (#[trigger] s[i] == '-' || s[i]
            == '.' || is_digit(s[i])) by {
            if i >= sign.len() {
                assert(s[i] == irep[i - sign.len()]);
            }
        }
    } else {
        let padded = zeros((6 - frep.len()) as nat) + frep;
        assert(f < pow10(6)) by {
            reveal_with_fuel(pow10, 7);
        }
        lemma_dec_rep_len(f as nat, 6);
        assert(all_digits(padded)) by {
            assert(forall|i: int|
                0 <= i < (6 - frep.len()) ==> padded[i] == '0');
            assert(forall|i: int|
                (6 - frep.len()) <= i < 6 ==> padded[i] == frep[
                    i - (6 - frep.len())
                ]);
        }
        lemma_trim_zeros_shape(padded);
        let fpart = trim_zeros(padded);
        assert(s == sign + irep + seq!['.'] + fpart);
        assert forall|i: int| 0 <= i < s.len() implies (#[trigger] s[i] == '-' || s[i]
            == '.' || is_digit(s[i])) by {
            if sign.len() <= i < sign.len() + irep.len() {
                assert(s[i] == irep[i - sign.len()]);
            }
            if i == sign.len() + irep.len() {
                assert(s[i] == '.');
            }
            if i > sign.len() + irep.len() {
                assert(s[i] == fpart[i - (sign.len() + irep.len() + 1)]);
            }
        }
    }
}

/// A formatted number never contains a comma.
pub proof fn lemma_format_no_comma(c: int)
    ensures
        !contains_char(format_fixed_spec(c), ','),
{
    lemma_format_chars(c);
    if contains_char(format_fixed_spec(c), ',') {
        let i = choose|i: int|
            0 <= i < format_fixed_spec(c).len() && format_fixed_spec(c)[i] == ',';
        assert(!is_digit(','));
        assert(false);
    }
}

/// Format ticks as decimal text.
pub fn format_fixed(c: i64) -> (r: Vec<char>)
    ensures
        r@ == format_fixed_spec(c as int),
{
    let m: u64 = if c >= 0 {
        c as u64
    } else {
        ((-(c + 1)) as u64) + 1
    };
    let ip: u64 = m / 1000000;
    let f: u64 = m % 1000000;
    let mut out: Vec<char> = Vec::new();
    if c < 0 {
        out.push('-');
    }
    push_dec(&mut out, ip);
    if f > 0 {
        proof {
            reveal_with_fuel(pow10, 7);
            lemma_dec_rep(f as nat);
        }
        out.push('.');
        let ghost before = out@;
        let mut fd: Vec<char> = Vec::new();
        push_dec(&mut fd, f);
        proof {
            assert(fd@ =~= dec_rep(f as nat));
            assert(f < pow10(6));
            lemma_dec_rep_len(f as nat, 6);
        }
        let pad = 6 - fd.len();
        let mut k: usize = 0;
        let mut frac: Vec<char> = Vec::new();
        while k < pad
            invariant
                k <= pad,
                pad == 6 - dec_rep(f as nat).len(),
                frac@ =~= zeros(k as nat),
            decreases pad - k,
        {
            frac.push('0');
            proof {
                assert(frac@ =~= zeros((k + 1) as nat));
            }
            k = k + 1;
        }
        let mut j: usize = 0;
        while j < fd.len()
            invariant
                j <= fd@.len(),
                fd@ == dec_rep(f as nat),
                pad == 6 - dec_rep(f as nat).len(),
                frac@ =~= zeros(pad as nat) + fd@.take(j as int),
            decreases fd@.len() - j,
        {
            frac.push(fd[j]);
            proof {
                assert(frac@ =~= zeros(pad as nat) + fd@.take(j + 1));
            }
            j = j + 1;
        }
        proof {
            assert(fd@.take(fd@.len() as int) =~= fd@);
        }
        let ghost full = frac@;
        while frac.len() > 0 && frac[frac.len() - 1] == '0'
            invariant
                trim_zeros(frac@) == trim_zeros(full),
            decreases frac@.len(),
        {
            let ghost prev = frac@;
            frac.pop();
            proof {
                assert(frac@ =~= prev.drop_last());
            }
        }
        proof {
            assert(trim_zeros(frac@) == frac@);
        }
        let mut t: usize = 0;
        while t < frac.len()
            invariant
                t <= frac@.len(),
                out@ =~= before + frac@.take(t as int),
            decreases frac@.len() - t,
        {
            out.push(frac[t]);
            proof {
                assert(out@ =~= before + frac@.take(t + 1));
            }
            t = t + 1;
        }
        proof {
            assert(frac@.take(frac@.len() as int) =~= frac@);
            assert(out@ =~= format_fixed_spec(c as int));
        }
    } else {
        proof {
            assert(out@ =~= format_fixed_spec(c as int));
        }
    }
    out
}

} // verus!
