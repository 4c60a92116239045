//! Fixed-point decimal numbers read from text.
//!
//! A measurement is held as a whole number of millionths of a unit, so that
//! every statistic computed from it is exact. The text syntax is that of
//! floating-point literals: optional sign, digits with an optional '.', and
//! an optional exponent (`e` or `E`, optional sign, digits). Digits beyond
//! the sixth after the point are rounded to the nearest millionth, halves
//! away from zero. Text is refused only where it is not such a number
//! (`inf` and `NaN` included) or where the value exceeds `MAX_MICROS`.
use vstd::arithmetic::div_mod::lemma_fundamental_div_mod_converse;
use vstd::prelude::*;
use crate::text::chars_of;

verus! {

/// Number of fractional digits that a value keeps.
pub const FRACTION_DIGITS: usize = 6;

/// Exponents beyond this magnitude are only known to be that large.
pub const EXPONENT_CAP: u128 = 100000000000000000000;

/// Largest magnitude accepted, in millionths: one hundred million units.
pub const MAX_MICROS: i64 = 100000000000000;

pub open spec fn is_digit(c: char) -> bool {
    '0' <= c && c <= '9'
}

pub open spec fn digit_value(c: char) -> int {
    c as int - '0' as int
}

pub open spec fn all_digits(s: Seq<char>) -> bool {
    forall|i: int| 0 <= i < s.len() ==> is_digit(#[trigger] s[i])
}

/// The number that a string of decimal digits denotes.
pub open spec fn digits_value(s: Seq<char>) -> int
    decreases s.len(),
{
    if s.len() == 0 {
        0
    } else {
        digits_value(s.drop_last()) * 10 + digit_value(s.last())
    }
}

pub open spec fn pow10(n: nat) -> int
    decreases n,
{
    if n == 0 {
        1
    } else {
        10 * pow10((n - 1) as nat)
    }
}

pub open spec fn has_sign(s: Seq<char>) -> bool {
    s.len() > 0 && (s[0] == '+' || s[0] == '-')
}

pub open spec fn is_negative(s: Seq<char>) -> bool {
    s.len() > 0 && s[0] == '-'
}

/// The text after an optional leading sign.
pub open spec fn unsigned_part(s: Seq<char>) -> Seq<char> {
    if has_sign(s) {
        s.drop_first()
    } else {
        s
    }
}

/// Position of the first '.' in `s`, or its length when it has none.
pub open spec fn dot_index(s: Seq<char>) -> int
    decreases s.len(),
{
    if s.len() == 0 {
        0
    } else if s[0] == '.' {
        0
    } else {
        1 + dot_index(s.drop_first())
    }
}

pub open spec fn integer_digits(b: Seq<char>) -> Seq<char> {
    b.subrange(0, dot_index(b))
}

pub open spec fn fraction_digits(b: Seq<char>) -> Seq<char> {
    if dot_index(b) < b.len() {
        b.subrange(dot_index(b) + 1, b.len() as int)
    } else {
        Seq::empty()
    }
}

pub open spec fn is_exp_mark(c: char) -> bool {
    c == 'e' || c == 'E'
}

/// Position of the first exponent mark in `s`, or its length when it has none.
pub open spec fn exp_index(s: Seq<char>) -> int
    decreases s.len(),
{
    if s.len() == 0 {
        0
    } else if is_exp_mark(s[0]) {
        0
    } else {
        1 + exp_index(s.drop_first())
    }
}

/// The text before the exponent mark.
pub open spec fn mantissa_part(b: Seq<char>) -> Seq<char> {
    b.subrange(0, exp_index(b))
}

/// The text after the exponent mark, if there is one.
pub open spec fn exponent_part(b: Seq<char>) -> Option<Seq<char>> {
    if exp_index(b) < b.len() {
        Some(b.subrange(exp_index(b) + 1, b.len() as int))
    } else {
        None
    }
}

/// All digits of the mantissa, the '.' left out.
pub open spec fn mantissa_digits(b: Seq<char>) -> Seq<char> {
    integer_digits(mantissa_part(b)) + fraction_digits(mantissa_part(b))
}

pub open spec fn exponent_ok(x: Option<Seq<char>>) -> bool {
    match x {
        None => true,
        Some(t) => unsigned_part(t).len() > 0 && all_digits(unsigned_part(t)),
    }
}

pub open spec fn exponent_value(x: Option<Seq<char>>) -> int {
    match x {
        None => 0,
        Some(t) => if is_negative(t) {
            -digits_value(unsigned_part(t))
        } else {
            digits_value(unsigned_part(t))
        },
    }
}

/// A floating-point literal other than `inf` and `NaN`.
pub open spec fn is_decimal_text(s: Seq<char>) -> bool {
    let b = unsigned_part(s);
    let m = mantissa_part(b);
    &&& all_digits(integer_digits(m))
    &&& all_digits(fraction_digits(m))
    &&& integer_digits(m).len() + fraction_digits(m).len() > 0
    &&& exponent_ok(exponent_part(b))
}

/// Power of ten by which the mantissa digits, read as a whole number, are
/// multiplied to give millionths.
pub open spec fn micro_shift(s: Seq<char>) -> int {
    let b = unsigned_part(s);
    exponent_value(exponent_part(b)) - fraction_digits(mantissa_part(b)).len() + FRACTION_DIGITS
}

/// `v * 10^k`, rounded to a whole number, halves upward.
pub open spec fn rounded_shift(v: int, k: int) -> int {
    if k >= 0 {
        v * pow10(k as nat)
    } else {
        (2 * v + pow10((-k) as nat)) / (2 * pow10((-k) as nat))
    }
}

/// Magnitude of a decimal text in millionths.
pub open spec fn magnitude_micros(s: Seq<char>) -> int {
    rounded_shift(digits_value(mantissa_digits(unsigned_part(s))), micro_shift(s))
}

/// The value of a decimal text in millionths, if it is one and within range.
pub open spec fn decimal_micros(s: Seq<char>) -> Option<int> {
    if is_decimal_text(s) && magnitude_micros(s) <= MAX_MICROS {
        if is_negative(s) {
            Some(-magnitude_micros(s))
        } else {
            Some(magnitude_micros(s))
        }
    } else {
        None
    }
}

proof fn lemma_dot_index(s: Seq<char>, k: int)
    requires
        0 <= k <= s.len(),
        forall|j: int| 0 <= j < k ==> s[j] != '.',
        k == s.len() || s[k] == '.',
    ensures
        dot_index(s) == k,
    decreases k,
{
    if k > 0 {
        lemma_dot_index(s.drop_first(), k - 1);
    }
}

pub proof fn lemma_digits_prefix(s: Seq<char>, j: int)
    requires
        all_digits(s),
        0 <= j <= s.len(),
    ensures
        0 <= digits_value(s.subrange(0, j)) <= digits_value(s),
    decreases s.len(),
{
    if s.len() > 0 {
        let t = s.drop_last();
        if j == s.len() {
            lemma_digits_prefix(t, t.len() as int);
            assert(t.subrange(0, t.len() as int) =~= t);
            assert(s.subrange(0, j) =~= s);
        } else {
            lemma_digits_prefix(t, j);
            lemma_digits_prefix(t, t.len() as int);
            assert(t.subrange(0, t.len() as int) =~= t);
            assert(t.subrange(0, j) =~= s.subrange(0, j));
        }
    }
}

proof fn lemma_digits_step(s: Seq<char>, j: int)
    requires
        0 <= j < s.len(),
    ensures
        digits_value(s.subrange(0, j + 1)) == digits_value(s.subrange(0, j)) * 10 + digit_value(
            s[j],
        ),
{
    assert(s.subrange(0, j + 1).drop_last() =~= s.subrange(0, j));
}

proof fn lemma_exp_index(s: Seq<char>, k: int)
    requires
        0 <= k <= s.len(),
        forall|j: int| 0 <= j < k ==> !is_exp_mark(s[j]),
        k == s.len() || is_exp_mark(s[k]),
    ensures
        exp_index(s) == k,
    decreases k,
{
    if k > 0 {
        lemma_exp_index(s.drop_first(), k - 1);
    }
}

proof fn lemma_pow10_mono(a: nat, b: nat)
    requires
        a <= b,
    ensures
        1 <= pow10(a) <= pow10(b),
    decreases b,
{
    if b > 0 {
        if a < b {
            lemma_pow10_mono(a, (b - 1) as nat);
        } else {
            lemma_pow10_mono((a - 1) as nat, (b - 1) as nat);
        }
    }
}

proof fn lemma_pow10_fifteen()
    ensures
        pow10(15) == 1000000000000000,
{
    assert(pow10(0) == 1);
    assert(pow10(1) == 10);
    assert(pow10(2) == 100);
    assert(pow10(3) == 1000);
    assert(pow10(4) == 10000);
    assert(pow10(5) == 100000);
    assert(pow10(6) == 1000000);
    assert(pow10(7) == 10000000);
    assert(pow10(8) == 100000000);
    assert(pow10(9) == 1000000000);
    assert(pow10(10) == 10000000000);
    assert(pow10(11) == 100000000000);
    assert(pow10(12) == 1000000000000);
    assert(pow10(13) == 10000000000000);
    assert(pow10(14) == 100000000000000);
}

proof fn lemma_digits_below_pow10(s: Seq<char>)
    requires
        all_digits(s),
    ensures
        0 <= digits_value(s) < pow10(s.len()),
    decreases s.len(),
{
    if s.len() > 0 {
        let t = s.drop_last();
        lemma_digits_below_pow10(t);
        assert(0 <= digit_value(s.last()) <= 9);
        assert(pow10(s.len()) == 10 * pow10(t.len()));
    }
}

/// The value of a digit string splits at any position.
proof fn lemma_digits_split(s: Seq<char>, p: int)
    requires
        0 <= p <= s.len(),
    ensures
        digits_value(s) == digits_value(s.subrange(0, p)) * pow10((s.len() - p) as nat)
            + digits_value(s.subrange(p, s.len() as int)),
    decreases s.len(),
{
    if p == s.len() {
        assert(s.subrange(0, p) =~= s);
        assert(s.subrange(p, p) =~= Seq::<char>::empty());
        assert(digits_value(Seq::<char>::empty()) == 0);
        assert(pow10(0) == 1);
        assert(digits_value(s) * 1 == digits_value(s));
    } else {
        let t = s.drop_last();
        lemma_digits_split(t, p);
        assert(t.subrange(0, p) =~= s.subrange(0, p));
        let u = s.subrange(p, s.len() as int);
        assert(u.drop_last() =~= t.subrange(p, t.len() as int));
        assert(u.last() == s.last());
        let a = digits_value(s.subrange(0, p));
        let q = pow10((t.len() - p) as nat);
        let bb = digits_value(t.subrange(p, t.len() as int));
        let d = digit_value(s.last());
        assert(pow10((s.len() - p) as nat) == 10 * q);
        assert((a * q + bb) * 10 + d == a * (10 * q) + (bb * 10 + d)) by (nonlinear_arith);
    }
}

proof fn lemma_round_to_zero(v: int, len: nat, m: nat)
    requires
        0 <= v < pow10(len),
        len < m,
    ensures
        (2 * v + pow10(m)) / (2 * pow10(m)) == 0,
{
    lemma_pow10_mono(len + 1, m);
    assert(pow10(len + 1) == 10 * pow10(len));
    lemma_fundamental_div_mod_converse(2 * v + pow10(m), 2 * pow10(m), 0, 2 * v + pow10(m));
}

proof fn lemma_round_half_up(v: int, q: int, r: int, d: int, r2: int, m: nat)
    requires
        m >= 1,
        q >= 0,
        0 <= d <= 9,
        0 <= r2 < pow10((m - 1) as nat),
        r == d * pow10((m - 1) as nat) + r2,
        v == q * pow10(m) + r,
    ensures
        (2 * v + pow10(m)) / (2 * pow10(m)) == q + if d >= 5 {
            1int
        } else {
            0int
        },
{
    let p1 = pow10((m - 1) as nat);
    let p = pow10(m);
    assert(p == 10 * p1);
    let b: int = if d >= 5 {
        1
    } else {
        0
    };
    let rest = 2 * r + p - 2 * b * p;
    assert(0 <= rest < 2 * p) by (nonlinear_arith)
        requires
            p == 10 * p1,
            r == d * p1 + r2,
            0 <= r2 < p1,
            0 <= d <= 9,
            b == (if d >= 5 {
                1int
            } else {
                0int
            }),
            rest == 2 * r + p - 2 * b * p,
    ;
    assert(2 * v + p == (q + b) * (2 * p) + rest) by (nonlinear_arith)
        requires
            v == q * p + r,
            rest == 2 * r + p - 2 * b * p,
    ;
    lemma_fundamental_div_mod_converse(2 * v + p, 2 * p, q + b, rest);
}

/// Reads the digits of `cs` between `from` and `to`; a value above `cap` is
/// reported as `cap + 1`.
fn read_capped(cs: &Vec<char>, from: usize, to: usize, cap: u128) -> (r: Option<u128>)
    requires
        from <= to <= cs@.len(),
        cap <= EXPONENT_CAP,
    ensures
        ({
            let d = cs@.subrange(from as int, to as int);
            match r {
                Some(v) => all_digits(d) && v <= cap + 1 && (v <= cap ==> v == digits_value(d)) && (v
                    > cap ==> digits_value(d) > cap),
                None => !all_digits(d),
            }
        }),
{
    let ghost d = cs@.subrange(from as int, to as int);
    let mut acc: u128 = 0;
    let mut big = false;
    let mut i: usize = from;
    while i < to
        invariant
            from <= i <= to <= cs@.len(),
            d == cs@.subrange(from as int, to as int),
            cap <= EXPONENT_CAP,
            all_digits(d.subrange(0, i - from)),
            !big ==> acc == digits_value(d.subrange(0, i - from)) && acc <= cap,
            big ==> digits_value(d.subrange(0, i - from)) > cap,
            digits_value(d.subrange(0, i - from)) >= 0,
        decreases to - i,
    {
        let c = cs[i];
        if !('0' <= c && c <= '9') {
            assert(!is_digit(d[i - from]));
            return None;
        }
        proof {
            lemma_digits_step(d, i - from);
            assert(d.subrange(0, i - from + 1) =~= d.subrange(0, i - from).push(c));
        }
        if !big {
            let dv = (c as u32 - '0' as u32) as u128;
            acc = acc * 10 + dv;
            if acc > cap {
                big = true;
            }
        }
        i = i + 1;
    }
    assert(d.subrange(0, i - from) =~= d);
    if big {
        Some(cap + 1)
    } else {
        Some(acc)
    }
}

/// The digits of the mantissa `cs[start..x]`, the '.' left out, and the
/// number of digits after the '.'.
fn mantissa_of(cs: &Vec<char>, start: usize, x: usize) -> (r: Option<(Vec<char>, usize)>)
    requires
        start <= x <= cs@.len(),
    ensures
        ({
            let m = cs@.subrange(start as int, x as int);
            match r {
                Some((d, f)) => {
                    &&& all_digits(integer_digits(m))
                    &&& all_digits(fraction_digits(m))
                    &&& d@ == integer_digits(m) + fraction_digits(m)
                    &&& f == fraction_digits(m).len()
                    &&& all_digits(d@)
                },
                None => !(all_digits(integer_digits(m)) && all_digits(fraction_digits(m))),
            }
        }),
{
    let ghost m = cs@.subrange(start as int, x as int);
    let mut k: usize = start;
    while k < x && cs[k] != '.'
        invariant
            start <= k <= x <= cs@.len(),
            forall|j: int| start <= j < k ==> #[trigger] cs@[j] != '.',
        decreases x - k,
    {
        k = k + 1;
    }
    proof {
        assert forall|j: int| 0 <= j < k - start implies m[j] != '.' by {
            assert(m[j] == cs@[j + start]);
        }
        lemma_dot_index(m, k - start);
    }
    let ghost ip = integer_digits(m);
    assert(ip =~= cs@.subrange(start as int, k as int));
    let frac_from: usize = if k < x {
        k + 1
    } else {
        x
    };
    let ghost fp = fraction_digits(m);
    assert(fp =~= cs@.subrange(frac_from as int, x as int));
    let mut digits: Vec<char> = Vec::new();
    let mut i: usize = start;
    while i < k
        invariant
            start <= i <= k <= x <= cs@.len(),
            ip == cs@.subrange(start as int, k as int),
            ip == integer_digits(m),
            m == cs@.subrange(start as int, x as int),
            digits@ == cs@.subrange(start as int, i as int),
            all_digits(digits@),
        decreases k - i,
    {
        let c = cs[i];
        if !('0' <= c && c <= '9') {
            assert(!is_digit(ip[i - start]));
            return None;
        }
        digits.push(c);
        i = i + 1;
        assert(digits@ =~= cs@.subrange(start as int, i as int));
    }
    assert(digits@ =~= ip);
    let mut i: usize = frac_from;
    while i < x
        invariant
            frac_from <= i <= x <= cs@.len(),
            fp == cs@.subrange(frac_from as int, x as int),
            fp == fraction_digits(m),
            ip == integer_digits(m),
            m == cs@.subrange(start as int, x as int),
            all_digits(ip),
            digits@ == ip + cs@.subrange(frac_from as int, i as int),
            all_digits(digits@),
        decreases x - i,
    {
        let c = cs[i];
        if !('0' <= c && c <= '9') {
            assert(!is_digit(fp[i - frac_from]));
            return None;
        }
        digits.push(c);
        i = i + 1;
        assert(digits@ =~= ip + cs@.subrange(frac_from as int, i as int));
    }
    assert(digits@ =~= ip + fp);
    assert forall|j: int| 0 <= j < fp.len() implies is_digit(#[trigger] fp[j]) by {
        assert(fp[j] == digits@[ip.len() + j]);
    }
    Some((digits, x - frac_from))
}

/// `dv(digits) * 10^shift` rounded, where the shift is `ev - f + 6` and the
/// exponent `ev` is known exactly up to `EXPONENT_CAP` and by sign beyond.
fn scaled_magnitude(digits: &Vec<char>, f: usize, e_neg: bool, e_mag: u128, Ghost(ev): Ghost<int>) -> (r:
    Option<u128>)
    requires
        all_digits(digits@),
        f <= digits@.len(),
        e_mag <= EXPONENT_CAP + 1,
        e_mag <= EXPONENT_CAP ==> ev == if e_neg {
            -(e_mag as int)
        } else {
            e_mag as int
        },
        e_mag > EXPONENT_CAP ==> if e_neg {
            ev < -EXPONENT_CAP
        } else {
            ev > EXPONENT_CAP
        },
    ensures
        ({
            let mag = rounded_shift(digits_value(digits@), ev - f + FRACTION_DIGITS);
            match r {
                Some(v) => v == mag && v <= MAX_MICROS,
                None => mag > MAX_MICROS,
            }
        }),
{
    let ghost dm = digits@;
    let ghost dv = digits_value(dm);
    let ghost shift = ev - f + 6;
    proof {
        lemma_digits_below_pow10(dm);
        lemma_pow10_fifteen();
    }
    let d_len = digits.len();
    let max_u: u128 = MAX_MICROS as u128;
    assert(digits@.subrange(0, d_len as int) =~= digits@);
    if e_mag > EXPONENT_CAP {
        if e_neg {
            proof {
                lemma_round_to_zero(dv, dm.len(), (-shift) as nat);
            }
            return Some(0);
        }
        let v = match read_capped(digits, 0, d_len, max_u) {
            Some(v) => v,
            None => return None,
        };
        if v != 0 {
            proof {
                lemma_pow10_mono(15, shift as nat);
                assert(dv * pow10(shift as nat) >= pow10(shift as nat)) by (nonlinear_arith)
                    requires
                        dv >= 1,
                        pow10(shift as nat) >= 1,
                ;
            }
            return None;
        }
        return Some(0);
    }
    let sh: i128 = (if e_neg {
        -(e_mag as i128)
    } else {
        e_mag as i128
    }) - f as i128 + 6;
    assert(sh == shift);
    if sh >= 0 {
        let v = match read_capped(digits, 0, d_len, max_u) {
            Some(v) => v,
            None => return None,
        };
        assert(rounded_shift(dv, shift) == dv * pow10(sh as nat));
        if v > max_u {
            proof {
                lemma_pow10_mono(0, sh as nat);
                assert(dv * pow10(sh as nat) >= dv) by (nonlinear_arith)
                    requires
                        dv >= 0,
                        pow10(sh as nat) >= 1,
                ;
            }
            return None;
        }
        let mut acc: u128 = v;
        assert(acc == dv);
        if acc == 0 {
            assert(dv * pow10(sh as nat) == 0);
            return Some(0);
        }
        let mut j: i128 = 0;
        assert(pow10(0) == 1);
        assert(dv * pow10(0) == dv);
        while j < sh
            invariant
                0 <= j <= sh,
                1 <= acc <= max_u,
                max_u == MAX_MICROS,
                acc == dv * pow10(j as nat),
                dv >= 0,
                sh == shift,
                dv == digits_value(digits@),
                shift == ev - f + FRACTION_DIGITS,
            decreases sh - j,
        {
            assert(pow10((j + 1) as nat) == 10 * pow10(j as nat));
            assert(acc * 10 == dv * pow10((j + 1) as nat)) by (nonlinear_arith)
                requires
                    acc == dv * pow10(j as nat),
                    pow10((j + 1) as nat) == 10 * pow10(j as nat),
            ;
            if acc > max_u / 10 {
                proof {
                    lemma_pow10_mono((j + 1) as nat, sh as nat);
                    assert(dv * pow10(sh as nat) >= dv * pow10((j + 1) as nat)) by (nonlinear_arith)
                        requires
                            dv >= 0,
                            pow10(sh as nat) >= pow10((j + 1) as nat),
                    ;
                }
                return None;
            }
            assert(acc * 10 == dv * pow10((j + 1) as nat)) by (nonlinear_arith)
                requires
                    acc == dv * pow10(j as nat),
                    pow10((j + 1) as nat) == 10 * pow10(j as nat),
            ;
            acc = acc * 10;
            j = j + 1;
        }
        return Some(acc);
    }
    let mm: i128 = -sh;
    if mm > d_len as i128 {
        proof {
            lemma_round_to_zero(dv, dm.len(), mm as nat);
        }
        return Some(0);
    }
    let p: usize = d_len - mm as usize;
    let ghost pre = dm.subrange(0, p as int);
    assert(all_digits(pre)) by {
        assert forall|j: int| 0 <= j < pre.len() implies is_digit(#[trigger] pre[j]) by {
            assert(pre[j] == dm[j]);
        }
    }
    let q = match read_capped(digits, 0, p, max_u) {
        Some(v) => v,
        None => return None,
    };
    let c = digits[p];
    proof {
        let u = dm.subrange(p as int, dm.len() as int);
        lemma_digits_split(dm, p as int);
        lemma_digits_split(u, 1);
        assert(u.subrange(0, 1).drop_last() =~= Seq::<char>::empty());
        assert(u.subrange(0, 1).last() == c);
        assert(digits_value(Seq::<char>::empty()) == 0);
        assert(digits_value(u.subrange(0, 1)) == digit_value(c));
        assert(u.len() == mm);
        let tail = u.subrange(1, u.len() as int);
        assert(all_digits(tail)) by {
            assert forall|j: int| 0 <= j < tail.len() implies is_digit(#[trigger] tail[j]) by {
                assert(tail[j] == dm[p + 1 + j]);
            }
        }
        lemma_digits_below_pow10(tail);
        lemma_digits_below_pow10(pre);
        assert(is_digit(dm[p as int]));
        lemma_round_half_up(
            dv,
            digits_value(pre),
            digits_value(u),
            digit_value(c),
            digits_value(tail),
            mm as nat,
        );
    }
    if q > max_u {
        return None;
    }
    let r = if c >= '5' {
        q + 1
    } else {
        q
    };
    if r > max_u {
        return None;
    }
    Some(r)
}

/// Parses a floating-point literal into millionths, rounding to the nearest
/// millionth (halves away from zero).
pub fn parse_decimal(s: &str) -> (r: Option<i64>)
    ensures
        match r {
            Some(v) => decimal_micros(s@) == Some(v as int) && -MAX_MICROS <= v <= MAX_MICROS,
            None => decimal_micros(s@) is None,
        },
{
    let cs = chars_of(s);
    let n = cs.len();
    let mut start: usize = 0;
    let mut negative = false;
    if n > 0 && (cs[0] == '+' || cs[0] == '-') {
        start = 1;
        negative = cs[0] == '-';
    }
    let ghost b = unsigned_part(s@);
    assert(b =~= cs@.subrange(start as int, n as int));
    let mut x: usize = start;
    while x < n && !(cs[x] == 'e' || cs[x] == 'E')
        invariant
            start <= x <= n == cs@.len(),
            forall|j: int| start <= j < x ==> !is_exp_mark(#[trigger] cs@[j]),
        decreases n - x,
    {
        x = x + 1;
    }
    proof {
        assert forall|j: int| 0 <= j < x - start implies !is_exp_mark(b[j]) by {
            assert(b[j] == cs@[j + start]);
        }
        lemma_exp_index(b, x - start);
    }
    let ghost m = mantissa_part(b);
    assert(m =~= cs@.subrange(start as int, x as int));
    let (digits, f) = match mantissa_of(&cs, start, x) {
        Some(r) => r,
        None => return None,
    };
    if digits.len() == 0 {
        return None;
    }
    let mut e_neg = false;
    let mut e_mag: u128 = 0;
    if x < n {
        let ghost t = cs@.subrange(x + 1, n as int);
        assert(b.subrange(exp_index(b) + 1, b.len() as int) =~= t);
        let mut es: usize = x + 1;
        if es < n && (cs[es] == '+' || cs[es] == '-') {
            e_neg = cs[es] == '-';
            es = es + 1;
        }
        assert(unsigned_part(t) =~= cs@.subrange(es as int, n as int));
        if es == n {
            return None;
        }
        match read_capped(&cs, es, n, EXPONENT_CAP) {
            Some(v) => {
                e_mag = v;
            },
            None => {
                return None;
            },
        }
    }
    assert(is_decimal_text(s@));
    let ghost ev = exponent_value(exponent_part(b));
    let magnitude = match scaled_magnitude(&digits, f, e_neg, e_mag, Ghost(ev)) {
        Some(v) => v,
        None => return None,
    };
    let mag: i64 = magnitude as i64;
    if negative {
        Some(-mag)
    } else {
        Some(mag)
    }
}

} // verus!
