//! Text form of samples: one row of three fields per sample — the id, the
//! features as `num/den` items each followed by a space, and the label
//! after a ':' (the field is empty for none).
use vstd::prelude::*;
use vstd::string::{StrSliceExecFns, StringExecFns};
use crate::decimal::{all_digits, digit_value, digits_value, is_digit, lemma_digits_prefix};
use crate::model::{Fraction, Sample};
use crate::DbError;

verus! {

/// Column names of the sample table.
pub fn csv_headers() -> (r: Vec<&'static str>)
    ensures
        r@.len() == 3,
        r@[0]@ == "id"@,
        r@[1]@ == "features"@,
        r@[2]@ == "label"@,
{
    vec!["id", "features", "label"]
}

pub open spec fn digit_char(d: int) -> char {
    ('0' as int + d) as char
}

/// Decimal digits of `n`, most significant first, without leading zeros.
pub open spec fn nat_text(n: nat) -> Seq<char>
    decreases n,
{
    if n < 10 {
        seq![digit_char(n as int)]
    } else {
        nat_text(n / 10).push(digit_char(n as int % 10))
    }
}

/// Decimal text of `n`, with a leading '-' when negative.
pub open spec fn int_text(n: int) -> Seq<char> {
    if n < 0 {
        seq!['-'] + nat_text((-n) as nat)
    } else {
        nat_text(n as nat)
    }
}

pub open spec fn fraction_text(f: Fraction) -> Seq<char> {
    int_text(f.num as int) + seq!['/'] + int_text(f.den as int)
}

/// Each feature as `num/den` followed by one space.
pub open spec fn features_text(fs: Seq<Fraction>) -> Seq<char>
    decreases fs.len(),
{
    if fs.len() == 0 {
        Seq::empty()
    } else {
        fraction_text(fs[0]) + seq![' '] + features_text(fs.drop_first())
    }
}

/// A label is written after a ':', so that an empty label differs from none.
pub open spec fn label_text(l: Option<String>) -> Seq<char> {
    match l {
        Some(s) => seq![':'] + s@,
        None => Seq::empty(),
    }
}

proof fn lemma_nat_text(n: nat)
    ensures
        all_digits(nat_text(n)),
        digits_value(nat_text(n)) == n,
        nat_text(n).len() >= 1,
    decreases n,
{
    let d = n as int % 10;
    assert(digit_value(digit_char(d)) == d);
    assert(is_digit(digit_char(d)));
    if n < 10 {
        assert(nat_text(n).drop_last() =~= Seq::<char>::empty());
        assert(nat_text(n).last() == digit_char(d));
        assert(digits_value(nat_text(n)) == digits_value(Seq::<char>::empty()) * 10 + d);
    } else {
        lemma_nat_text(n / 10);
        let t = nat_text(n);
        assert(t.last() == digit_char(d));
        assert(t.drop_last() =~= nat_text(n / 10));
        assert(digits_value(t) == digits_value(nat_text(n / 10)) * 10 + d);
        assert((n / 10) as int * 10 + d == n) by (nonlinear_arith)
            requires
                d == n as int % 10,
        ;
        assert(t.drop_last() =~= nat_text(n / 10));
        assert forall|i: int| 0 <= i < t.len() implies is_digit(#[trigger] t[i]) by {
            if i < t.len() - 1 {
                assert(t[i] == nat_text(n / 10)[i]);
            }
        }
    }
}

proof fn lemma_int_text_chars(n: int)
    ensures
        forall|i: int| 0 <= i < int_text(n).len() ==> #[trigger] int_text(n)[i] != '/' && int_text(n)[i] != ' ',
        int_text(n).len() >= 1,
{
    let m: nat = if n < 0 {
        (-n) as nat
    } else {
        n as nat
    };
    lemma_nat_text(m);
    let t = int_text(n);
    assert forall|i: int| 0 <= i < t.len() implies #[trigger] t[i] != '/' && t[i] != ' ' by {
        if n < 0 {
            if i > 0 {
                assert(t[i] == nat_text(m)[i - 1]);
                assert(is_digit(nat_text(m)[i - 1]));
            }
        } else {
            assert(is_digit(nat_text(m)[i]));
        }
    }
}

fn digit_str(d: u128) -> (r: &'static str)
    requires
        d < 10,
    ensures
        r@ == seq![digit_char(d as int)],
{
    proof {
        reveal_strlit("0");
        reveal_strlit("1");
        reveal_strlit("2");
        reveal_strlit("3");
        reveal_strlit("4");
        reveal_strlit("5");
        reveal_strlit("6");
        reveal_strlit("7");
        reveal_strlit("8");
        reveal_strlit("9");
    }
    if d == 0 {
        "0"
    } else if d == 1 {
        "1"
    } else if d == 2 {
        "2"
    } else if d == 3 {
        "3"
    } else if d == 4 {
        "4"
    } else if d == 5 {
        "5"
    } else if d == 6 {
        "6"
    } else if d == 7 {
        "7"
    } else if d == 8 {
        "8"
    } else {
        "9"
    }
}

fn write_nat(out: &mut String, n: u128)
    ensures
        final(out)@ == old(out)@ + nat_text(n as nat),
    decreases n,
{
    if n >= 10 {
        write_nat(out, n / 10);
    }
    out.append(digit_str(n % 10));
    proof {
        if n >= 10 {
            assert(old(out)@ + nat_text((n / 10) as nat) + seq![digit_char((n % 10) as int)] =~= old(out)@
                + nat_text(n as nat));
        } else {
            assert(nat_text(n as nat) == seq![digit_char(n as int)]);
        }
    }
}

/// Appends the decimal text of `n`.
fn write_int(out: &mut String, n: i128)
    ensures
        final(out)@ == old(out)@ + int_text(n as int),
{
    if n < 0 {
        proof {
            reveal_strlit("-");
        }
        out.append("-");
        let m: u128 = (-(n + 1)) as u128 + 1;
        write_nat(out, m);
        assert(old(out)@ + seq!['-'] + nat_text(m as nat) =~= old(out)@ + int_text(n as int));
    } else {
        write_nat(out, n as u128);
    }
}


/// Largest positive value of an `i128`.
pub const MAX_MAGNITUDE: i128 = 170141183460469231731687303715884105727;

/// Largest magnitude of an `i128` with the given sign.
pub open spec fn magnitude_limit(neg: bool) -> int {
    if neg {
        MAX_MAGNITUDE + 1
    } else {
        MAX_MAGNITUDE as int
    }
}

/// The integer that a text denotes: optional '-', then at least one digit,
/// within the range of an `i128`.
pub open spec fn int_of_text(t: Seq<char>) -> Option<int> {
    let neg = t.len() > 0 && t[0] == '-';
    let d = if neg {
        t.drop_first()
    } else {
        t
    };
    if d.len() > 0 && all_digits(d) && digits_value(d) <= magnitude_limit(neg) {
        Some(
            if neg {
                -digits_value(d)
            } else {
                digits_value(d)
            },
        )
    } else {
        None
    }
}

/// Position of the first `c` in `t`, or its length when it has none.
pub open spec fn find_char(t: Seq<char>, c: char) -> int
    decreases t.len(),
{
    if t.len() == 0 {
        0
    } else if t[0] == c {
        0
    } else {
        1 + find_char(t.drop_first(), c)
    }
}

/// Reads `num/den ` items from the front of `t` until it is used up.
pub open spec fn parse_features(t: Seq<char>) -> Option<Seq<Fraction>>
    decreases t.len(),
{
    if t.len() == 0 {
        Some(Seq::empty())
    } else {
        let i = find_char(t, '/');
        let j = find_char(t, ' ');
        if 0 <= i < j < t.len() {
            match (int_of_text(t.subrange(0, i)), int_of_text(t.subrange(i + 1, j))) {
                (Some(n), Some(d)) => match parse_features(t.subrange(j + 1, t.len() as int)) {
                    Some(rest) => Some(seq![Fraction { num: n as i128, den: d as i128 }] + rest),
                    None => None,
                },
                _ => None,
            }
        } else {
            None
        }
    }
}

proof fn lemma_find_char(t: Seq<char>, c: char, k: int)
    requires
        0 <= k <= t.len(),
        forall|j: int| 0 <= j < k ==> t[j] != c,
        k == t.len() || t[k] == c,
    ensures
        find_char(t, c) == k,
    decreases k,
{
    if k > 0 {
        lemma_find_char(t.drop_first(), c, k - 1);
    }
}

proof fn lemma_int_round_trip(n: int)
    requires
        -MAX_MAGNITUDE - 1 <= n <= MAX_MAGNITUDE,
    ensures
        int_of_text(int_text(n)) == Some(n),
{
    let m: nat = if n < 0 {
        (-n) as nat
    } else {
        n as nat
    };
    lemma_nat_text(m);
    let t = int_text(n);
    if n < 0 {
        assert(t.drop_first() =~= nat_text(m));
    } else {
        assert(is_digit(nat_text(m)[0]));
    }
}

proof fn lemma_features_round_trip(fs: Seq<Fraction>)
    ensures
        parse_features(features_text(fs)) == Some(fs),
    decreases fs.len(),
{
    if fs.len() > 0 {
        let f = fs[0];
        let rest = fs.drop_first();
        lemma_features_round_trip(rest);
        let a = int_text(f.num as int);
        let b = int_text(f.den as int);
        let t = features_text(fs);
        let tail = features_text(rest);
        assert(t =~= a + seq!['/'] + b + seq![' '] + tail);
        lemma_int_text_chars(f.num as int);
        lemma_int_text_chars(f.den as int);
        let i = a.len() as int;
        let j = (a.len() + 1 + b.len()) as int;
        lemma_find_char(t, '/', i);
        assert forall|x: int| 0 <= x < j implies t[x] != ' ' by {
            if x < i {
                assert(t[x] == a[x]);
            } else if x > i {
                assert(t[x] == b[x - i - 1]);
            }
        }
        lemma_find_char(t, ' ', j);
        assert(t.subrange(0, i) =~= a);
        assert(t.subrange(i + 1, j) =~= b);
        assert(t.subrange(j + 1, t.len() as int) =~= tail);
        lemma_int_round_trip(f.num as int);
        lemma_int_round_trip(f.den as int);
        assert(seq![Fraction { num: f.num, den: f.den }] + rest =~= fs);
    }
}


proof fn lemma_features_text_push(fs: Seq<Fraction>, f: Fraction)
    ensures
        features_text(fs.push(f)) == features_text(fs) + fraction_text(f) + seq![' '],
    decreases fs.len(),
{
    if fs.len() == 0 {
        assert(fs.push(f).drop_first() =~= Seq::<Fraction>::empty());
        assert(fs.push(f)[0] == f);
        assert(features_text(Seq::<Fraction>::empty()) == Seq::<char>::empty());
        assert(features_text(fs.push(f)) =~= features_text(fs) + fraction_text(f) + seq![' ']);
    } else {
        assert(fs.push(f).drop_first() =~= fs.drop_first().push(f));
        assert(fs.push(f)[0] == fs[0]);
        lemma_features_text_push(fs.drop_first(), f);
        assert(features_text(fs.push(f)) =~= features_text(fs) + fraction_text(f) + seq![' ']);
    }
}

fn write_features(out: &mut String, fs: &Vec<Fraction>)
    ensures
        final(out)@ == old(out)@ + features_text(fs@),
{
    let mut i: usize = 0;
    while i < fs.len()
        invariant
            i <= fs@.len(),
            out@ == old(out)@ + features_text(fs@.subrange(0, i as int)),
        decreases fs@.len() - i,
    {
        let f = fs[i];
        proof {
            assert(fs@.subrange(0, i + 1) =~= fs@.subrange(0, i as int).push(f));
            lemma_features_text_push(fs@.subrange(0, i as int), f);
        }
        let ghost before = out@;
        write_int(out, f.num);
        out.append("/");
        write_int(out, f.den);
        out.append(" ");
        proof {
            reveal_strlit("/");
            reveal_strlit(" ");
        }
        assert(out@ =~= before + fraction_text(f) + seq![' ']);
        assert(out@ =~= old(out)@ + features_text(fs@.subrange(0, i + 1)));
        i = i + 1;
    }
    assert(fs@.subrange(0, i as int) =~= fs@);
}

/// The three fields of a sample: id, features, label.
pub open spec fn record_text(s: Sample) -> Seq<Seq<char>> {
    seq![s.id@, features_text(s.features@), label_text(s.label)]
}

/// Sample → row of text fields.
pub fn sample_to_record(s: &Sample) -> (r: Vec<String>)
    ensures
        r@.map_values(|x: String| x@) == record_text(*s),
{
    let mut feats = String::new();
    write_features(&mut feats, &s.features);
    let label = match &s.label {
        Some(l) => {
            proof {
                reveal_strlit(":");
            }
            let mut t = String::new();
            t.append(":");
            t.append(l.as_str());
            assert(t@ =~= seq![':'] + l@);
            t
        },
        None => String::new(),
    };
    assert(label@ =~= label_text(s.label));
    let r = vec![s.id.clone(), feats, label];
    assert(r@.map_values(|x: String| x@) =~= record_text(*s));
    r
}

/// Reads the integer written in `cs` between `from` and `to`.
fn read_int(cs: &Vec<char>, from: usize, to: usize) -> (r: Option<i128>)
    requires
        from <= to <= cs@.len(),
    ensures
        match r {
            Some(v) => int_of_text(cs@.subrange(from as int, to as int)) == Some(v as int),
            None => int_of_text(cs@.subrange(from as int, to as int)) is None,
        },
{
    let ghost t = cs@.subrange(from as int, to as int);
    let neg = from < to && cs[from] == '-';
    let start: usize = if neg {
        from + 1
    } else {
        from
    };
    let ghost d = cs@.subrange(start as int, to as int);
    assert(t.len() > 0 ==> t[0] == cs@[from as int]);
    assert(neg == (t.len() > 0 && t[0] == '-'));
    assert(d =~= if neg {
        t.drop_first()
    } else {
        t
    });
    if start == to {
        return None;
    }
    let limit: u128 = if neg {
        MAX_MAGNITUDE as u128 + 1
    } else {
        MAX_MAGNITUDE as u128
    };
    let mut acc: u128 = 0;
    let mut k: usize = start;
    while k < to
        invariant
            start <= k <= to <= cs@.len(),
            d == cs@.subrange(start as int, to as int),
            t == cs@.subrange(from as int, to as int),
            d == if neg {
                t.drop_first()
            } else {
                t
            },
            neg == (t.len() > 0 && t[0] == '-'),
            all_digits(d.subrange(0, k - start)),
            acc == digits_value(d.subrange(0, k - start)),
            limit == magnitude_limit(neg),
            0 <= acc <= limit,
        decreases to - k,
    {
        let c = cs[k];
        if !('0' <= c && c <= '9') {
            assert(!is_digit(d[k - start]));
            assert(!all_digits(d));
            assert(int_of_text(t) is None);
            return None;
        }
        let dv = (c as u32 - '0' as u32) as u128;
        assert(d.subrange(0, k - start + 1).drop_last() =~= d.subrange(0, k - start));
        if acc > (limit - dv) / 10 {
            proof {
                assert(acc * 10 + dv > limit) by (nonlinear_arith)
                    requires
                        acc > (limit - dv) / 10,
                        0 <= dv <= 9,
                ;
                if all_digits(d) {
                    lemma_digits_prefix(d, k - start + 1);
                }
            }
            return None;
        }
        assert(acc * 10 + dv <= limit) by (nonlinear_arith)
            requires
                acc <= (limit - dv) / 10,
                0 <= dv <= 9,
        ;
        acc = acc * 10 + dv;
        k = k + 1;
    }
    assert(d.subrange(0, k - start) =~= d);
    if neg {
        if acc == limit {
            Some(i128::MIN)
        } else {
            Some(-(acc as i128))
        }
    } else {
        Some(acc as i128)
    }
}

/// Position of the first `c` in `cs` at or after `from`, or `cs.len()`.
fn find_from(cs: &Vec<char>, from: usize, c: char) -> (r: usize)
    requires
        from <= cs@.len(),
    ensures
        from <= r <= cs@.len(),
        r - from == find_char(cs@.subrange(from as int, cs@.len() as int), c),
{
    let mut k: usize = from;
    while k < cs.len() && cs[k] != c
        invariant
            from <= k <= cs@.len(),
            forall|j: int| from <= j < k ==> cs@[j] != c,
        decreases cs@.len() - k,
    {
        k = k + 1;
    }
    proof {
        lemma_find_char(cs@.subrange(from as int, cs@.len() as int), c, k - from);
    }
    k
}

/// Reads a features field.
pub fn read_features(t: &str) -> (r: Option<Vec<Fraction>>)
    ensures
        match r {
            Some(v) => parse_features(t@) == Some(v@),
            None => parse_features(t@) is None,
        },
{
    let cs = crate::text::chars_of(t);
    let n = cs.len();
    let mut out: Vec<Fraction> = Vec::new();
    let mut pos: usize = 0;
    assert(cs@.subrange(0, n as int) =~= cs@);
    while pos < n
        invariant
            pos <= n == cs@.len(),
            cs@ == t@,
            parse_features(t@) == match parse_features(cs@.subrange(pos as int, n as int)) {
                Some(rest) => Some(out@ + rest),
                None => None::<Seq<Fraction>>,
            },
        decreases n - pos,
    {
        let ghost rest = cs@.subrange(pos as int, n as int);
        let i = find_from(&cs, pos, '/');
        let j = find_from(&cs, pos, ' ');
        if !(i < j && j < n) {
            return None;
        }
        assert(rest.subrange(0, i - pos) =~= cs@.subrange(pos as int, i as int));
        assert(rest.subrange(i - pos + 1, j - pos) =~= cs@.subrange(i + 1, j as int));
        assert(rest.subrange(j - pos + 1, rest.len() as int) =~= cs@.subrange(j + 1, n as int));
        let num = match read_int(&cs, pos, i) {
            Some(v) => v,
            None => return None,
        };
        let den = match read_int(&cs, i + 1, j) {
            Some(v) => v,
            None => return None,
        };
        let ghost before = out@;
        out.push(Fraction { num, den });
        proof {
            let tail = cs@.subrange(j + 1, n as int);
            match parse_features(tail) {
                Some(r2) => {
                    assert(before + (seq![Fraction { num, den }] + r2) =~= out@ + r2);
                },
                None => {},
            }
        }
        pos = j + 1;
    }
    assert(cs@.subrange(pos as int, n as int) =~= Seq::<char>::empty());
    assert(out@ + Seq::<Fraction>::empty() =~= out@);
    Some(out)
}

/// Field `i` of a row, or the empty text.
pub open spec fn field_or_empty(fields: Seq<Seq<char>>, i: int) -> Seq<char> {
    if 0 <= i < fields.len() {
        fields[i]
    } else {
        Seq::empty()
    }
}

/// A label field: empty for none, else the text after a leading ':' (or the
/// whole text when it has no ':' in front).
pub open spec fn label_of_text(t: Seq<char>) -> Option<Seq<char>> {
    if t.len() == 0 {
        None
    } else if t[0] == ':' {
        Some(t.drop_first())
    } else {
        Some(t)
    }
}

/// What a row reads as: id, features and label (none when empty); `None`
/// when the features field is not in the text form.
pub open spec fn sample_of_record(fields: Seq<Seq<char>>) -> Option<
    (Seq<char>, Seq<Fraction>, Option<Seq<char>>),
> {
    match parse_features(field_or_empty(fields, 1)) {
        Some(fs) => Some(
            (
                field_or_empty(fields, 0),
                fs,
                label_of_text(field_or_empty(fields, 2)),
            ),
        ),
        None => None,
    }
}

pub open spec fn sample_parts(s: Sample) -> (Seq<char>, Seq<Fraction>, Option<Seq<char>>) {
    (
        s.id@,
        s.features@,
        match s.label {
            Some(l) => Some(l@),
            None => None,
        },
    )
}

fn field_str(fields: &Vec<String>, i: usize) -> (r: &str)
    ensures
        r@ == field_or_empty(fields@.map_values(|x: String| x@), i as int),
{
    if i < fields.len() {
        fields[i].as_str()
    } else {
        proof {
            reveal_strlit("");
        }
        ""
    }
}

/// Row of text fields → sample. A features field that is not in the text
/// form is an error naming it.
pub fn record_to_sample(fields: &Vec<String>) -> (r: Result<Sample, DbError>)
    ensures
        match r {
            Ok(s) => sample_of_record(fields@.map_values(|x: String| x@)) == Some(sample_parts(s)),
            Err(e) => sample_of_record(fields@.map_values(|x: String| x@)) is None && (
            e matches DbError::ParseFloat(t) && t@ == field_or_empty(
                fields@.map_values(|x: String| x@),
                1,
            )),
        },
{
    let id = field_str(fields, 0).to_owned();
    let feats = field_str(fields, 1);
    let label_text = field_str(fields, 2);
    let len = label_text.unicode_len();
    let label = if len == 0 {
        None
    } else if label_text.get_char(0) == ':' {
        let rest = label_text.substring_char(1, len);
        assert(rest@ =~= label_text@.drop_first());
        Some(rest.to_owned())
    } else {
        Some(label_text.to_owned())
    };
    match read_features(feats) {
        Some(features) => Ok(Sample { id, features, label }),
        None => Err(DbError::ParseFloat(feats.to_owned())),
    }
}

/// Writing a sample as text and reading it back gives the same id, the same
/// features in order and the same label, an absent or empty one included.
pub proof fn lemma_record_round_trip(s: Sample)
    ensures
        sample_of_record(record_text(s)) == Some(sample_parts(s)),
{
    lemma_features_round_trip(s.features@);
    if let Some(l) = s.label {
        assert((seq![':'] + l@).drop_first() =~= l@);
    }
}

/// The round trip for a whole sequence of samples, in order.
pub proof fn lemma_samples_round_trip(samples: Seq<Sample>)
    ensures
        samples.map_values(|s: Sample| sample_of_record(record_text(s))) == samples.map_values(
            |s: Sample| Some(sample_parts(s)),
        ),
{
    assert forall|i: int| 0 <= i < samples.len() implies sample_of_record(record_text(samples[i]))
        == Some(sample_parts(#[trigger] samples[i])) by {
        lemma_record_round_trip(samples[i]);
    }
    assert(samples.map_values(|s: Sample| sample_of_record(record_text(s))) =~= samples.map_values(
        |s: Sample| Some(sample_parts(s)),
    ));
}

} // verus!
