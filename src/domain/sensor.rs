//! The sensor domain: five measurements, of which humidity may be missing,
//! and two derived cross-features.
//!
//! Feature order: temperature, humidity, pressure, vibration, quality,
//! temperature x humidity, pressure x vibration.
use rayon::iter::{IndexedParallelIterator, IntoParallelRefIterator, ParallelIterator};
use vstd::prelude::*;
use vstd::string::StrSliceExecFns;
use crate::decimal::{decimal_micros, parse_decimal, MAX_MICROS};
use crate::domain::{DataDomain, DomainError};
use crate::model::{Fraction, Sample};
use crate::text::{trim, trimmed};

verus! {

/// Number of features in a sensor sample.
pub const FEATURE_COUNT: usize = 7;

/// Largest dataset that one preprocessing run accepts.
pub const MAX_RECORDS: usize = 4294967295;

/// Bound on the magnitude of any unscaled feature of a valid dataset.
pub const FEATURE_LIMIT: i128 = 42949672950000000000000000000000000000;

/// One parsed sensor row. Measurements are in millionths of a unit.
#[derive(Debug, Clone)]
pub struct SensorRecord {
    pub id: String,
    pub temperature: i64,
    pub humidity: Option<i64>,
    pub pressure: i64,
    pub vibration: i64,
    pub quality: i64,
    pub label: Option<String>,
}

pub open spec fn within_range(x: int) -> bool {
    -MAX_MICROS <= x <= MAX_MICROS
}

impl SensorRecord {
    /// Every measurement lies within the accepted range.
    pub open spec fn is_valid(&self) -> bool {
        &&& within_range(self.temperature as int)
        &&& within_range(self.pressure as int)
        &&& within_range(self.vibration as int)
        &&& within_range(self.quality as int)
        &&& match self.humidity {
            Some(h) => within_range(h as int),
            None => true,
        }
    }
}

pub open spec fn valid_dataset(rs: Seq<SensorRecord>) -> bool {
    &&& rs.len() <= MAX_RECORDS
    &&& forall|i: int| 0 <= i < rs.len() ==> (#[trigger] rs[i]).is_valid()
}

/// Number of records whose humidity is present.
pub open spec fn humidity_count(rs: Seq<SensorRecord>) -> int
    decreases rs.len(),
{
    if rs.len() == 0 {
        0
    } else {
        humidity_count(rs.drop_last()) + if rs.last().humidity is Some {
            1int
        } else {
            0int
        }
    }
}

/// Sum of the present humidity values.
pub open spec fn humidity_sum(rs: Seq<SensorRecord>) -> int
    decreases rs.len(),
{
    if rs.len() == 0 {
        0
    } else {
        humidity_sum(rs.drop_last()) + match rs.last().humidity {
            Some(h) => h as int,
            None => 0int,
        }
    }
}

/// Denominator of the humidity column: the number of present values, or 1
/// when there is none.
pub open spec fn humidity_scale(rs: Seq<SensorRecord>) -> int {
    if humidity_count(rs) == 0 {
        1
    } else {
        humidity_count(rs)
    }
}

/// Humidity of `r` multiplied by `scale`; a missing value is replaced by
/// `sum`, so that over the denominator `scale` it is the mean of the present
/// values.
pub open spec fn filled_humidity(r: SensorRecord, sum: int, scale: int) -> int {
    match r.humidity {
        Some(h) => h * scale,
        None => sum,
    }
}

/// The unscaled features of `r`. The humidity column and the
/// temperature x humidity column carry the common factor `scale`.
pub open spec fn raw_features(r: SensorRecord, sum: int, scale: int) -> Seq<int> {
    let h = filled_humidity(r, sum, scale);
    seq![
        r.temperature as int,
        h,
        r.pressure as int,
        r.vibration as int,
        r.quality as int,
        r.temperature * h,
        r.pressure * r.vibration,
    ]
}

pub open spec fn record_features(rs: Seq<SensorRecord>, i: int) -> Seq<int> {
    raw_features(rs[i], humidity_sum(rs), humidity_scale(rs))
}

/// The unscaled values of feature `k` over the whole dataset.
pub open spec fn column(rs: Seq<SensorRecord>, k: int) -> Seq<int> {
    Seq::new(rs.len(), |i: int| record_features(rs, i)[k])
}

/// Smallest element, or 0 for an empty sequence.
pub open spec fn seq_min(s: Seq<int>) -> int
    decreases s.len(),
{
    if s.len() == 0 {
        0
    } else if s.len() == 1 {
        s[0]
    } else if s.last() < seq_min(s.drop_last()) {
        s.last()
    } else {
        seq_min(s.drop_last())
    }
}

/// Largest element, or 0 for an empty sequence.
pub open spec fn seq_max(s: Seq<int>) -> int
    decreases s.len(),
{
    if s.len() == 0 {
        0
    } else if s.len() == 1 {
        s[0]
    } else if s.last() > seq_max(s.drop_last()) {
        s.last()
    } else {
        seq_max(s.drop_last())
    }
}

/// Min-max scaling of `x` against `(lo, hi)` as a fraction; a flat range
/// gives exactly zero.
pub open spec fn scaled(x: int, lo: int, hi: int) -> (int, int) {
    if hi == lo {
        (0, 1)
    } else {
        (x - lo, hi - lo)
    }
}

pub open spec fn fraction_is(f: Fraction, v: (int, int)) -> bool {
    f.num == v.0 && f.den == v.1
}

/// Feature `k` of record `i` after scaling against the dataset bounds.
pub open spec fn expected_feature(rs: Seq<SensorRecord>, i: int, k: int) -> (int, int) {
    scaled(record_features(rs, i)[k], seq_min(column(rs, k)), seq_max(column(rs, k)))
}

pub open spec fn label_view(l: Option<String>) -> Option<Seq<char>> {
    match l {
        Some(s) => Some(s@),
        None => None,
    }
}

/// `s` is the sample that preprocessing makes of record `i`.
pub open spec fn sample_of(rs: Seq<SensorRecord>, i: int, s: Sample) -> bool {
    &&& s.id@ == rs[i].id@
    &&& label_view(s.label) == label_view(rs[i].label)
    &&& s.features@.len() == FEATURE_COUNT
    &&& forall|k: int|
        0 <= k < FEATURE_COUNT ==> fraction_is(#[trigger] s.features@[k], expected_feature(rs, i, k))
}

/// `out` is the result of preprocessing `rs`: one sample per record, in order.
pub open spec fn preprocessed(rs: Seq<SensorRecord>, out: Seq<Sample>) -> bool {
    &&& out.len() == rs.len()
    &&& forall|i: int| 0 <= i < rs.len() ==> sample_of(rs, i, #[trigger] out[i])
}

proof fn lemma_seq_bounds(s: Seq<int>, b: int)
    requires
        b >= 0,
        forall|j: int| 0 <= j < s.len() ==> -b <= #[trigger] s[j] <= b,
    ensures
        -b <= seq_min(s) <= b,
        -b <= seq_max(s) <= b,
        forall|j: int| 0 <= j < s.len() ==> seq_min(s) <= #[trigger] s[j] <= seq_max(s),
    decreases s.len(),
{
    if s.len() > 1 {
        lemma_seq_bounds(s.drop_last(), b);
        assert forall|j: int| 0 <= j < s.len() implies seq_min(s) <= #[trigger] s[j] <= seq_max(
            s,
        ) by {
            if j < s.len() - 1 {
                assert(s[j] == s.drop_last()[j]);
            }
        }
    }
}

proof fn lemma_humidity_prefix(rs: Seq<SensorRecord>, i: int)
    requires
        0 <= i < rs.len(),
    ensures
        humidity_count(rs.subrange(0, i + 1)) == humidity_count(rs.subrange(0, i)) + if rs[i].humidity is Some {
            1int
        } else {
            0int
        },
        humidity_sum(rs.subrange(0, i + 1)) == humidity_sum(rs.subrange(0, i)) + match rs[i].humidity {
            Some(h) => h as int,
            None => 0int,
        },
{
    assert(rs.subrange(0, i + 1).drop_last() =~= rs.subrange(0, i));
}

/// Any valid dataset keeps its unscaled features within `FEATURE_LIMIT`.
proof fn lemma_feature_limits(r: SensorRecord, sum: int, scale: int)
    requires
        r.is_valid(),
        1 <= scale <= MAX_RECORDS,
        -MAX_MICROS * scale <= sum <= MAX_MICROS * scale,
    ensures
        forall|k: int| 0 <= k < FEATURE_COUNT ==> -FEATURE_LIMIT <= #[trigger] raw_features(r, sum, scale)[k] <= FEATURE_LIMIT,
        -MAX_MICROS * MAX_RECORDS <= filled_humidity(r, sum, scale) <= MAX_MICROS * MAX_RECORDS,
{
    let h = filled_humidity(r, sum, scale);
    let m = MAX_MICROS as int;
    let n = MAX_RECORDS as int;
    if let Some(x) = r.humidity {
        assert(-m * scale <= x * scale <= m * scale) by (nonlinear_arith)
            requires
                -m <= x <= m,
                1 <= scale,
        ;
    }
    assert(-m * n <= h <= m * n) by (nonlinear_arith)
        requires
            -m * scale <= h <= m * scale,
            1 <= scale <= n,
            m >= 0,
    ;
    let t = r.temperature as int;
    assert(-m * (m * n) <= t * h <= m * (m * n)) by (nonlinear_arith)
        requires
            -m <= t <= m,
            -m * n <= h <= m * n,
            m >= 0,
            n >= 0,
    ;
    let p = r.pressure as int;
    let v = r.vibration as int;
    assert(-m * m <= p * v <= m * m) by (nonlinear_arith)
        requires
            -m <= p <= m,
            -m <= v <= m,
    ;
    assert(m * (m * n) == FEATURE_LIMIT);
    assert(m * m <= FEATURE_LIMIT);
    assert(m * n <= FEATURE_LIMIT);
}

/// Unscaled feature `k` of `r`.
fn feature_value(r: &SensorRecord, sum: i128, scale: i128, k: usize) -> (v: i128)
    requires
        r.is_valid(),
        1 <= scale <= MAX_RECORDS,
        -MAX_MICROS * scale <= sum <= MAX_MICROS * scale,
        k < FEATURE_COUNT,
    ensures
        v == raw_features(*r, sum as int, scale as int)[k as int],
        -FEATURE_LIMIT <= v <= FEATURE_LIMIT,
{
    proof {
        lemma_feature_limits(*r, sum as int, scale as int);
    }
    let ghost fs = raw_features(*r, sum as int, scale as int);
    assert(-FEATURE_LIMIT <= fs[k as int] <= FEATURE_LIMIT);
    let h: i128 = match r.humidity {
        Some(x) => x as i128 * scale,
        None => sum,
    };
    if k == 0 {
        r.temperature as i128
    } else if k == 1 {
        h
    } else if k == 2 {
        r.pressure as i128
    } else if k == 3 {
        r.vibration as i128
    } else if k == 4 {
        r.quality as i128
    } else if k == 5 {
        r.temperature as i128 * h
    } else {
        r.pressure as i128 * r.vibration as i128
    }
}

/// Smallest and largest value; `(0, 0)` for no values.
fn min_max(values: &[i128]) -> (r: (i128, i128))
    ensures
        r.0 == seq_min(values@.map_values(|x: i128| x as int)),
        r.1 == seq_max(values@.map_values(|x: i128| x as int)),
{
    let ghost s = values@.map_values(|x: i128| x as int);
    if values.len() == 0 {
        return (0, 0);
    }
    let mut lo = values[0];
    let mut hi = values[0];
    let mut i: usize = 1;
    assert(s.subrange(0, 1).len() == 1);
    while i < values.len()
        invariant
            1 <= i <= values.len(),
            s == values@.map_values(|x: i128| x as int),
            lo == seq_min(s.subrange(0, i as int)),
            hi == seq_max(s.subrange(0, i as int)),
        decreases values.len() - i,
    {
        assert(s.subrange(0, i + 1).drop_last() =~= s.subrange(0, i as int));
        let x = values[i];
        if x < lo {
            lo = x;
        }
        if x > hi {
            hi = x;
        }
        i = i + 1;
    }
    assert(s.subrange(0, i as int) =~= s);
    (lo, hi)
}

/// Min-max scaling of `value` against `bounds`; a flat range gives zero.
fn scale(value: i128, bounds: (i128, i128)) -> (r: Fraction)
    requires
        -FEATURE_LIMIT <= value <= FEATURE_LIMIT,
        -FEATURE_LIMIT <= bounds.0 <= FEATURE_LIMIT,
        -FEATURE_LIMIT <= bounds.1 <= FEATURE_LIMIT,
    ensures
        fraction_is(r, scaled(value as int, bounds.0 as int, bounds.1 as int)),
{
    let (min, max) = bounds;
    if max == min {
        Fraction::new(0, 1)
    } else {
        Fraction::new(value - min, max - min)
    }
}

/// What the statistics pass hands to the transform pass.
pub struct PreprocessStats {
    /// Sum of the present humidity values.
    pub humidity_sum: i128,
    /// Number of present humidity values, or 1 when there is none.
    pub humidity_scale: i128,
    /// `(min, max)` of each unscaled feature, in feature order.
    pub bounds: Vec<(i128, i128)>,
}

impl PreprocessStats {
    /// The ranges that scaling and the feature computation rely on.
    pub open spec fn in_range(&self) -> bool {
        &&& 1 <= self.humidity_scale <= MAX_RECORDS
        &&& -MAX_MICROS * self.humidity_scale <= self.humidity_sum <= MAX_MICROS * self.humidity_scale
        &&& self.bounds@.len() == FEATURE_COUNT
        &&& forall|k: int|
            0 <= k < FEATURE_COUNT ==> -FEATURE_LIMIT <= (#[trigger] self.bounds@[k]).0 <= FEATURE_LIMIT
                && -FEATURE_LIMIT <= self.bounds@[k].1 <= FEATURE_LIMIT
    }

    /// The statistics of dataset `rs`.
    pub open spec fn describes(&self, rs: Seq<SensorRecord>) -> bool {
        &&& self.in_range()
        &&& self.humidity_sum == humidity_sum(rs)
        &&& self.humidity_scale == humidity_scale(rs)
        &&& forall|k: int|
            0 <= k < FEATURE_COUNT ==> (#[trigger] self.bounds@[k]).0 == seq_min(column(rs, k))
                && self.bounds@[k].1 == seq_max(column(rs, k))
    }

    /// The statistics pass: mean of the present humidity values, then the
    /// bounds of every feature over the filled dataset.
    pub fn from_records(records: &[SensorRecord]) -> (r: PreprocessStats)
        requires
            valid_dataset(records@),
        ensures
            r.describes(records@),
    {
        let ghost rs = records@;
        let mut count: i128 = 0;
        let mut sum: i128 = 0;
        let mut i: usize = 0;
        while i < records.len()
            invariant
                i <= records.len() <= MAX_RECORDS,
                rs == records@,
                valid_dataset(rs),
                count == humidity_count(rs.subrange(0, i as int)),
                sum == humidity_sum(rs.subrange(0, i as int)),
                0 <= count <= i,
                -MAX_MICROS * count <= sum <= MAX_MICROS * count,
            decreases records.len() - i,
        {
            proof {
                lemma_humidity_prefix(rs, i as int);
            }
            assert(rs[i as int].is_valid());
            if let Some(h) = records[i].humidity {
                assert(-MAX_MICROS * (count + 1) <= sum + h <= MAX_MICROS * (count + 1)
                    && -429496729500000000000000int <= sum + h <= 429496729500000000000000int) by (nonlinear_arith)
                    requires
                        -MAX_MICROS * count <= sum <= MAX_MICROS * count,
                        -MAX_MICROS <= h <= MAX_MICROS,
                        0 <= count < MAX_RECORDS,
                        MAX_MICROS == 100000000000000,
                        MAX_RECORDS == 4294967295,
                ;
                count = count + 1;
                sum = sum + h as i128;
            }
            i = i + 1;
        }
        assert(rs.subrange(0, i as int) =~= rs);
        let scale: i128 = if count == 0 {
            1
        } else {
            count
        };
        assert(-MAX_MICROS * scale <= sum <= MAX_MICROS * scale) by (nonlinear_arith)
            requires
                -MAX_MICROS * count <= sum <= MAX_MICROS * count,
                count == 0 ==> sum == 0,
                count > 0 ==> scale == count,
                scale >= 1,
        ;
        let mut bounds: Vec<(i128, i128)> = Vec::new();
        let mut k: usize = 0;
        while k < FEATURE_COUNT
            invariant
                k <= FEATURE_COUNT,
                rs == records@,
                valid_dataset(rs),
                sum == humidity_sum(rs),
                scale == humidity_scale(rs),
                1 <= scale <= MAX_RECORDS,
                -MAX_MICROS * scale <= sum <= MAX_MICROS * scale,
                bounds@.len() == k,
                forall|j: int|
                    0 <= j < k ==> (#[trigger] bounds@[j]).0 == seq_min(column(rs, j))
                        && bounds@[j].1 == seq_max(column(rs, j))
                        && -FEATURE_LIMIT <= bounds@[j].0 <= FEATURE_LIMIT
                        && -FEATURE_LIMIT <= bounds@[j].1 <= FEATURE_LIMIT,
            decreases FEATURE_COUNT - k,
        {
            let mut values: Vec<i128> = Vec::new();
            let mut i: usize = 0;
            while i < records.len()
                invariant
                    i <= records.len(),
                    k < FEATURE_COUNT,
                    rs == records@,
                    valid_dataset(rs),
                    sum == humidity_sum(rs),
                    scale == humidity_scale(rs),
                    1 <= scale <= MAX_RECORDS,
                    -MAX_MICROS * scale <= sum <= MAX_MICROS * scale,
                    values@.len() == i,
                    forall|j: int|
                        0 <= j < i ==> #[trigger] values@[j] == record_features(rs, j)[k as int],
                    forall|j: int|
                        0 <= j < i ==> -FEATURE_LIMIT <= #[trigger] values@[j] <= FEATURE_LIMIT,
                decreases records.len() - i,
            {
                assert(rs[i as int].is_valid());
                let v = feature_value(&records[i], sum, scale, k);
                values.push(v);
                i = i + 1;
            }
            let ghost col = values@.map_values(|x: i128| x as int);
            assert(col =~= column(rs, k as int));
            proof {
                lemma_seq_bounds(col, FEATURE_LIMIT as int);
            }
            let b = min_max(values.as_slice());
            bounds.push(b);
            k = k + 1;
        }
        PreprocessStats { humidity_sum: sum, humidity_scale: scale, bounds }
    }
}

/// The scaled feature vector of one record.
pub open spec fn transformed(r: SensorRecord, stats: PreprocessStats, s: Sample) -> bool {
    let fs = raw_features(r, stats.humidity_sum as int, stats.humidity_scale as int);
    &&& s.id@ == r.id@
    &&& label_view(s.label) == label_view(r.label)
    &&& s.features@.len() == FEATURE_COUNT
    &&& forall|k: int|
        0 <= k < FEATURE_COUNT ==> fraction_is(
            #[trigger] s.features@[k],
            scaled(fs[k], stats.bounds@[k].0 as int, stats.bounds@[k].1 as int),
        )
}

fn clone_label(l: &Option<String>) -> (r: Option<String>)
    ensures
        label_view(r) == label_view(*l),
{
    match l {
        Some(s) => Some(s.clone()),
        None => None,
    }
}

/// The transform pass for one record: fill, derive, scale.
pub fn transform_record(r: &SensorRecord, stats: &PreprocessStats) -> (s: Sample)
    requires
        r.is_valid(),
        stats.in_range(),
    ensures
        transformed(*r, *stats, s),
{
    let mut features: Vec<Fraction> = Vec::new();
    let mut k: usize = 0;
    while k < FEATURE_COUNT
        invariant
            k <= FEATURE_COUNT,
            r.is_valid(),
            stats.in_range(),
            features@.len() == k,
            forall|j: int|
                0 <= j < k ==> fraction_is(
                    #[trigger] features@[j],
                    scaled(
                        raw_features(*r, stats.humidity_sum as int, stats.humidity_scale as int)[j],
                        stats.bounds@[j].0 as int,
                        stats.bounds@[j].1 as int,
                    ),
                ),
        decreases FEATURE_COUNT - k,
    {
        let v = feature_value(r, stats.humidity_sum, stats.humidity_scale, k);
        let b = stats.bounds[k];
        assert(-FEATURE_LIMIT <= stats.bounds@[k as int].0 <= FEATURE_LIMIT);
        features.push(scale(v, b));
        k = k + 1;
    }
    Sample::new(r.id.clone(), features, clone_label(&r.label))
}

/// Relies on rayon's indexed parallel map: `collect_into_vec` fills the
/// vector with one result per element, in the order of the input slice.
#[verifier::external_body]
fn par_transform(records: &[SensorRecord], stats: &PreprocessStats) -> (r: Vec<Sample>)
    requires
        forall|i: int| 0 <= i < records@.len() ==> (#[trigger] records@[i]).is_valid(),
        stats.in_range(),
    ensures
        r@.len() == records@.len(),
        forall|i: int| 0 <= i < records@.len() ==> transformed(records@[i], *stats, #[trigger] r@[i]),
{
    let mut out = Vec::new();
    records.par_iter().map(|r| transform_record(r, stats)).collect_into_vec(&mut out);
    out
}

/// Statistics over the whole dataset, then a parallel per-record transform.
pub fn preprocess_sensor_records(records: &[SensorRecord]) -> (r: Vec<Sample>)
    requires
        valid_dataset(records@),
    ensures
        preprocessed(records@, r@),
{
    if records.len() == 0 {
        return Vec::new();
    }
    let stats = PreprocessStats::from_records(records);
    let out = par_transform(records, &stats);
    assert forall|i: int| 0 <= i < records@.len() implies sample_of(records@, i, #[trigger] out@[i]) by {
        assert(transformed(records@[i], stats, out@[i]));
        assert forall|k: int| 0 <= k < FEATURE_COUNT implies fraction_is(
            #[trigger] out@[i].features@[k],
            expected_feature(records@, i, k),
        ) by {
            assert(stats.bounds@[k].0 == seq_min(column(records@, k)));
        }
    }
    out
}


proof fn lemma_humidity_sum_bound(rs: Seq<SensorRecord>)
    requires
        forall|i: int| 0 <= i < rs.len() ==> (#[trigger] rs[i]).is_valid(),
    ensures
        0 <= humidity_count(rs) <= rs.len(),
        -MAX_MICROS * humidity_count(rs) <= humidity_sum(rs) <= MAX_MICROS * humidity_count(rs),
    decreases rs.len(),
{
    if rs.len() > 0 {
        let t = rs.drop_last();
        assert forall|i: int| 0 <= i < t.len() implies (#[trigger] t[i]).is_valid() by {
            assert(t[i] == rs[i]);
        }
        lemma_humidity_sum_bound(t);
        assert(rs.last() == rs[rs.len() - 1]);
        let c = humidity_count(t);
        let s = humidity_sum(t);
        if let Some(h) = rs.last().humidity {
            assert(-MAX_MICROS * (c + 1) <= s + h <= MAX_MICROS * (c + 1)) by (nonlinear_arith)
                requires
                    -MAX_MICROS * c <= s <= MAX_MICROS * c,
                    -MAX_MICROS <= h <= MAX_MICROS,
            ;
        }
    }
}

/// Every feature of every sample that preprocessing produces lies in
/// `[0, 1]`; a feature whose range over the dataset is flat is exactly 0.
pub proof fn lemma_features_in_unit_range(rs: Seq<SensorRecord>, out: Seq<Sample>)
    requires
        valid_dataset(rs),
        preprocessed(rs, out),
    ensures
        forall|i: int, k: int|
            0 <= i < out.len() && 0 <= k < FEATURE_COUNT ==> (#[trigger] out[i].features@[k]).in_unit_range(),
        forall|i: int, k: int|
            0 <= i < out.len() && 0 <= k < FEATURE_COUNT && seq_min(column(rs, k)) == seq_max(
                column(rs, k),
            ) ==> (#[trigger] out[i].features@[k]).num == 0,
{
    lemma_humidity_sum_bound(rs);
    let sum = humidity_sum(rs);
    let scale = humidity_scale(rs);
    assert(-MAX_MICROS * scale <= sum <= MAX_MICROS * scale);
    assert forall|i: int, k: int| 0 <= i < out.len() && 0 <= k < FEATURE_COUNT implies (
    #[trigger] out[i].features@[k]).in_unit_range() && (seq_min(column(rs, k)) == seq_max(
        column(rs, k),
    ) ==> out[i].features@[k].num == 0) by {
        let col = column(rs, k);
        assert forall|j: int| 0 <= j < col.len() implies -FEATURE_LIMIT <= #[trigger] col[j]
            <= FEATURE_LIMIT by {
            assert(rs[j].is_valid());
            lemma_feature_limits(rs[j], sum, scale);
        }
        lemma_seq_bounds(col, FEATURE_LIMIT as int);
        assert(col[i] == record_features(rs, i)[k]);
        assert(sample_of(rs, i, out[i]));
    }
}

/// The mean of the present humidity values as a fraction; 0 when none is
/// present.
pub open spec fn humidity_mean(rs: Seq<SensorRecord>) -> (int, int) {
    if humidity_count(rs) == 0 {
        (0, 1)
    } else {
        (humidity_sum(rs), humidity_count(rs))
    }
}

/// A record whose humidity is missing gets the mean of the present values
/// (0 when none is present), both in its humidity feature and in the
/// temperature x humidity feature. Features 1 and 5 carry the denominator
/// `humidity_scale(rs)`.
pub proof fn lemma_imputed_humidity(rs: Seq<SensorRecord>, i: int)
    requires
        0 <= i < rs.len(),
        rs[i].humidity is None,
    ensures
        record_features(rs, i)[1] * humidity_mean(rs).1 == humidity_mean(rs).0 * humidity_scale(rs),
        record_features(rs, i)[5] == rs[i].temperature * record_features(rs, i)[1],
        humidity_count(rs) == 0 ==> record_features(rs, i)[1] == 0,
{
    lemma_humidity_zero(rs);
}

proof fn lemma_humidity_zero(rs: Seq<SensorRecord>)
    ensures
        humidity_count(rs) >= 0,
        humidity_count(rs) == 0 ==> humidity_sum(rs) == 0,
    decreases rs.len(),
{
    if rs.len() > 0 {
        lemma_humidity_zero(rs.drop_last());
    }
}


/// Field `i` of a row, trimmed, if the row has it.
pub open spec fn field_text(row: Seq<Seq<char>>, i: int) -> Option<Seq<char>> {
    if 0 <= i < row.len() {
        Some(trimmed(row[i]))
    } else {
        None
    }
}

/// The error that required numeric field `i`, called `name`, gives: missing
/// (`true`) or not a number (`false`).
pub open spec fn required_error(row: Seq<Seq<char>>, i: int, name: Seq<char>) -> Option<
    (bool, Seq<char>),
> {
    match field_text(row, i) {
        None => Some((true, name)),
        Some(t) => if decimal_micros(t) is None {
            Some((false, name))
        } else {
            None
        },
    }
}

pub open spec fn required_value(row: Seq<Seq<char>>, i: int) -> int {
    decimal_micros(field_text(row, i).unwrap()).unwrap()
}

/// An optional numeric field: absent, blank or not a number reads as missing.
pub open spec fn optional_value(row: Seq<Seq<char>>, i: int) -> Option<int> {
    match field_text(row, i) {
        Some(t) => if t.len() == 0 {
            None
        } else {
            decimal_micros(t)
        },
        None => None,
    }
}

pub open spec fn row_label(row: Seq<Seq<char>>) -> Option<Seq<char>> {
    match field_text(row, 6) {
        Some(t) => if t.len() == 0 {
            None
        } else {
            Some(t)
        },
        None => None,
    }
}

/// The first error of a row, fields taken in order.
pub open spec fn row_error(row: Seq<Seq<char>>) -> Option<(bool, Seq<char>)> {
    if row.len() == 0 {
        Some((true, "id"@))
    } else if required_error(row, 1, "temperature"@) is Some {
        required_error(row, 1, "temperature"@)
    } else if required_error(row, 3, "pressure"@) is Some {
        required_error(row, 3, "pressure"@)
    } else if required_error(row, 4, "vibration"@) is Some {
        required_error(row, 4, "vibration"@)
    } else if required_error(row, 5, "quality"@) is Some {
        required_error(row, 5, "quality"@)
    } else {
        None
    }
}

pub open spec fn error_view(e: DomainError) -> (bool, Seq<char>) {
    match e {
        DomainError::MissingField(n) => (true, n@),
        DomainError::ParseFloat(n) => (false, n@),
    }
}

pub open spec fn opt_int(o: Option<i64>) -> Option<int> {
    match o {
        Some(v) => Some(v as int),
        None => None,
    }
}

/// `r` is what parsing the sensor row `row` gives.
pub open spec fn row_parses_to(row: Seq<Seq<char>>, r: Result<SensorRecord, DomainError>) -> bool {
    match r {
        Ok(rec) => {
            &&& row_error(row) is None
            &&& rec.id@ == trimmed(row[0])
            &&& rec.temperature == required_value(row, 1)
            &&& opt_int(rec.humidity) == optional_value(row, 2)
            &&& rec.pressure == required_value(row, 3)
            &&& rec.vibration == required_value(row, 4)
            &&& rec.quality == required_value(row, 5)
            &&& label_view(rec.label) == row_label(row)
            &&& rec.is_valid()
        },
        Err(e) => row_error(row) == Some(error_view(e)),
    }
}

fn field(row: &Vec<String>, i: usize) -> (r: Option<&str>)
    ensures
        match r {
            Some(s) => i < row@.len() && s@ == row@[i as int]@,
            None => i >= row@.len(),
        },
{
    if i < row.len() {
        Some(row[i].as_str())
    } else {
        None
    }
}

/// A required numeric field: missing or not a number is an error.
fn parse_required(field: Option<&str>, name: &'static str) -> (r: Result<i64, DomainError>)
    ensures
        match field {
            None => r is Err && error_view(r->Err_0) == (true, name@),
            Some(f) => match decimal_micros(trimmed(f@)) {
                Some(v) => r == Ok::<i64, DomainError>(v as i64) && within_range(v),
                None => r is Err && error_view(r->Err_0) == (false, name@),
            },
        },
{
    match field {
        None => Err(DomainError::MissingField(name)),
        Some(f) => match parse_decimal(trim(f)) {
            Some(v) => Ok(v),
            None => Err(DomainError::ParseFloat(name.to_owned())),
        },
    }
}

/// An optional numeric field: absent, blank or not a number is missing.
fn parse_optional(field: Option<&str>) -> (r: Option<i64>)
    ensures
        match field {
            None => r is None,
            Some(f) => opt_int(r) == if trimmed(f@).len() == 0 {
                None
            } else {
                decimal_micros(trimmed(f@))
            },
        },
        match r {
            Some(v) => within_range(v as int),
            None => true,
        },
{
    match field {
        None => None,
        Some(f) => {
            let t = trim(f);
            if t.unicode_len() == 0 {
                None
            } else {
                parse_decimal(t)
            }
        },
    }
}

/// The sensor domain.
pub struct SensorDomain;

impl DataDomain for SensorDomain {
    type RawRecord = SensorRecord;

    open spec fn parses_to(row: Seq<Seq<char>>, r: Result<SensorRecord, DomainError>) -> bool {
        row_parses_to(row, r)
    }

    open spec fn accepts(records: Seq<SensorRecord>) -> bool {
        valid_dataset(records)
    }

    open spec fn preprocessed(records: Seq<SensorRecord>, out: Seq<Sample>) -> bool {
        preprocessed(records, out)
    }

    fn name() -> &'static str {
        "sensor"
    }

    /// Fields: id, temperature, humidity (optional), pressure, vibration,
    /// quality, label (optional).
    fn parse_record(row: &Vec<String>) -> (r: Result<SensorRecord, DomainError>) {
        let ghost rv = row@.map_values(|s: String| s@);
        if row.len() == 0 {
            return Err(DomainError::MissingField("id"));
        }
        let id = trim(row[0].as_str()).to_owned();
        let temperature = match parse_required(field(row, 1), "temperature") {
            Ok(v) => v,
            Err(e) => return Err(e),
        };
        let humidity = parse_optional(field(row, 2));
        let pressure = match parse_required(field(row, 3), "pressure") {
            Ok(v) => v,
            Err(e) => return Err(e),
        };
        let vibration = match parse_required(field(row, 4), "vibration") {
            Ok(v) => v,
            Err(e) => return Err(e),
        };
        let quality = match parse_required(field(row, 5), "quality") {
            Ok(v) => v,
            Err(e) => return Err(e),
        };
        let label = match field(row, 6) {
            Some(s) => {
                let t = trim(s);
                if t.unicode_len() == 0 {
                    None
                } else {
                    Some(t.to_owned())
                }
            },
            None => None,
        };
        Ok(SensorRecord { id, temperature, humidity, pressure, vibration, quality, label })
    }

    fn preprocess(records: &[SensorRecord]) -> (r: Vec<Sample>) {
        preprocess_sensor_records(records)
    }
}

} // verus!
