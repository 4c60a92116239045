use sampledb::config::PipelineConfig;
use sampledb::dataset::{chunk_records, ingest_rows};
use sampledb::decimal::parse_decimal;
use sampledb::domain::sensor::{PreprocessStats, SensorDomain, SensorRecord};
use sampledb::domain::{DataDomain, DomainError};
use sampledb::model::{Fraction, Sample};
use sampledb::preprocess::preprocess_records;
use sampledb::sample::csv_headers;
use sampledb::text::trim;

const UNIT: i64 = 1_000_000;

fn rec(id: &str, t: i64, h: Option<i64>, p: i64, v: i64, q: i64, label: Option<&str>) -> SensorRecord {
    SensorRecord {
        id: id.to_string(),
        temperature: t * UNIT,
        humidity: h.map(|x| x * UNIT),
        pressure: p * UNIT,
        vibration: v * UNIT,
        quality: q * UNIT,
        label: label.map(|s| s.to_string()),
    }
}

fn value(f: &Fraction) -> f64 {
    f.num as f64 / f.den as f64
}

fn row(fields: &[&str]) -> Vec<String> {
    fields.iter().map(|s| s.to_string()).collect()
}

#[test]
fn three_temperatures_scale_to_zero_half_one() {
    let records = vec![
        rec("a", 10, Some(1), 1, 1, 1, None),
        rec("b", 20, Some(1), 1, 1, 1, None),
        rec("c", 30, Some(1), 1, 1, 1, None),
    ];
    let stats = PreprocessStats::from_records(&records);
    assert_eq!(stats.bounds[0], (10 * UNIT as i128, 30 * UNIT as i128));
    let samples = preprocess_records::<SensorDomain>(&records);
    assert_eq!(value(&samples[0].features[0]), 0.0);
    assert_eq!(value(&samples[1].features[0]), 0.5);
    assert_eq!(value(&samples[2].features[0]), 1.0);
}

#[test]
fn missing_humidity_gets_mean_of_present() {
    let records = vec![
        rec("a", 1, Some(40), 1, 1, 1, None),
        rec("b", 2, Some(60), 1, 1, 1, None),
        rec("c", 3, None, 1, 1, 1, None),
    ];
    let stats = PreprocessStats::from_records(&records);
    // Mean of present values: 100 / 2 = 50 units.
    assert_eq!(stats.humidity_sum, 100 * UNIT as i128);
    assert_eq!(stats.humidity_scale, 2);
    let samples = preprocess_records::<SensorDomain>(&records);
    // Humidity column is 40, 60, 50 -> the third scales to 0.5.
    assert_eq!(value(&samples[2].features[1]), 0.5);
    // Temperature x humidity: 40, 120, 150 -> the third is the maximum.
    assert_eq!(value(&samples[2].features[5]), 1.0);
    assert_eq!(value(&samples[0].features[5]), 0.0);
    assert!((value(&samples[1].features[5]) - 80.0 / 110.0).abs() < 1e-12);
}

#[test]
fn no_humidity_present_imputes_zero() {
    let records = vec![rec("a", 1, None, 1, 1, 1, None), rec("b", 2, None, 1, 1, 1, None)];
    let stats = PreprocessStats::from_records(&records);
    assert_eq!(stats.humidity_sum, 0);
    assert_eq!(stats.humidity_scale, 1);
    assert_eq!(stats.bounds[1], (0, 0));
}

#[test]
fn empty_input_gives_no_samples() {
    let records: Vec<SensorRecord> = vec![];
    let samples: Vec<Sample> = preprocess_records::<SensorDomain>(&records);
    assert!(samples.is_empty());
}

#[test]
fn one_sample_per_record_in_order_within_unit_range() {
    let records = vec![
        rec("s1", 12, Some(35), 1, 3, 5, Some("cat")),
        rec("s2", 15, Some(45), 2, 4, 5, Some("dog")),
        rec("s3", 7, None, 3, 2, 5, None),
        rec("s4", 21, Some(65), 4, 5, 5, Some("bird")),
    ];
    let samples = preprocess_records::<SensorDomain>(&records);
    assert_eq!(samples.len(), records.len());
    for (s, r) in samples.iter().zip(records.iter()) {
        assert_eq!(s.id, r.id);
        assert_eq!(s.label, r.label);
        assert_eq!(s.features.len(), 7);
        for f in &s.features {
            let v = value(f);
            assert!((0.0..=1.0).contains(&v));
        }
        // Quality is 5 everywhere: a flat range scales to exactly 0.
        assert_eq!(s.features[4], Fraction::new(0, 1));
    }
}

#[test]
fn chunking_partitions_in_order() {
    let v = vec![1, 2, 3, 4, 5];
    let chunks = chunk_records(&v, 2);
    let lens: Vec<usize> = chunks.iter().map(|c| c.len()).collect();
    assert_eq!(lens, vec![2, 2, 1]);
    let flat: Vec<i32> = chunks.iter().flat_map(|c| c.iter().copied()).collect();
    assert_eq!(flat, v);
    let clamped = chunk_records(&v, 0);
    assert_eq!(clamped.len(), 5);
    let empty: Vec<i32> = vec![];
    assert!(chunk_records(&empty, 3).is_empty());
}

#[test]
fn parse_sensor_row() {
    let r = SensorDomain::parse_record(&row(&[" S001 ", "12.5", "35", "1.0", "0.30", "0.88", " cat "])).unwrap();
    assert_eq!(r.id, "S001");
    assert_eq!(r.temperature, 12_500_000);
    assert_eq!(r.humidity, Some(35_000_000));
    assert_eq!(r.pressure, 1_000_000);
    assert_eq!(r.vibration, 300_000);
    assert_eq!(r.quality, 880_000);
    assert_eq!(r.label.as_deref(), Some("cat"));
    assert_eq!(SensorDomain::name(), "sensor");
}

#[test]
fn parse_sensor_row_optional_fields() {
    let r = SensorDomain::parse_record(&row(&["S003", "7", "", "0.8", "0.25", "0.6", ""])).unwrap();
    assert_eq!(r.humidity, None);
    assert_eq!(r.label, None);
    let r = SensorDomain::parse_record(&row(&["S003", "7", "wet", "0.8", "0.25", "0.6"])).unwrap();
    assert_eq!(r.humidity, None);
    assert_eq!(r.label, None);
}

#[test]
fn parse_sensor_row_with_exponents() {
    let r = SensorDomain::parse_record(&row(&["S9", "1e3", "4.5e1", "1E0", "0.1234567", "5e-1"])).unwrap();
    assert_eq!(r.temperature, 1_000_000_000);
    assert_eq!(r.humidity, Some(45_000_000));
    assert_eq!(r.pressure, 1_000_000);
    assert_eq!(r.vibration, 123_457);
    assert_eq!(r.quality, 500_000);
}

#[test]
fn parse_sensor_row_errors() {
    match SensorDomain::parse_record(&row(&[])) {
        Err(DomainError::MissingField(n)) => assert_eq!(n, "id"),
        other => panic!("unexpected {:?}", other),
    }
    match SensorDomain::parse_record(&row(&["S1", "12", "3", "1"])) {
        Err(DomainError::MissingField(n)) => assert_eq!(n, "vibration"),
        other => panic!("unexpected {:?}", other),
    }
    match SensorDomain::parse_record(&row(&["S1", "warm", "3", "1", "1", "1"])) {
        Err(DomainError::ParseFloat(n)) => assert_eq!(n, "temperature"),
        other => panic!("unexpected {:?}", other),
    }
}

#[test]
fn ingest_accumulates_and_aborts_on_bad_row() {
    let mut records: Vec<SensorRecord> = Vec::new();
    let first = vec![row(&["a", "1", "", "1", "1", "1"]), row(&["b", "2", "3", "1", "1", "1"])];
    assert_eq!(ingest_rows::<SensorDomain>(&mut records, &first).unwrap(), 2);
    let second = vec![row(&["c", "1", "", "1", "1", "1"]), row(&["d", "x", "", "1", "1", "1"])];
    assert!(ingest_rows::<SensorDomain>(&mut records, &second).is_err());
    assert_eq!(records.len(), 2);
    assert_eq!(records[1].id, "b");
}

#[test]
fn decimal_text() {
    assert_eq!(parse_decimal("12.5"), Some(12_500_000));
    assert_eq!(parse_decimal("-0.25"), Some(-250_000));
    assert_eq!(parse_decimal("+3"), Some(3_000_000));
    assert_eq!(parse_decimal(".5"), Some(500_000));
    assert_eq!(parse_decimal("5."), Some(5_000_000));
    assert_eq!(parse_decimal("0.000001"), Some(1));
    assert_eq!(parse_decimal("1000000"), Some(1_000_000_000_000));
    assert_eq!(parse_decimal("1000000.000001"), Some(1_000_000_000_001));
    assert_eq!(parse_decimal("100000000"), Some(100_000_000_000_000));
    assert_eq!(parse_decimal("-100000000"), Some(-100_000_000_000_000));
    assert_eq!(parse_decimal("100000000.000001"), None);
    assert_eq!(parse_decimal("0.0000001"), Some(0));
    assert_eq!(parse_decimal("0.1234567"), Some(123_457));
    assert_eq!(parse_decimal("0.0000005"), Some(1));
    assert_eq!(parse_decimal("-0.0000005"), Some(-1));
    assert_eq!(parse_decimal("2.5e-6"), Some(3));
    assert_eq!(parse_decimal("1e3"), Some(1_000_000_000));
    assert_eq!(parse_decimal("1.5E+2"), Some(150_000_000));
    assert_eq!(parse_decimal("12500e-3"), Some(12_500_000));
    assert_eq!(parse_decimal("1e6"), Some(1_000_000_000_000));
    assert_eq!(parse_decimal("1e8"), Some(100_000_000_000_000));
    assert_eq!(parse_decimal("1e9"), None);
    assert_eq!(parse_decimal("1e400"), None);
    assert_eq!(parse_decimal("1e-400"), Some(0));
    assert_eq!(parse_decimal("0e99999999999999999999999"), Some(0));
    assert_eq!(parse_decimal("1e"), None);
    assert_eq!(parse_decimal("e5"), None);
    assert_eq!(parse_decimal("inf"), None);
    assert_eq!(parse_decimal("NaN"), None);
    assert_eq!(parse_decimal("."), None);
    assert_eq!(parse_decimal(""), None);
    assert_eq!(parse_decimal("-"), None);
    assert_eq!(parse_decimal("1.2.3"), None);
}

#[test]
fn trim_whitespace() {
    assert_eq!(trim("  a b \t\n"), "a b");
    assert_eq!(trim("\u{3000}x\u{a0}"), "x");
    assert_eq!(trim("   "), "");
}

#[test]
fn config_chunk_size_clamped() {
    let c = PipelineConfig::new("data".into(), "*.csv".into(), "out.parquet".into(), 0);
    assert_eq!(c.chunk_size, 1);
    let c = PipelineConfig::new("data".into(), "*.csv".into(), "out.parquet".into(), 8);
    assert_eq!(c.chunk_size, 8);
    assert_eq!(c.file_pattern, "*.csv");
}

#[test]
fn headers_of_sample_table() {
    assert_eq!(csv_headers(), vec!["id", "features", "label"]);
}

fn fixture_rows() -> Vec<Vec<String>> {
    let table = [
        ["S001", "12.5", "35.0", "1.0", "0.30", "0.88", "cat"],
        ["S002", "15.5", "45.0", "1.2", "0.40", "0.92", "dog"],
        ["S003", "7.0", "", "0.8", "0.25", "0.60", ""],
        ["S004", "21.0", "65.0", "1.4", "0.55", "0.74", "bird"],
        ["S005", "30.0", "50.0", "1.5", "0.80", "0.52", "cat"],
        ["S006", "3.0", "25.0", "0.9", "0.20", "0.48", ""],
        ["S007", "26.5", "", "1.3", "0.70", "0.82", "fox"],
        ["S008", "18.0", "58.0", "1.1", "0.33", "0.66", "dog"],
        ["S009", "8.5", "32.0", "0.95", "0.27", "0.57", ""],
        ["S010", "22.0", "68.0", "1.6", "0.62", "0.90", "bird"],
        ["S011", "10.0", "40.0", "1.05", "0.35", "0.72", "cat"],
        ["S012", "27.0", "60.0", "1.2", "0.65", "0.85", "dog"],
        ["S013", "5.0", "", "0.75", "0.18", "0.45", ""],
        ["S014", "19.5", "52.0", "1.3", "0.50", "0.78", "fox"],
        ["S015", "24.0", "66.0", "1.4", "0.73", "0.83", "bird"],
        ["S016", "14.0", "38.0", "0.98", "0.29", "0.58", ""],
        ["S017", "2.0", "20.0", "0.7", "0.15", "0.32", ""],
        ["S018", "28.0", "70.0", "1.55", "0.82", "0.95", "cat"],
        ["S019", "6.5", "28.0", "0.85", "0.24", "0.49", ""],
        ["S020", "23.0", "64.0", "1.45", "0.60", "0.88", "dog"],
    ];
    table.iter().map(|r| row(r)).collect()
}

#[test]
fn config_and_preprocess_smoke() {
    let config = PipelineConfig::new("config".into(), "*.csv".into(), "processed.csv".into(), 4);
    let mut records: Vec<SensorRecord> = Vec::new();
    ingest_rows::<SensorDomain>(&mut records, &fixture_rows()).expect("dataset loads");
    assert!(!records.is_empty(), "dataset should not be empty");
    assert_eq!(chunk_records(&records, config.chunk_size).len(), 5);

    let samples: Vec<Sample> = preprocess_records::<SensorDomain>(&records);
    assert_eq!(samples.len(), records.len());
    // S017 has the lowest temperature, S005 the highest.
    assert_eq!(value(&samples[16].features[0]), 0.0);
    assert_eq!(value(&samples[4].features[0]), 1.0);
    // S003, S007 and S013 lack humidity: all three get the same mean value.
    assert_eq!(samples[2].features[1], samples[6].features[1]);
    assert_eq!(samples[2].features[1], samples[12].features[1]);
}
