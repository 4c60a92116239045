use sampledb::model::{Fraction, Sample};
use sampledb::pattern::{check_pattern, expand_paths, matches_pattern, PatternError};
use sampledb::sample::{read_features, record_to_sample, sample_to_record};
use sampledb::DbError;

fn f(num: i128, den: i128) -> Fraction {
    Fraction::new(num, den)
}

#[test]
fn sample_text_round_trip() {
    let samples = vec![
        Sample::new("S1".to_string(), vec![f(1, 2), f(-3, 4), f(0, 1)], Some("cat".to_string())),
        Sample::new("S2".to_string(), vec![f(i128::MAX, 1), f(-i128::MAX, 7)], None),
        Sample::new("S3".to_string(), vec![], None),
        Sample::new("S4".to_string(), vec![f(i128::MIN, i128::MIN)], Some(String::new())),
        Sample::new("S5".to_string(), vec![f(i128::MIN, 1)], Some(":x".to_string())),
    ];
    for s in &samples {
        let fields = sample_to_record(s);
        let back = record_to_sample(&fields).unwrap();
        assert_eq!(back.id, s.id);
        assert_eq!(back.features, s.features);
        assert_eq!(back.label, s.label);
    }
}

#[test]
fn sample_text_layout() {
    let s = Sample::new("S1".to_string(), vec![f(1, 2), f(-30, 4)], None);
    assert_eq!(sample_to_record(&s), vec!["S1".to_string(), "1/2 -30/4 ".to_string(), String::new()]);
    let s = Sample::new("S2".to_string(), vec![], Some("cat".to_string()));
    assert_eq!(sample_to_record(&s)[2], ":cat");
    let s = Sample::new("S3".to_string(), vec![], Some(String::new()));
    assert_eq!(sample_to_record(&s)[2], ":");
    let plain = record_to_sample(&vec!["S4".to_string(), String::new(), "dog".to_string()]).unwrap();
    assert_eq!(plain.label.as_deref(), Some("dog"));
}

#[test]
fn unreadable_features_are_an_error() {
    let fields = vec!["S1".to_string(), "1/x ".to_string(), "a".to_string()];
    match record_to_sample(&fields) {
        Err(DbError::ParseFloat(t)) => assert_eq!(t, "1/x "),
        other => panic!("unexpected {:?}", other),
    }
    assert!(read_features("1/2").is_none());
    assert!(read_features("1 2 ").is_none());
    assert!(read_features("170141183460469231731687303715884105728/1 ").is_none());
    assert!(read_features("1/-170141183460469231731687303715884105729 ").is_none());
    assert_eq!(read_features("-170141183460469231731687303715884105728/1 ").unwrap(), vec![f(i128::MIN, 1)]);
    assert_eq!(read_features("").unwrap(), vec![]);
    match expand_paths("*.csv", &vec![]) {
        Ok(v) => assert!(v.is_empty()),
        Err(e) => panic!("unexpected {:?}", e),
    }
    let missing = record_to_sample(&vec!["only".to_string()]).unwrap();
    assert_eq!(missing.id, "only");
    assert!(missing.features.is_empty());
    assert_eq!(missing.label, None);
}

#[test]
fn file_patterns() {
    assert!(matches_pattern("*.csv", "a.csv"));
    assert!(matches_pattern("data?.csv", "data1.csv"));
    assert!(!matches_pattern("data?.csv", "data12.csv"));
    assert!(matches_pattern("*", ""));
    assert!(!matches_pattern("*.csv", "a.txt"));
    let names = vec!["b.csv".to_string(), "a.txt".to_string(), "a.csv".to_string()];
    assert_eq!(expand_paths("*.csv", &names).unwrap(), vec!["b.csv".to_string(), "a.csv".to_string()]);
    assert!(check_pattern("*.csv"));
    assert!(!check_pattern("[ab].csv"));
    match expand_paths("[ab].csv", &names) {
        Err(PatternError::Malformed(p)) => assert_eq!(p, "[ab].csv"),
        other => panic!("unexpected {:?}", other),
    }
}
