use elevator_sim::manifest::{parse_manifest, parse_usize, records_in_range, Record};

#[test]
fn parses_a_well_formed_manifest() {
    let text = b"2\n4 ana 2\n0 bo 3\n";
    let recs = parse_manifest(text).expect("well-formed manifest");
    assert_eq!(recs.len(), 2);
    assert_eq!(recs[0].destination, 4);
    assert_eq!(recs[0].name, b"ana".to_vec());
    assert_eq!(recs[0].start, 2);
    assert_eq!(recs[1].destination, 0);
    assert_eq!(recs[1].name, b"bo".to_vec());
    assert_eq!(recs[1].start, 3);
}

#[test]
fn tolerates_extra_whitespace_between_fields() {
    let text = b" 1 \n  3\tcarla   0\n";
    let recs = parse_manifest(text).expect("extra blanks are still three fields");
    assert_eq!(recs.len(), 1);
    assert_eq!(recs[0].destination, 3);
    assert_eq!(recs[0].name, b"carla".to_vec());
    assert_eq!(recs[0].start, 0);
}

#[test]
fn ignores_lines_beyond_the_count() {
    let text = b"1\n2 dora 0\nthis line is ignored\n";
    let recs = parse_manifest(text).expect("count says one record");
    assert_eq!(recs.len(), 1);
    assert_eq!(recs[0].name, b"dora".to_vec());
}

#[test]
fn rejects_empty_text() {
    assert!(parse_manifest(b"").is_none());
}

#[test]
fn rejects_non_numeric_count() {
    assert!(parse_manifest(b"two\n1 ana 0\n").is_none());
}

#[test]
fn rejects_missing_record_lines() {
    assert!(parse_manifest(b"3\n1 ana 0\n").is_none());
}

#[test]
fn rejects_wrong_field_count() {
    assert!(parse_manifest(b"1\n1 ana\n").is_none());
    assert!(parse_manifest(b"1\n1 ana 0 extra\n").is_none());
}

#[test]
fn rejects_non_numeric_floor() {
    assert!(parse_manifest(b"1\nfour ana 0\n").is_none());
    assert!(parse_manifest(b"1\n4 ana zero\n").is_none());
}

#[test]
fn parse_usize_accepts_digits_only() {
    assert_eq!(parse_usize(&b"0".to_vec()), Some(0));
    assert_eq!(parse_usize(&b"421".to_vec()), Some(421));
    assert_eq!(parse_usize(&b"".to_vec()), None);
    assert_eq!(parse_usize(&b"4a1".to_vec()), None);
    assert_eq!(parse_usize(&b"-3".to_vec()), None);
    assert_eq!(parse_usize(&b"99999999999999999999999999".to_vec()), None);
}

#[test]
fn range_check_covers_both_floors() {
    let recs = vec![
        Record { destination: 4, name: b"ana".to_vec(), start: 0 },
        Record { destination: 0, name: b"bo".to_vec(), start: 4 },
    ];
    assert!(records_in_range(&recs, 5));
    assert!(!records_in_range(&recs, 4));
    let bad = vec![Record { destination: 1, name: b"cy".to_vec(), start: 9 }];
    assert!(!records_in_range(&bad, 5));
}
