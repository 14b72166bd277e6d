use kai::audit::note_lookup;
use kai::audit::user_label;
use kai::audit::KeyUse;
use kai::audit::Lookup;
use kai::audit::Scan;
use kai::audit::Timestamp;

fn at(seconds: i64, subsecond_nanos: u32) -> Timestamp {
    Timestamp { seconds, subsecond_nanos }
}

fn used(seconds: i64, service: &str) -> KeyUse {
    KeyUse { last_used_date: Some(at(seconds, 0)), service_name: service.to_string(), region: "us-east-1".to_string() }
}

fn undated(service: &str) -> KeyUse {
    KeyUse { last_used_date: None, service_name: service.to_string(), region: "N/A".to_string() }
}

fn kept(scan: Scan) -> Option<KeyUse> {
    match scan {
        Scan::Carry(held) => held,
        Scan::GiveUp => panic!("the scan gave up"),
    }
}

fn scan_over(lookups: Vec<Lookup>) -> Option<KeyUse> {
    let mut saved = None;
    for lookup in lookups {
        match note_lookup(saved, lookup) {
            Scan::GiveUp => return None,
            Scan::Carry(held) => saved = held,
        }
    }
    saved
}

#[test]
fn instants_compare_by_seconds_then_nanoseconds() {
    assert!(at(2, 0).is_after(&at(1, 999_999_999)));
    assert!(!at(1, 999_999_999).is_after(&at(2, 0)));
    assert!(at(1, 5).is_after(&at(1, 4)));
    assert!(!at(1, 4).is_after(&at(1, 4)));
    assert!(at(-1, 0).is_after(&at(-2, 999_999_999)));
    assert!(at(-1, 1).is_after(&at(-1, 0)));
    assert!(at(i64::MAX, u32::MAX).is_after(&at(i64::MAX, 0)));
    assert!(at(i64::MIN, 1).is_after(&at(i64::MIN, 0)));
    assert!(at(i64::MAX, 0).is_after(&at(i64::MIN, u32::MAX)));
    assert!(at(0, 1_000_000_001).is_after(&at(1, 0)));
}

#[test]
fn a_failed_request_ends_the_scan() {
    assert!(matches!(note_lookup(None, Lookup::Failed), Scan::GiveUp));
    assert!(matches!(note_lookup(Some(used(5, "s3")), Lookup::Failed), Scan::GiveUp));
    assert!(scan_over(vec![Lookup::Answered(Some(used(5, "s3"))), Lookup::Failed]).is_none());
    assert!(scan_over(vec![Lookup::Failed, Lookup::Answered(Some(used(5, "s3")))]).is_none());
}

#[test]
fn an_answer_without_a_date_changes_nothing() {
    assert!(kept(note_lookup(None, Lookup::Answered(None))).is_none());
    assert!(kept(note_lookup(None, Lookup::Answered(Some(undated("iam"))))).is_none());
    let still = kept(note_lookup(Some(used(5, "s3")), Lookup::Answered(Some(undated("iam"))))).unwrap();
    assert_eq!(still.service_name, "s3");
    let still = kept(note_lookup(Some(used(5, "s3")), Lookup::Answered(None))).unwrap();
    assert_eq!(still.last_used_date, Some(at(5, 0)));
}

#[test]
fn the_first_dated_use_is_kept() {
    let first = kept(note_lookup(None, Lookup::Answered(Some(used(3, "ec2"))))).unwrap();
    assert_eq!(first.service_name, "ec2");
    assert_eq!(first.region, "us-east-1");
    assert_eq!(first.last_used_date, Some(at(3, 0)));
}

#[test]
fn only_a_strictly_later_use_replaces_the_kept_one() {
    let later = kept(note_lookup(Some(used(3, "ec2")), Lookup::Answered(Some(used(4, "s3"))))).unwrap();
    assert_eq!(later.service_name, "s3");
    let same = kept(note_lookup(Some(used(3, "ec2")), Lookup::Answered(Some(used(3, "s3"))))).unwrap();
    assert_eq!(same.service_name, "ec2");
    let earlier = kept(note_lookup(Some(used(3, "ec2")), Lookup::Answered(Some(used(2, "s3"))))).unwrap();
    assert_eq!(earlier.service_name, "ec2");
}

#[test]
fn a_scan_ends_with_the_most_recent_use() {
    let answer = scan_over(vec![
        Lookup::Answered(Some(used(10, "a"))),
        Lookup::Answered(None),
        Lookup::Answered(Some(used(30, "b"))),
        Lookup::Answered(Some(undated("c"))),
        Lookup::Answered(Some(used(30, "d"))),
        Lookup::Answered(Some(used(20, "e"))),
    ])
    .unwrap();
    assert_eq!(answer.service_name, "b");
    assert_eq!(answer.last_used_date, Some(at(30, 0)));
    assert!(scan_over(vec![]).is_none());
    assert!(scan_over(vec![Lookup::Answered(None), Lookup::Answered(Some(undated("c")))]).is_none());
}

#[test]
fn a_user_without_a_name_gets_a_stand_in() {
    assert_eq!(user_label(&None), "noname");
    assert_eq!(user_label(&Some("ci-installer".to_string())), "ci-installer");
    assert_eq!(user_label(&Some(String::new())), "");
}
