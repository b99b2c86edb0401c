use prefix_scan::order::lex_less;
use prefix_scan::range::{get_upper_bound_option, ScanRange};

fn sample_strings(max_len: usize) -> Vec<Vec<u8>> {
    let alphabet: [u8; 5] = [0x00, 0x01, 0x7F, 0xFE, 0xFF];
    let mut all: Vec<Vec<u8>> = vec![Vec::new()];
    let mut last: Vec<Vec<u8>> = vec![Vec::new()];
    for _ in 0..max_len {
        let mut next = Vec::new();
        for s in &last {
            for b in alphabet {
                let mut t = s.clone();
                t.push(b);
                next.push(t);
            }
        }
        all.extend(next.iter().cloned());
        last = next;
    }
    all
}

#[test]
fn upper_bound_of_a_single_byte() {
    assert_eq!(get_upper_bound_option(&[0x02]), Some(vec![0x03]));
    assert_eq!(get_upper_bound_option(&[0x00]), Some(vec![0x01]));
    assert_eq!(get_upper_bound_option(&[0xFE]), Some(vec![0xFF]));
}

#[test]
fn upper_bound_raises_the_last_byte() {
    assert_eq!(get_upper_bound_option(&[0x00, 0x00]), Some(vec![0x00, 0x01]));
    assert_eq!(get_upper_bound_option(&[0x12, 0x34, 0x56]), Some(vec![0x12, 0x34, 0x57]));
}

#[test]
fn upper_bound_drops_trailing_max_bytes() {
    assert_eq!(get_upper_bound_option(&[0x01, 0xFF]), Some(vec![0x02]));
    assert_eq!(get_upper_bound_option(&[0x01, 0x02, 0xFF, 0xFF]), Some(vec![0x01, 0x03]));
    assert_eq!(get_upper_bound_option(&[0xFF, 0x00, 0xFF]), Some(vec![0xFF, 0x01]));
}

#[test]
fn upper_bound_of_the_empty_prefix_is_none() {
    assert_eq!(get_upper_bound_option(&[]), None);
}

#[test]
fn upper_bound_of_all_max_bytes_is_none() {
    for len in 1..=16 {
        let prefix = vec![0xFF_u8; len];
        assert_eq!(get_upper_bound_option(&prefix), None);
    }
}

#[test]
fn upper_bound_is_some_unless_all_bytes_are_max() {
    for prefix in sample_strings(4) {
        let all_max = prefix.iter().all(|b| *b == 0xFF);
        assert_eq!(get_upper_bound_option(&prefix).is_none(), all_max);
    }
}

#[test]
fn upper_bound_is_above_the_prefix_and_no_longer() {
    for prefix in sample_strings(4) {
        if let Some(upper) = get_upper_bound_option(&prefix) {
            assert!(upper > prefix);
            assert!(lex_less(&prefix, &upper));
            assert!(upper.len() <= prefix.len());
            assert!(!upper.is_empty());
        }
    }
}

#[test]
fn range_of_a_prefix_holds_exactly_the_keys_with_the_prefix() {
    let keys = sample_strings(4);
    for prefix in sample_strings(3) {
        let upper = get_upper_bound_option(&prefix);
        for key in &keys {
            let in_range = *key >= prefix && upper.as_ref().map_or(true, |u| key < u);
            assert_eq!(in_range, key.starts_with(&prefix), "prefix {:?} key {:?}", prefix, key);
        }
    }
}

#[test]
fn scan_range_for_prefix_has_the_prefix_as_lower_end() {
    let range = ScanRange::for_prefix(&[0x02, 0xFF]);
    assert_eq!(range, ScanRange { lower: vec![0x02, 0xFF], upper: Some(vec![0x03]) });
    let range = ScanRange::for_prefix(&[]);
    assert_eq!(range, ScanRange { lower: vec![], upper: None });
    let range = ScanRange::for_prefix(&[0xFF]);
    assert_eq!(range, ScanRange { lower: vec![0xFF], upper: None });
}

#[test]
fn scan_range_contains_is_membership_in_the_half_open_range() {
    let range = ScanRange { lower: vec![0x02], upper: Some(vec![0x03]) };
    assert!(range.contains(&[0x02]));
    assert!(range.contains(&[0x02, 0x00]));
    assert!(range.contains(&[0x02, 0xFF, 0xFF]));
    assert!(!range.contains(&[0x03]));
    assert!(!range.contains(&[0x03, 0x00]));
    assert!(!range.contains(&[0x01, 0xFF]));
    assert!(!range.contains(&[]));
    let open = ScanRange { lower: vec![0xFF], upper: None };
    assert!(open.contains(&[0xFF]));
    assert!(open.contains(&[0xFF, 0x01]));
    assert!(!open.contains(&[0xFE, 0x99]));
}

#[test]
fn scan_range_contains_agrees_with_the_prefix_test() {
    let keys = sample_strings(4);
    for prefix in sample_strings(3) {
        let range = ScanRange::for_prefix(&prefix);
        for key in &keys {
            assert_eq!(range.contains(key), key.starts_with(&prefix));
        }
    }
}

#[test]
fn lex_less_is_the_order_of_byte_strings() {
    assert!(lex_less(&[], &[0x00]));
    assert!(!lex_less(&[], &[]));
    assert!(!lex_less(&[0x00], &[]));
    assert!(lex_less(&[0x01], &[0x01, 0x00]));
    assert!(lex_less(&[0x01, 0xFF], &[0x02]));
    assert!(lex_less(&[0x7F], &[0x80]));
    assert!(!lex_less(&[0x80], &[0x7F]));
    assert!(!lex_less(&[0x02], &[0x02]));
    let all = sample_strings(3);
    for a in &all {
        for b in &all {
            assert_eq!(lex_less(a, b), a < b);
        }
    }
}

#[test]
fn lex_less_orders_any_two_different_keys() {
    let all = sample_strings(3);
    for a in &all {
        for b in &all {
            let before = lex_less(a, b);
            let after = lex_less(b, a);
            assert!(!(before && after));
            assert_eq!(!before && !after, a == b);
        }
    }
}
