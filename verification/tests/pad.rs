use mcbe_text_impact::align::get_line_width;
use mcbe_text_impact::pad::{check_same_parity, pad, pad_with_length, resolve, try_pad};

#[test]
fn same_parity_of_nothing_and_one() {
    assert!(check_same_parity(&[]));
    assert!(check_same_parity(&[7]));
}

#[test]
fn same_parity_tells_mixed_from_equal() {
    assert!(check_same_parity(&[2, 4, 100]));
    assert!(check_same_parity(&[1, 3, 99]));
    assert!(!check_same_parity(&[1, 2]));
    assert!(!check_same_parity(&[4, 4, 5]));
}

#[test]
fn same_parity_counts_negative_numbers() {
    assert!(check_same_parity(&[-3, 5]));
    assert!(check_same_parity(&[-4, 0, i32::MIN]));
    assert!(!check_same_parity(&[-3, 4]));
    assert!(check_same_parity(&[i32::MAX, -1]));
}

#[test]
fn resolve_refuses_no_fields_and_mixed_parity() {
    assert_eq!(resolve(&[]), None);
    assert_eq!(resolve(&[3, 4]), None);
    assert_eq!(resolve(&[10, 12, 13]), None);
}

#[test]
fn resolve_finds_the_least_common_width() {
    assert_eq!(resolve(&[14, 22]), Some(vec![(0, 1), (0, 0)]));
    assert_eq!(resolve(&[6, 6]), Some(vec![(0, 0), (0, 0)]));
    assert_eq!(resolve(&[0, 2]), Some(vec![(0, 1), (1, 0)]));
    assert_eq!(resolve(&[5, 7, 11]), Some(vec![(1, 1), (2, 0), (0, 1)]));
    assert_eq!(resolve(&[10]), Some(vec![(0, 0)]));
}

#[test]
fn resolve_brings_every_field_to_one_width() {
    let widths = [5, 7, 11, 31, 101];
    let pairs = resolve(&widths).unwrap();
    assert_eq!(pairs.len(), widths.len());
    let target = widths[0] + 6 * pairs[0].0 + 8 * pairs[0].1;
    let mut i = 0;
    while i < widths.len() {
        assert!(pairs[i].0 >= 0 && pairs[i].1 >= 0);
        assert_eq!(widths[i] + 6 * pairs[i].0 + 8 * pairs[i].1, target);
        i += 1;
    }
    assert!(target >= 101 && target <= 113);
}

#[test]
fn resolve_works_over_the_whole_range() {
    let pairs = resolve(&[i32::MIN, i32::MAX - 1]).unwrap();
    assert_eq!(pairs[1], (0, 0));
    let gap: i64 = (i32::MAX as i64 - 1) - (i32::MIN as i64);
    assert_eq!(6 * (pairs[0].0 as i64) + 8 * (pairs[0].1 as i64), gap);
}

#[test]
fn pad_brings_fields_to_equal_width() {
    let texts = vec!["ab".to_string(), "abc".to_string()];
    let out = pad(&texts);
    assert_eq!(out, vec!["ab§r§l §r", "abc§r"]);
    assert_eq!(get_line_width(&out[0]), 22);
    assert_eq!(get_line_width(&out[1]), 22);
}

#[test]
fn pad_uses_plain_and_bold_spaces() {
    let texts = vec!["".to_string(), "!".to_string()];
    let out = pad(&texts);
    assert_eq!(out, vec!["§r§l §r", "!§r "]);
    let texts = vec!["a".to_string(), "aaa§l §r".to_string()];
    let out = pad(&texts);
    assert_eq!(get_line_width(&out[0]), get_line_width(&out[1]));
}

#[test]
fn pad_with_length_repeats_the_padder() {
    assert_eq!(pad_with_length(20, "-", false), "--");
    assert_eq!(pad_with_length(20, "-", true), "---");
    assert_eq!(pad_with_length(21, "ab", true), "ababab");
}

#[test]
fn pad_with_length_of_nothing() {
    assert_eq!(pad_with_length(-5, "-", true), "");
    assert_eq!(pad_with_length(3, "", false), "");
    assert_eq!(pad_with_length(-100, "", false), "");
    assert_eq!(pad_with_length(0, "-", false), "");
}

#[test]
fn try_pad_refuses_what_cannot_be_padded() {
    let mixed = vec!["!".to_string(), "`".to_string()];
    assert_eq!(try_pad(&mixed), None);
    let none: Vec<String> = Vec::new();
    assert_eq!(try_pad(&none), None);
    let broken = vec!["a\nb".to_string()];
    assert_eq!(try_pad(&broken), None);
    let texts = vec!["ab".to_string(), "abc".to_string()];
    assert_eq!(try_pad(&texts), Some(vec!["ab§r§l §r".to_string(), "abc§r".to_string()]));
}
