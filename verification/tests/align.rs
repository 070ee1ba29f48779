use mcbe_text_impact::align::{
    align_any, align_any_and_get_diff, align_center, align_left, align_left_and_get_diff,
    align_right, align_right_and_get_diff, align_simple, get_line_width,
    get_specific_length_spaces, get_specific_length_spaces_and_diff, try_align_any_and_get_diff,
    try_align_simple, AlignArg,
};

#[test]
fn specific_length_spaces_put_bold_spaces_first() {
    assert_eq!(get_specific_length_spaces(14), "§l §r ");
    assert_eq!(get_specific_length_spaces(6), "§l§r ");
    assert_eq!(get_specific_length_spaces(10), "§l§r  ");
}

#[test]
fn specific_length_spaces_report_the_overshoot() {
    assert_eq!(get_specific_length_spaces_and_diff(0, 0), ("§l§r ".to_string(), 6));
    assert_eq!(get_specific_length_spaces_and_diff(10, 0), ("§l§r  ".to_string(), 2));
    assert_eq!(get_specific_length_spaces_and_diff(14, 0), ("§l §r ".to_string(), 0));
    assert_eq!(get_specific_length_spaces_and_diff(-19, 0), ("§l§r ".to_string(), 25));
    assert_eq!(get_specific_length_spaces_and_diff(12, -2), ("§l§r  ".to_string(), 2));
}

#[test]
fn align_any_pads_to_the_field() {
    assert_eq!(align_any_and_get_diff("abc", 10, 0), ("§l§r   ".to_string(), 0));
    assert_eq!(align_any("abc", 10), "§l§r   ");
}

#[test]
fn align_any_gives_no_padding_for_wide_text() {
    assert_eq!(align_any_and_get_diff("abcdefghij", 2, 0), (String::new(), -70));
    assert_eq!(align_any("abcdefghij", 2), "");
}

#[test]
fn align_left_and_right_place_the_text() {
    assert_eq!(align_left("abc", 10), "abc§l§r   ");
    assert_eq!(align_right("abc", 10), "§l§r   abc");
    assert_eq!(align_left_and_get_diff("abc", 10, 0), ("abc§l§r   ".to_string(), 0));
    assert_eq!(align_right_and_get_diff("abc", 10, 0), ("§l§r   abc".to_string(), 0));
    assert_eq!(align_left_and_get_diff("abcdefghij", 2, 5), ("abcdefghij".to_string(), -70));
}

#[test]
fn align_center_shares_the_gap() {
    assert_eq!(align_center("ab", 6), "§l§r ab§l§r ");
}

#[test]
fn align_simple_carries_the_residual() {
    let row = vec![
        AlignArg::Text("|".to_string()),
        AlignArg::LeftAlign("ab".to_string(), 6),
        AlignArg::Text("|".to_string()),
        AlignArg::RightAlign("7".to_string(), 4),
        AlignArg::Text("|".to_string()),
    ];
    assert_eq!(align_simple(&row), "|ab§l§r  |§l§r 7|");
    assert_eq!(align_simple(&[]), "");
}

#[test]
fn align_left_reaches_the_field_width() {
    let text = "abc";
    let padded = align_left(text, 10);
    let (_, diff) = align_left_and_get_diff(text, 10, 0);
    assert_eq!(diff, 0);
    assert_eq!(get_line_width(text), 22);
    assert_eq!(padded, "abc§l§r   ");
}

#[test]
fn try_align_any_pads_fields_that_are_ready() {
    assert_eq!(try_align_any_and_get_diff("abc", 10, 0), Some(("§l§r   ".to_string(), 0)));
    assert_eq!(try_align_any_and_get_diff("abcdefghij", 2, 0), Some((String::new(), -70)));
    assert_eq!(try_align_any_and_get_diff("a\nb", 10, 0), None);
    assert_eq!(try_align_any_and_get_diff("", 0, -20), None);
    assert_eq!(try_align_any_and_get_diff("", 0, -19), Some(("§l§r ".to_string(), 25)));
    assert_eq!(try_align_any_and_get_diff("", i32::MAX, 0), None);
}

#[test]
fn try_align_simple_lays_out_rows_that_are_ready() {
    let row = vec![
        AlignArg::Text("|".to_string()),
        AlignArg::LeftAlign("ab".to_string(), 6),
        AlignArg::Text("|".to_string()),
        AlignArg::RightAlign("7".to_string(), 4),
        AlignArg::Text("|".to_string()),
    ];
    assert_eq!(try_align_simple(&row), Some("|ab§l§r  |§l§r 7|".to_string()));
    let broken = vec![AlignArg::LeftAlign("a\nb".to_string(), 6)];
    assert_eq!(try_align_simple(&broken), None);
}

#[test]
fn try_align_simple_stops_where_the_residual_runs_away() {
    let mut row = Vec::new();
    let mut i = 0;
    while i < 4 {
        row.push(AlignArg::LeftAlign(String::new(), 0));
        i += 1;
    }
    assert!(try_align_simple(&row).is_some());
    row.push(AlignArg::LeftAlign(String::new(), 0));
    assert_eq!(try_align_simple(&row), None);
}
