use mcbe_text_impact::align::{
    cut_by_length, get_char_width, get_line_width, get_lines_width, try_line_width,
    yield_chars_and_length,
};
use mcbe_text_impact::font_widths::FontWidths;

#[test]
fn font_widths_lists_ascii() {
    let table = FontWidths::new();
    assert_eq!(table.get_width(32), 4);
    assert_eq!(table.get_width(33), 2);
    assert_eq!(table.get_width(34), 5);
    assert_eq!(table.get_width(64), 7);
    assert_eq!(table.get_width(65), 6);
    assert_eq!(table.get_width(96), 3);
    assert_eq!(table.get_width(123), 4);
    assert_eq!(table.get_width(126), 7);
    assert_eq!(table.get_width(5), 6);
    assert_eq!(table.get_width(127), 6);
}

#[test]
fn font_widths_default_beyond_ascii() {
    let table = FontWidths::default();
    assert_eq!(table.get_width(128), 12);
    assert_eq!(table.get_width(0x4F60), 12);
    assert_eq!(table.get_width(0x10FFFF), 12);
}

#[test]
fn char_width_of_empty_is_zero() {
    assert_eq!(get_char_width("", false), 0);
    assert_eq!(get_char_width("", true), 0);
}

#[test]
fn char_width_takes_first_character() {
    assert_eq!(get_char_width("A", false), 6);
    assert_eq!(get_char_width("A", true), 8);
    assert_eq!(get_char_width("!x", false), 2);
    assert_eq!(get_char_width("é", false), 12);
    assert_eq!(get_char_width("é", true), 14);
}

#[test]
fn line_width_of_plain_text_is_glyphs_and_gaps() {
    assert_eq!(get_line_width(""), 0);
    assert_eq!(get_line_width("A"), 6);
    assert_eq!(get_line_width("abc"), 6 + 6 + 6 + 2 * 2);
    assert_eq!(get_line_width("Hello, world!"), 92);
    assert_eq!(get_line_width("é!"), 16);
}

#[test]
fn line_width_follows_markers() {
    assert_eq!(get_line_width("§lA§r"), 8);
    assert_eq!(get_line_width("§oab"), 18);
    assert_eq!(get_line_width("a§lb c"), 34);
    assert_eq!(get_line_width("§l"), 0);
    assert_eq!(get_line_width("§"), 0);
    assert_eq!(get_line_width("§§lA"), 8);
    assert_eq!(get_line_width("§xA"), 6);
}

#[test]
fn lines_width_is_the_widest() {
    let lines = vec!["A".to_string(), "Hello, world!".to_string(), "abc".to_string()];
    assert_eq!(get_lines_width(&lines), 92);
    let none: Vec<String> = Vec::new();
    assert_eq!(get_lines_width(&none), 0);
}

#[test]
fn cut_by_length_closes_pieces_at_the_limit() {
    assert_eq!(
        cut_by_length("hello world foo", 2),
        vec!["he", "ll", "o ", "wo", "rl", "d ", "fo", "o"]
    );
}

#[test]
fn cut_by_length_cuts_at_newlines_and_drops_blank_tail() {
    assert_eq!(cut_by_length("ab\ncd  ", 5), vec!["ab", "cd  "]);
    assert_eq!(cut_by_length("ab\n   ", 5), vec!["ab"]);
    let none: Vec<String> = Vec::new();
    assert_eq!(cut_by_length("", 5), none);
}

#[test]
fn cut_by_length_keeps_markers_in_the_pieces() {
    assert_eq!(
        cut_by_length("§lbold text here", 1),
        vec!["§lb", "o", "l", "d", " ", "t", "e", "x", "t", " ", "h", "e", "r", "e"]
    );
}

#[test]
fn yield_chars_and_length_runs_up_the_width() {
    assert_eq!(
        yield_chars_and_length("a§lb!"),
        vec![('a', 10), ('§', 10), ('l', 10), ('b', 22), ('!', 30)]
    );
    assert_eq!(yield_chars_and_length(""), Vec::<(char, i32)>::new());
}

#[test]
fn try_line_width_measures_single_lines() {
    assert_eq!(try_line_width("Hello, world!"), Some(92));
    assert_eq!(try_line_width("§oab"), Some(18));
    assert_eq!(try_line_width(""), Some(0));
    assert_eq!(try_line_width("a\nb"), None);
    assert_eq!(try_line_width("\n"), None);
}
