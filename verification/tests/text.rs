use mcbe_text_impact::text::{
    all_blank, chars_of, decimal_of, find_text, is_blank, push_spaces, split_lines, string_of,
};

#[test]
fn chars_and_strings_round_trip() {
    let chars = chars_of("a§é😀");
    assert_eq!(chars, vec!['a', '§', 'é', '😀']);
    assert_eq!(string_of(&chars), "a§é😀");
    assert_eq!(string_of(&Vec::new()), "");
}

#[test]
fn push_spaces_appends() {
    let mut v = vec!['x'];
    push_spaces(&mut v, 3);
    assert_eq!(v, vec!['x', ' ', ' ', ' ']);
    push_spaces(&mut v, -2);
    assert_eq!(v.len(), 4);
}

#[test]
fn decimal_of_writes_digits() {
    assert_eq!(string_of(&decimal_of(0)), "0");
    assert_eq!(string_of(&decimal_of(7)), "7");
    assert_eq!(string_of(&decimal_of(10)), "10");
    assert_eq!(string_of(&decimal_of(1234567890)), "1234567890");
}

#[test]
fn find_text_gives_the_first_position() {
    let hay = chars_of("abcabc");
    assert_eq!(find_text(&hay, &chars_of("bc")), Some(1));
    assert_eq!(find_text(&hay, &chars_of("abc")), Some(0));
    assert_eq!(find_text(&hay, &chars_of("c")), Some(2));
    assert_eq!(find_text(&hay, &chars_of("cb")), None);
    assert_eq!(find_text(&hay, &chars_of("abcabca")), None);
    assert_eq!(find_text(&hay, &chars_of("")), Some(0));
}

#[test]
fn split_lines_follows_line_endings() {
    let lines = split_lines(&chars_of("a\r\nb\n\nc\r"));
    let lines: Vec<String> = lines.iter().map(string_of).collect();
    assert_eq!(lines, vec!["a", "b", "", "c\r"]);
    assert!(split_lines(&chars_of("")).is_empty());
    assert_eq!(split_lines(&chars_of("x\n")).len(), 1);
    assert_eq!(split_lines(&chars_of("\n")).len(), 1);
}

#[test]
fn white_space_is_told_apart() {
    assert!(is_blank(' '));
    assert!(is_blank('\t'));
    assert!(is_blank('\n'));
    assert!(is_blank('\u{3000}'));
    assert!(is_blank('\u{85}'));
    assert!(!is_blank('a'));
    assert!(!is_blank('§'));
    assert!(!is_blank('\u{200B}'));
    assert!(all_blank(&chars_of(" \t ")));
    assert!(all_blank(&chars_of("")));
    assert!(!all_blank(&chars_of(" x ")));
}

#[test]
fn white_space_agrees_with_the_standard_library() {
    let mut code: u32 = 0;
    while code < 0x3100 {
        if let Some(c) = char::from_u32(code) {
            assert_eq!(is_blank(c), c.is_whitespace());
        }
        code += 1;
    }
}
