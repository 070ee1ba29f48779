use mcbe_text_impact::align::get_line_width;
use mcbe_text_impact::pad::pad;
use mcbe_text_impact::template::{pad_with_format, try_pad_with_format, Padder};

#[test]
fn pad_with_format_resolves_one_mark() {
    let out = pad_with_format("x(pad1)\nyy(pad1)");
    assert_eq!(out, "x§r§l §r\nyy§r");
    let lines: Vec<&str> = out.split('\n').collect();
    assert_eq!(get_line_width(lines[0]), get_line_width(lines[1]));
    assert_eq!(get_line_width(lines[0]), 14);
}

#[test]
fn pad_with_format_resolves_marks_in_order() {
    let out = pad_with_format("a(pad1)bb(pad2)c\nccc(pad1)d(pad2)\nplain\r\nlast(pad2)z");
    assert_eq!(out, "ca§r§l  §rbb§r\nccc§rd§r§l §r\nplain\nzlast§r§l §r");
}

#[test]
fn pad_with_format_leaves_text_without_marks() {
    assert_eq!(pad_with_format("no marks\nat all"), "no marks\nat all");
    assert_eq!(pad_with_format(""), "");
    assert_eq!(pad_with_format("later (pad2) only"), "later (pad2) only");
}

#[test]
fn padder_runs_with_its_own_function() {
    let upper = |batch: &[String]| -> Vec<String> {
        batch.iter().map(|t| format!("[{}]", t)).collect()
    };
    let out = Padder::new("a(pad1)b(pad2)\nc(pad2)d", upper).execute();
    assert_eq!(out, "[[a]b]\nd[c]");
}

#[test]
fn padder_keeps_what_the_function_does_not_return() {
    let first_only = |batch: &[String]| -> Vec<String> { vec![format!("<{}>", batch[0])] };
    let out = Padder::new("a(pad1)\nb(pad1)", first_only).execute();
    assert_eq!(out, "<a>\n");
}

#[test]
fn padder_steps_one_mark_at_a_time() {
    let mut run = Padder::new("x(pad1)y(pad2)\nzz(pad1)", pad);
    assert!(!run.all_done());
    run.step();
    assert!(!run.all_done());
    run.step();
    assert!(run.all_done());
    assert_eq!(run.finish(), "x§r§l §ry§r\nzz§r");
}

#[test]
fn try_pad_with_format_refuses_mixed_parity() {
    assert_eq!(try_pad_with_format("!(pad1)\n`(pad1)"), None);
    assert_eq!(
        try_pad_with_format("x(pad1)\nyy(pad1)"),
        Some("x§r§l §r\nyy§r".to_string())
    );
    assert_eq!(try_pad_with_format("plain"), Some("plain".to_string()));
}

#[test]
fn padder_hands_out_and_takes_in_batches() {
    let mut run = Padder::new("a(pad1)b\nplain\ncc(pad1)", pad);
    assert_eq!(run.next_batch(), vec!["a", "cc"]);
    run.apply(&vec!["A".to_string(), "CC".to_string()]);
    assert!(run.all_done());
    assert_eq!(run.finish(), "bA\nplain\nCC");
}
