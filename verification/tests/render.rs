use mcbe_text_impact::bitmap::Bitmap;
use mcbe_text_impact::font::{PageFile, RuneFont};
use mcbe_text_impact::render::{
    draw, get_color, italic, lean_of, paste, render, shear_image, slant_of,
    split_format_and_text, SimulateOptions, TellRawSimulator,
};
use mcbe_text_impact::font::Font;

fn sample_page() -> Bitmap {
    let mut page = Bitmap::new(512, 512);
    let mut y = 0;
    while y < 31 {
        let mut x = 2;
        while x < 8 {
            let alpha = if (x + y) % 3 != 0 { 255 } else { 128 };
            page.put_pixel(32 + x, 128 + y, (200, 200, 200, alpha));
            x += 1;
        }
        y += 1;
    }
    let mut y = 5;
    while y < 21 {
        let mut x = 0;
        while x < 5 {
            page.put_pixel(64 + x, 128 + y, (255, 255, 255, 255));
            x += 1;
        }
        y += 1;
    }
    let mut y = 3;
    while y < 28 {
        page.put_pixel(32 + 3, 64 + y, (90, 90, 90, 200));
        y += 1;
    }
    page
}

fn sample_simulator() -> TellRawSimulator {
    let mut font = RuneFont::new("font_png");
    font.add_page(0, PageFile::Image(sample_page()));
    TellRawSimulator::new(font, SimulateOptions::default())
}

fn checksum(image: &Bitmap) -> u64 {
    let mut sum: u64 = 0;
    let mut i: u64 = 0;
    for byte in image.as_raw().iter() {
        i += 1;
        sum = (sum + i * (*byte as u64)) % 1_000_000_007;
    }
    sum
}

#[test]
fn default_options_hold_the_colour_table() {
    let options = SimulateOptions::default();
    assert_eq!(options.font_horizon_padding, 2);
    assert_eq!(options.line_padding, 6);
    assert_eq!(options.color_mapping.len(), 28);
    assert_eq!(options.color_mapping.get(&('0' as u32)), Some(&(0, 0, 0, 255)));
    assert_eq!(options.color_mapping.get(&('6' as u32)), Some(&(255, 170, 0, 255)));
    assert_eq!(options.color_mapping.get(&('f' as u32)), Some(&(255, 255, 255, 255)));
    assert_eq!(options.color_mapping.get(&('v' as u32)), Some(&(235, 114, 20, 255)));
    assert_eq!(options.color_mapping.get(&('k' as u32)), None);
}

#[test]
fn colour_comes_from_the_low_bits() {
    let options = SimulateOptions::default();
    assert_eq!(get_color(&options, 0), (255, 255, 255, 255));
    assert_eq!(get_color(&options, 'c' as u32), (255, 85, 85, 255));
    assert_eq!(get_color(&options, 0x200 | ('1' as u32)), (0, 0, 170, 255));
    assert_eq!(get_color(&options, 0x600), (255, 255, 255, 255));
    assert_eq!(get_color(&options, 'k' as u32), (255, 255, 255, 255));
}

#[test]
fn tokenizer_resolves_markers() {
    let (text, fmt) = split_format_and_text("§lA§r\n§cB§zC§§D§");
    assert_eq!(text, vec![vec!['A'], vec!['B', 'z', 'C', '§', 'D']]);
    let red = 'c' as u32;
    assert_eq!(fmt, vec![vec![0x200], vec![red, red, red, red, red]]);
}

#[test]
fn tokenizer_carries_format_over_lines() {
    let (text, fmt) = split_format_and_text("§l§oa§1b\nc§kd§2e§rf");
    assert_eq!(text, vec![vec!['a', 'b'], vec!['c', 'd', 'e', 'f']]);
    let one = '1' as u32;
    let two = '2' as u32;
    assert_eq!(
        fmt,
        vec![vec![0x600, 0x600 | one], vec![0x600 | one, 0x700 | one, 0x700 | two, 0]]
    );
}

#[test]
fn tokenizer_gives_one_line_at_least() {
    let (text, fmt) = split_format_and_text("");
    assert_eq!(text, vec![Vec::<char>::new()]);
    assert_eq!(fmt, vec![Vec::<u32>::new()]);
    let (text, _) = split_format_and_text("a\n");
    assert_eq!(text, vec![vec!['a'], vec![]]);
    let (text, fmt) = split_format_and_text("§\nl");
    assert_eq!(text, vec![vec![], vec!['l']]);
    assert_eq!(fmt, vec![vec![], vec![0]]);
}

#[test]
fn slant_is_the_rounded_tangent() {
    let expected: [u32; 31] = [
        0, 0, 1, 1, 1, 1, 2, 2, 2, 2, 3, 3, 3, 3, 4, 4, 4, 5, 5, 5, 5, 6, 6, 6, 6, 7, 7, 7, 8, 8,
        8,
    ];
    let mut y = 0;
    while y < 31 {
        assert_eq!(slant_of(y as u32), expected[y]);
        y += 1;
    }
    assert_eq!(slant_of(1000), 268);
    assert_eq!(slant_of(100000), 26795);
}

#[test]
fn lean_is_the_tangent_rounded_up() {
    let expected: [u32; 12] = [0, 1, 1, 1, 2, 2, 2, 2, 3, 3, 3, 3];
    let mut h = 0;
    while h < 12 {
        assert_eq!(lean_of(h as u32), expected[h]);
        h += 1;
    }
    assert_eq!(lean_of(31), 9);
    assert_eq!(lean_of(1000), 268);
    assert_eq!(lean_of(100000), 26795);
}

#[test]
fn slant_agrees_with_floating_point() {
    let k = 15.0_f64.to_radians().tan();
    let mut y: u32 = 0;
    while y < 5000 {
        assert_eq!(slant_of(y) as f64, (k * y as f64).round());
        assert_eq!(lean_of(y) as f64, (k * y as f64).ceil());
        y += 1;
    }
}

#[test]
fn draw_scales_the_colour_by_alpha() {
    let mut canvas = Bitmap::new(4, 3);
    let mut mat = Bitmap::new(2, 2);
    mat.put_pixel(0, 0, (9, 9, 9, 255));
    mat.put_pixel(1, 0, (9, 9, 9, 128));
    mat.put_pixel(0, 1, (9, 9, 9, 0));
    mat.put_pixel(1, 1, (9, 9, 9, 1));
    let glyph = Font::new(mat, false);
    draw(&mut canvas, &glyph, (1, 1), (255, 85, 170, 255));
    assert_eq!(canvas.get_pixel(1, 1), (255, 85, 170, 255));
    assert_eq!(canvas.get_pixel(2, 1), (128, 42, 85, 128));
    assert_eq!(canvas.get_pixel(1, 2), (0, 0, 0, 0));
    assert_eq!(canvas.get_pixel(2, 2), (1, 0, 0, 1));
    assert_eq!(canvas.get_pixel(0, 0), (0, 0, 0, 0));
    assert_eq!(canvas.get_pixel(3, 1), (0, 0, 0, 0));
}

#[test]
fn draw_copies_a_coloured_glyph_and_clips() {
    let mut canvas = Bitmap::new(3, 2);
    let mut mat = Bitmap::new(2, 2);
    mat.put_pixel(0, 0, (1, 2, 3, 4));
    mat.put_pixel(1, 0, (5, 6, 7, 8));
    mat.put_pixel(0, 1, (9, 10, 11, 12));
    mat.put_pixel(1, 1, (13, 14, 15, 16));
    let glyph = Font::new(mat, true);
    draw(&mut canvas, &glyph, (2, 1), (255, 0, 0, 255));
    assert_eq!(canvas.get_pixel(2, 1), (1, 2, 3, 4));
    assert_eq!(canvas.get_pixel(1, 1), (0, 0, 0, 0));
    assert_eq!(canvas.get_pixel(2, 0), (0, 0, 0, 0));
}

#[test]
fn shear_shifts_each_row() {
    let mut strip = Bitmap::new(2, 4);
    let mut y = 0;
    while y < 4 {
        strip.put_pixel(0, y, (10 + y as u8, 0, 0, 255));
        strip.put_pixel(1, y, (20 + y as u8, 0, 0, 255));
        y += 1;
    }
    let out = shear_image(&strip);
    assert_eq!((out.width(), out.height()), (4, 4));
    assert_eq!(out.get_pixel(2, 0), (10, 0, 0, 255));
    assert_eq!(out.get_pixel(3, 0), (20, 0, 0, 255));
    assert_eq!(out.get_pixel(1, 0), (0, 0, 0, 0));
    assert_eq!(out.get_pixel(2, 1), (11, 0, 0, 255));
    assert_eq!(out.get_pixel(1, 2), (12, 0, 0, 255));
    assert_eq!(out.get_pixel(2, 2), (22, 0, 0, 255));
    assert_eq!(out.get_pixel(3, 2), (0, 0, 0, 0));
    assert_eq!(out.get_pixel(1, 3), (13, 0, 0, 255));
    assert_eq!(italic(&strip).as_raw(), out.as_raw());
}

#[test]
fn paste_overwrites_the_first_rows() {
    let mut canvas = Bitmap::new(3, 33);
    canvas.put_pixel(1, 1, (7, 7, 7, 7));
    canvas.put_pixel(1, 32, (8, 8, 8, 8));
    let mut strip = Bitmap::new(2, 32);
    strip.put_pixel(0, 0, (1, 1, 1, 1));
    strip.put_pixel(1, 30, (2, 2, 2, 2));
    strip.put_pixel(0, 31, (3, 3, 3, 3));
    paste(&mut canvas, &strip, 1, 1);
    assert_eq!(canvas.get_pixel(1, 1), (1, 1, 1, 1));
    assert_eq!(canvas.get_pixel(2, 31), (2, 2, 2, 2));
    assert_eq!(canvas.get_pixel(1, 32), (8, 8, 8, 8));
    assert_eq!(canvas.get_pixel(1, 2), (0, 0, 0, 0));
}

#[test]
fn line_width_sums_the_glyphs() {
    let mut sim = sample_simulator();
    let line = vec!['A', 'B', '!'];
    assert_eq!(sim.get_line_width(&line, &vec![0, 0, 0]), 6 + 5 + 1 + 2 * 2);
    assert_eq!(sim.get_line_width(&line, &vec![0x200, 0, 0x400]), 8 + 5 + 1 + 4 + 2 * 2);
    assert_eq!(sim.get_line_width(&Vec::new(), &Vec::new()), 0);
}

#[test]
fn render_plain_letter() {
    let mut sim = sample_simulator();
    let image = sim.render("A");
    assert_eq!((image.width(), image.height()), (6, 31));
    assert_eq!(image.get_pixel(0, 0), (255, 255, 255, 255));
    assert_eq!(image.get_pixel(3, 7), (128, 128, 128, 128));
    assert_eq!(image.get_pixel(5, 30), (255, 255, 255, 255));
    assert_eq!(checksum(&image), 58938440);
}

#[test]
fn render_bold_letter() {
    let mut sim = sample_simulator();
    let image = sim.render("§lA§r");
    assert_eq!((image.width(), image.height()), (8, 31));
    assert_eq!(image.get_pixel(0, 0), (255, 255, 255, 255));
    assert_eq!(image.get_pixel(3, 7), (128, 128, 128, 128));
    assert_eq!(image.get_pixel(7, 30), (0, 0, 0, 0));
    assert_eq!(image.get_pixel(4, 15), (128, 128, 128, 128));
    assert_eq!(checksum(&image), 91286550);
}

#[test]
fn render_coloured_text() {
    let mut sim = sample_simulator();
    let image = sim.render("§cA§r!");
    assert_eq!((image.width(), image.height()), (9, 31));
    assert_eq!(image.get_pixel(0, 0), (255, 85, 85, 255));
    assert_eq!(image.get_pixel(3, 7), (128, 42, 42, 128));
    assert_eq!(image.get_pixel(8, 30), (0, 0, 0, 0));
    assert_eq!(checksum(&image), 69723500);
}

#[test]
fn render_italic_run() {
    let mut sim = sample_simulator();
    let image = sim.render("§oA");
    assert_eq!((image.width(), image.height()), (10, 31));
    assert_eq!(image.get_pixel(0, 0), (0, 0, 0, 0));
    assert_eq!(image.get_pixel(5, 15), (255, 255, 255, 255));
    assert_eq!(checksum(&image), 88129442);
    let image = sim.render("§oA§rB");
    assert_eq!((image.width(), image.height()), (13, 31));
    assert_eq!(checksum(&image), 146379316);
}

#[test]
fn render_mixed_runs() {
    let mut sim = sample_simulator();
    let image = sim.render("B§oAB§r!A");
    assert_eq!((image.width(), image.height()), (31, 31));
    assert_eq!(image.get_pixel(30, 30), (255, 255, 255, 255));
    assert_eq!(checksum(&image), 856525522);
    let image = sim.render("§l§oAB");
    assert_eq!((image.width(), image.height()), (21, 31));
    assert_eq!(checksum(&image), 337410428);
}

#[test]
fn render_obfuscated_text_takes_the_colour() {
    let mut sim = sample_simulator();
    let image = sim.render("§kA");
    assert_eq!((image.width(), image.height()), (6, 31));
    assert_eq!(checksum(&image), 58938440);
}

#[test]
fn render_lines_below_each_other() {
    let mut sim = sample_simulator();
    let image = sim.render("AB\n!A");
    assert_eq!((image.width(), image.height()), (13, 68));
    assert_eq!(image.get_pixel(0, 0), (255, 255, 255, 255));
    assert_eq!(image.get_pixel(12, 67), (0, 0, 0, 0));
    assert_eq!(checksum(&image), 667744704);
}

#[test]
fn render_of_nothing_is_an_empty_row() {
    let mut sim = sample_simulator();
    let image = sim.render("");
    assert_eq!((image.width(), image.height()), (0, 31));
}

#[test]
fn render_twice_gives_the_same_pixels() {
    let text = "B§oAB§r!A\n§l§cAB§r !";
    let first = sample_simulator().render(text);
    let second = sample_simulator().render(text);
    assert_eq!(first.as_raw(), second.as_raw());
    let mut warm = sample_simulator();
    let third = warm.render(text);
    let fourth = warm.render(text);
    assert_eq!(third.as_raw(), fourth.as_raw());
    assert_eq!(first.as_raw(), fourth.as_raw());
}

#[test]
fn render_with_pages_loaded_later() {
    let mut sim = TellRawSimulator::new(RuneFont::new("font_png"), SimulateOptions::default());
    assert!(!sim.has_group(0));
    sim.add_page(0, PageFile::Image(sample_page()));
    assert!(sim.has_group(0));
    let image = sim.render("A");
    assert_eq!((image.width(), image.height()), (6, 31));
}

#[test]
fn render_function_takes_default_options() {
    let mut font = RuneFont::new("font_png");
    font.add_page(0, PageFile::Image(sample_page()));
    let image = render(font, "A", None);
    assert_eq!((image.width(), image.height()), (6, 31));
    let mut font = RuneFont::new("font_png");
    font.add_page(0, PageFile::Image(sample_page()));
    let mut options = SimulateOptions::default();
    options.font_horizon_padding = 5;
    options.line_padding = 1;
    let image = render(font, "AB\nA", Some(options));
    assert_eq!((image.width(), image.height()), (16, 63));
}

#[test]
fn try_render_draws_what_can_be_drawn() {
    let mut sim = sample_simulator();
    let image = sim.try_render("§lA§r").unwrap();
    assert_eq!((image.width(), image.height()), (8, 31));
    assert_eq!(checksum(&image), 91286550);
}

#[test]
fn try_render_refuses_glyphs_of_pages_not_loaded() {
    let mut sim = sample_simulator();
    assert!(sim.try_render("A你").is_none());
    sim.add_page(0x4F, PageFile::Missing);
    assert!(sim.try_render("A你").is_some());
    let mut bare = TellRawSimulator::new(RuneFont::new("font_png"), SimulateOptions::default());
    assert!(bare.try_render("A").is_none());
    assert!(bare.try_render("").is_some());
}

#[test]
fn try_render_refuses_negative_gaps() {
    let mut font = RuneFont::new("font_png");
    font.add_page(0, PageFile::Image(sample_page()));
    let mut options = SimulateOptions::default();
    options.font_horizon_padding = -1;
    let mut sim = TellRawSimulator::new(font, options);
    assert!(sim.try_render("A").is_none());
}

#[test]
fn measure_line_takes_any_gap() {
    let mut font = RuneFont::new("font_png");
    font.add_page(0, PageFile::Image(sample_page()));
    let mut options = SimulateOptions::default();
    options.font_horizon_padding = -3;
    let mut sim = TellRawSimulator::new(font, options);
    assert_eq!(sim.measure_line(&vec!['A', 'B'], &vec![0, 0]), 6 + 5 - 3);
}

#[test]
fn missing_pages_lists_what_is_to_be_loaded() {
    let mut sim = TellRawSimulator::new(RuneFont::new("font_png"), SimulateOptions::default());
    assert_eq!(sim.missing_pages(""), vec![0]);
    assert_eq!(sim.missing_pages("A你b好\n你😀§l"), vec![0, 0x4F, 0x59, 0x1F6]);
    sim.add_page(0x4F, PageFile::Missing);
    assert_eq!(sim.missing_pages("A你b好\n你😀"), vec![0, 0x59, 0x1F6]);
    sim.add_page(0, PageFile::Missing);
    assert_eq!(sim.missing_pages("A你"), Vec::<u32>::new());
    for group in sim.missing_pages("好😀") {
        sim.add_page(group, PageFile::Missing);
    }
    assert!(sim.try_render("A你b好\n你😀").is_some());
}
