use mcbe_text_impact::atlas::{crop, resize};
use mcbe_text_impact::bitmap::Bitmap;
use mcbe_text_impact::font::{
    embolden, get_bbox, is_grayscale, obfuscate, page_file_from, tight_font, Font, FontMaker,
    PageFile, RuneFont,
};

fn sample_page() -> Bitmap {
    let mut page = Bitmap::new(512, 512);
    let mut y = 0;
    while y < 31 {
        let mut x = 2;
        while x < 8 {
            let alpha = if (x + y) % 3 != 0 { 255 } else { 128 };
            page.put_pixel(32 + x, 128 + y, (200, 200, 200, alpha));
            x += 1;
        }
        y += 1;
    }
    let mut y = 5;
    while y < 21 {
        let mut x = 0;
        while x < 5 {
            page.put_pixel(64 + x, 128 + y, (255, 255, 255, 255));
            x += 1;
        }
        y += 1;
    }
    let mut y = 3;
    while y < 28 {
        page.put_pixel(32 + 3, 64 + y, (90, 90, 90, 200));
        y += 1;
    }
    page
}

fn sample_font() -> RuneFont {
    let mut font = RuneFont::new("font_png");
    font.add_page(0, PageFile::Image(sample_page()));
    font
}

#[test]
fn bitmap_starts_transparent() {
    let b = Bitmap::new(3, 2);
    assert_eq!(b.width(), 3);
    assert_eq!(b.height(), 2);
    assert_eq!(b.get_pixel(2, 1), (0, 0, 0, 0));
    assert_eq!(b.as_raw().len(), 24);
}

#[test]
fn bitmap_keeps_pixels_apart() {
    let mut b = Bitmap::new(3, 2);
    b.put_pixel(1, 0, (1, 2, 3, 4));
    b.put_pixel(2, 1, (5, 6, 7, 8));
    assert_eq!(b.get_pixel(1, 0), (1, 2, 3, 4));
    assert_eq!(b.get_pixel(2, 1), (5, 6, 7, 8));
    assert_eq!(b.get_pixel(0, 0), (0, 0, 0, 0));
    assert_eq!(b.get_pixel(1, 1), (0, 0, 0, 0));
    assert_eq!(&b.as_raw()[4..8], &[1, 2, 3, 4]);
    assert_eq!(&b.as_raw()[20..24], &[5, 6, 7, 8]);
    let copy = b.copy();
    assert_eq!(copy.as_raw(), b.as_raw());
}

#[test]
fn bitmap_from_raw_asks_for_the_right_length() {
    assert!(Bitmap::from_raw(2, 2, vec![0; 16]).is_some());
    assert!(Bitmap::from_raw(2, 2, vec![0; 15]).is_none());
    assert!(Bitmap::from_raw(2, 2, vec![0; 17]).is_none());
    let b = Bitmap::from_raw(1, 2, vec![1, 2, 3, 4, 5, 6, 7, 8]).unwrap();
    assert_eq!(b.get_pixel(0, 1), (5, 6, 7, 8));
    assert_eq!(b.into_raw(), vec![1, 2, 3, 4, 5, 6, 7, 8]);
}

#[test]
fn crop_takes_the_rectangle() {
    let mut b = Bitmap::new(4, 4);
    let mut y = 0;
    while y < 4 {
        let mut x = 0;
        while x < 4 {
            b.put_pixel(x, y, ((10 * y + x) as u8, 0, 0, 255));
            x += 1;
        }
        y += 1;
    }
    let part = crop(&b, 1, 2, 2, 2);
    assert_eq!(part.width(), 2);
    assert_eq!(part.height(), 2);
    assert_eq!(part.get_pixel(0, 0), (21, 0, 0, 255));
    assert_eq!(part.get_pixel(1, 0), (22, 0, 0, 255));
    assert_eq!(part.get_pixel(0, 1), (31, 0, 0, 255));
    assert_eq!(part.get_pixel(1, 1), (32, 0, 0, 255));
}

#[test]
fn crop_is_cut_down_to_the_picture() {
    let b = Bitmap::new(4, 4);
    let part = crop(&b, 3, 1, 10, 10);
    assert_eq!((part.width(), part.height()), (1, 3));
    let part = crop(&b, 9, 9, 2, 2);
    assert_eq!((part.width(), part.height()), (0, 0));
    let part = crop(&b, 0, 0, 0, 4);
    assert_eq!((part.width(), part.height()), (0, 4));
}

#[test]
fn resize_keeps_a_picture_of_the_same_size() {
    let mut b = Bitmap::new(2, 2);
    b.put_pixel(1, 1, (9, 8, 7, 6));
    let same = resize(&b, 2, 2);
    assert_eq!(same.as_raw(), b.as_raw());
}

#[test]
fn resize_takes_the_nearest_pixel() {
    let mut b = Bitmap::new(2, 1);
    b.put_pixel(0, 0, (10, 20, 30, 255));
    b.put_pixel(1, 0, (200, 100, 50, 255));
    let big = resize(&b, 4, 2);
    assert_eq!((big.width(), big.height()), (4, 2));
    assert_eq!(big.as_raw().len(), 32);
    assert_eq!(big.get_pixel(0, 0), (10, 20, 30, 255));
    assert_eq!(big.get_pixel(1, 1), (10, 20, 30, 255));
    assert_eq!(big.get_pixel(2, 0), (200, 100, 50, 255));
    assert_eq!(big.get_pixel(3, 1), (200, 100, 50, 255));
}

#[test]
fn rune_to_idx_splits_the_code() {
    assert_eq!(RuneFont::rune_to_idx("A"), (0, 4, 1));
    assert_eq!(RuneFont::rune_to_idx(""), (0, 0, 0));
    assert_eq!(RuneFont::rune_to_idx("你"), (0x4F, 6, 0));
    assert_eq!(RuneFont::rune_to_idx("😀"), (0x1F6, 0, 0));
    assert_eq!(RuneFont::rune_to_idx("!x"), (0, 2, 1));
}

#[test]
fn rune_to_raw_idx_gives_the_last_unit() {
    assert_eq!(RuneFont::rune_to_raw_idx(""), 0);
    assert_eq!(RuneFont::rune_to_raw_idx("A"), 65);
    assert_eq!(RuneFont::rune_to_raw_idx("你"), 0x4F60);
    assert_eq!(RuneFont::rune_to_raw_idx("😀"), 0xDE00);
    assert_eq!(RuneFont::rune_to_raw_idx("ab"), 98);
    let units: Vec<u16> = "x😀".encode_utf16().collect();
    assert_eq!(RuneFont::rune_to_raw_idx("x😀"), units[units.len() - 1] as u32);
}

#[test]
fn idx_to_rune_gives_the_character() {
    assert_eq!(RuneFont::idx_to_rune(0, 4, 1), "A");
    assert_eq!(RuneFont::idx_to_rune(0x4F, 6, 0), "你");
    assert_eq!(RuneFont::idx_to_rune(0xD8, 0, 0), " ");
    assert_eq!(RuneFont::idx_to_rune(0x100, 4, 1), "A");
    assert_eq!(RuneFont::idx_to_rune(0, 2, 1), "!");
}

#[test]
fn grayscale_is_told_from_colour() {
    let mut b = Bitmap::new(2, 2);
    assert!(is_grayscale(&b));
    b.put_pixel(0, 1, (7, 7, 7, 200));
    assert!(is_grayscale(&b));
    b.put_pixel(1, 1, (7, 7, 8, 200));
    assert!(!is_grayscale(&b));
}

#[test]
fn bbox_frames_the_visible_pixels() {
    let mut b = Bitmap::new(8, 6);
    assert_eq!(get_bbox(&b), None);
    b.put_pixel(3, 2, (0, 0, 0, 1));
    assert_eq!(get_bbox(&b), Some((3, 2, 4, 3)));
    b.put_pixel(5, 4, (0, 0, 0, 255));
    b.put_pixel(1, 3, (0, 0, 0, 9));
    assert_eq!(get_bbox(&b), Some((1, 2, 6, 5)));
    b.put_pixel(7, 0, (255, 255, 255, 0));
    assert_eq!(get_bbox(&b), Some((1, 2, 6, 5)));
}

#[test]
fn tight_font_cuts_to_the_used_columns() {
    let mut cell = Bitmap::new(32, 31);
    cell.put_pixel(4, 10, (1, 1, 1, 255));
    cell.put_pixel(9, 3, (1, 1, 1, 255));
    let tight = tight_font(&cell);
    assert_eq!((tight.width(), tight.height()), (6, 31));
    assert_eq!(tight.get_pixel(0, 10), (1, 1, 1, 255));
    assert_eq!(tight.get_pixel(5, 3), (1, 1, 1, 255));
    let empty = tight_font(&Bitmap::new(32, 31));
    assert_eq!((empty.width(), empty.height()), (4, 31));
}

#[test]
fn obfuscate_and_embolden_shape_a_glyph() {
    let mut b = Bitmap::new(2, 1);
    b.put_pixel(0, 0, (50, 60, 70, 80));
    b.put_pixel(1, 0, (90, 91, 92, 93));
    let hidden = obfuscate(&b);
    assert_eq!(hidden.get_pixel(0, 0), (1, 1, 1, 80));
    assert_eq!(hidden.get_pixel(1, 0), (1, 1, 1, 93));
    let wide = embolden(&b);
    assert_eq!((wide.width(), wide.height()), (4, 1));
    assert_eq!(wide.get_pixel(0, 0), (50, 60, 70, 80));
    assert_eq!(wide.get_pixel(1, 0), (90, 91, 92, 93));
    assert_eq!(wide.get_pixel(2, 0), (90, 91, 92, 93));
    assert_eq!(wide.get_pixel(3, 0), (0, 0, 0, 0));
}

#[test]
fn font_holds_its_bitmap() {
    let glyph = Font::new(Bitmap::new(5, 31), true);
    assert_eq!(glyph.width(), 5);
    assert_eq!(glyph.height(), 31);
    assert!(glyph.colored);
    let copy = glyph.clone();
    assert_eq!(copy.width(), 5);
    assert!(copy.colored);
}

#[test]
fn glyph_is_cut_from_its_cell() {
    let mut font = sample_font();
    assert!(font.has_group(0));
    assert!(!font.has_group(1));
    assert_eq!(font.root_dir(), "font_png");
    let glyph = font.get_font("A", 0);
    assert_eq!((glyph.width(), glyph.height()), (6, 31));
    assert!(!glyph.colored);
    assert_eq!(glyph.mat.get_pixel(0, 0), (200, 200, 200, 255));
    assert_eq!(glyph.mat.get_pixel(1, 0), (200, 200, 200, 128));
    assert_eq!(glyph.mat.get_pixel(5, 30), (200, 200, 200, 255));
}

#[test]
fn glyph_of_an_empty_cell_is_as_wide_as_a_space() {
    let mut font = sample_font();
    let glyph = font.get_font(" ", 0);
    assert_eq!((glyph.width(), glyph.height()), (4, 31));
    assert_eq!(glyph.mat.get_pixel(0, 0), (0, 0, 0, 0));
    let glyph = font.get_font("", 0);
    assert_eq!((glyph.width(), glyph.height()), (4, 31));
}

#[test]
fn bold_glyph_is_wider_by_the_pad() {
    let mut font = sample_font();
    let plain = font.get_font("A", 0);
    let bold = font.get_font("A", 0x200);
    assert_eq!(bold.width(), plain.width() + 2);
    assert_eq!(bold.mat.get_pixel(5, 3), (200, 200, 200, 255));
    assert_eq!(bold.mat.get_pixel(6, 3), (200, 200, 200, 255));
    assert_eq!(bold.mat.get_pixel(7, 3), (0, 0, 0, 0));
}

#[test]
fn obfuscated_glyph_keeps_its_alpha() {
    let mut font = sample_font();
    let glyph = font.get_font("A", 0x100);
    assert_eq!(glyph.width(), 6);
    assert_eq!(glyph.mat.get_pixel(0, 0), (1, 1, 1, 255));
    assert_eq!(glyph.mat.get_pixel(1, 0), (1, 1, 1, 128));
    let both = font.get_font("!", 0x300);
    assert_eq!(both.width(), 3);
    assert_eq!(both.mat.get_pixel(0, 3), (1, 1, 1, 200));
    assert_eq!(both.mat.get_pixel(1, 3), (1, 1, 1, 200));
    assert_eq!(both.mat.get_pixel(2, 3), (0, 0, 0, 0));
    assert_eq!(both.mat.get_pixel(0, 0), (1, 1, 1, 0));
}

#[test]
fn glyph_of_a_coloured_page_is_not_shaped() {
    let mut page = sample_page();
    page.put_pixel(500, 500, (255, 0, 0, 255));
    let mut font = RuneFont::new("font_png");
    font.add_page(0, PageFile::Image(page));
    let glyph = font.get_font("A", 0x300);
    assert!(glyph.colored);
    assert_eq!(glyph.width(), 6);
    assert_eq!(glyph.mat.get_pixel(0, 0), (200, 200, 200, 255));
}

#[test]
fn cache_returns_equal_glyphs() {
    let mut font = sample_font();
    let first = font.get_font("A", 0x200);
    let second = font.get_font("A", 0x200);
    assert_eq!(first.mat.as_raw(), second.mat.as_raw());
    assert_eq!(first.width(), second.width());
    assert_eq!(first.colored, second.colored);
    let mut fresh = sample_font();
    let third = fresh.get_font("A", 0x200);
    assert_eq!(first.mat.as_raw(), third.mat.as_raw());
}

#[test]
fn missing_page_is_blank() {
    let mut font = RuneFont::new("nowhere");
    font.add_page(0x4F, PageFile::Missing);
    let glyph = font.get_font("你", 0);
    assert_eq!((glyph.width(), glyph.height()), (4, 31));
    assert!(!glyph.colored);
}

#[test]
fn unreadable_page_falls_back_to_the_space() {
    let mut font = sample_font();
    font.add_page(0x4F, PageFile::Unreadable);
    let glyph = font.get_font("你", 0x200);
    assert_eq!((glyph.width(), glyph.height()), (6, 31));
    let space = font.get_font(" ", 0x200);
    assert_eq!(glyph.mat.as_raw(), space.mat.as_raw());
}

#[test]
fn first_page_loaded_stays() {
    let mut font = sample_font();
    font.add_page(0, PageFile::Missing);
    let glyph = font.get_font("A", 0);
    assert_eq!(glyph.width(), 6);
}

#[test]
fn page_is_resized_to_the_page_size() {
    let mut small = Bitmap::new(256, 256);
    let mut y = 0;
    while y < 15 {
        small.put_pixel(16 + 1, 64 + y, (255, 255, 255, 255));
        small.put_pixel(16 + 2, 64 + y, (255, 255, 255, 255));
        y += 1;
    }
    let mut font = RuneFont::new("font_png");
    font.add_page(0, PageFile::Image(small));
    let glyph = font.get_font("A", 0);
    assert_eq!((glyph.width(), glyph.height()), (4, 31));
    assert_eq!(glyph.mat.get_pixel(0, 0), (255, 255, 255, 255));
    assert_eq!(glyph.mat.get_pixel(3, 29), (255, 255, 255, 255));
}

#[test]
fn font_maker_makes_the_same_glyph() {
    let mut font = sample_font();
    let by_trait = FontMaker::get_font(&mut font, "A", 0);
    let direct = font.get_font("A", 0);
    assert_eq!(by_trait.mat.as_raw(), direct.mat.as_raw());
}

#[test]
fn can_resolve_tells_which_glyphs_can_be_made() {
    let mut font = RuneFont::new("font_png");
    assert!(!font.can_resolve('A'));
    font.add_page(0x4F, PageFile::Unreadable);
    assert!(!font.can_resolve('你'));
    font.add_page(0, PageFile::Missing);
    assert!(font.can_resolve('A'));
    assert!(font.can_resolve('你'));
    assert!(!font.can_resolve('é' ) || font.has_group(0));
    assert!(!font.can_resolve('😀'));
}

#[test]
fn page_path_names_the_page_in_hexadecimal() {
    let font = RuneFont::new("font_png");
    assert_eq!(font.page_path(0), "font_png/glyph_00.png");
    assert_eq!(font.page_path(0xA), "font_png/glyph_0A.png");
    assert_eq!(font.page_path(0x4F), "font_png/glyph_4F.png");
    assert_eq!(font.page_path(0xFF), "font_png/glyph_FF.png");
    assert_eq!(font.page_path(0x10F), "font_png/glyph_10F.png");
    assert_eq!(RuneFont::new("").page_path(0x10FF), "/glyph_10FF.png");
}

#[test]
fn page_path_agrees_with_the_standard_formatting() {
    let font = RuneFont::new("atlas");
    let mut group: u32 = 0;
    while group < 0x1100 {
        assert_eq!(font.page_path(group), format!("atlas/glyph_{:02X}.png", group));
        group += 1;
    }
}

#[test]
fn page_file_from_takes_images_that_fit() {
    assert!(matches!(page_file_from(2, 1, vec![0; 8]), PageFile::Image(_)));
    assert!(matches!(page_file_from(2, 1, vec![0; 7]), PageFile::Unreadable));
    assert!(matches!(page_file_from(0, 1, Vec::new()), PageFile::Unreadable));
    assert!(matches!(page_file_from(1, 0, Vec::new()), PageFile::Unreadable));
    match page_file_from(1, 1, vec![1, 2, 3, 4]) {
        PageFile::Image(image) => assert_eq!(image.get_pixel(0, 0), (1, 2, 3, 4)),
        _ => panic!("an image of one pixel is a page file"),
    }
}
