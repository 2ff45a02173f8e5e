use figdriver::listing::classify_names;
use figdriver::program::{is_blank_codes, strip_font_suffix, strip_line_end, strip_line_end_str};

#[test]
fn is_blank_codes_empty() {
    assert!(is_blank_codes(&[]));
}

#[test]
fn is_blank_codes_spaces_only() {
    assert!(is_blank_codes(&[32, 32, 32]));
}

#[test]
fn is_blank_codes_newlines_only() {
    assert!(is_blank_codes(&[10, 13]));
}

#[test]
fn is_blank_codes_tabs_only() {
    assert!(is_blank_codes(&[9, 9]));
}

#[test]
fn is_blank_codes_mixed_whitespace() {
    assert!(is_blank_codes(&[32, 9, 10, 13]));
}

#[test]
fn is_blank_codes_has_text() {
    assert!(!is_blank_codes(&[65, 32]));
}

#[test]
fn is_blank_codes_only_text() {
    assert!(!is_blank_codes(&[65, 66, 67]));
}

#[test]
fn strip_font_suffix_cases() {
    assert_eq!(strip_font_suffix("standard.flf"), "standard");
    assert_eq!(strip_font_suffix("mono9.tlf"), "mono9");
    assert_eq!(strip_font_suffix("banner"), "banner");
    assert_eq!(strip_font_suffix("x.flc"), "x.flc");
    assert_eq!(strip_font_suffix(".flf"), "");
}

use figdriver::program::{
    control_file_name, flush_paragraph_eof, font_candidates, is_blank_str, is_ws_code,
    resolve_align, resolve_direction, resolve_layout_mode, tokenize_codes, tokenize_str,
    write_line, write_line_codes, write_paragraph, write_paragraph_codes, Justify, PrintDir,
};
use figdriver::{Align, FIGfont, LayoutMode, Smusher, Wrapper};

fn strings(v: &[&str]) -> Vec<String> {
    v.iter().map(|x| x.to_string()).collect()
}

fn test_font() -> FIGfont {
    let mut s = String::from("flf2a$ 1 1 1 -1 0 0 0 0\n");
    let mut codes: Vec<u32> = (32..127).collect();
    codes.extend_from_slice(&[196, 214, 220, 228, 246, 252, 223]);
    for code in codes {
        let c = char::from_u32(code).unwrap();
        if code == 32 {
            s.push_str("$@@\n");
        } else {
            let mark = if c == '@' { '#' } else { '@' };
            s.push(c);
            s.push(mark);
            s.push(mark);
            s.push('\n');
        }
    }
    FIGfont::from_bytes(s.as_bytes()).unwrap()
}

#[test]
fn ws_codes() {
    assert!(is_ws_code(32) && is_ws_code(9) && is_ws_code(10) && is_ws_code(13));
    assert!(!is_ws_code(11) && !is_ws_code(65));
    assert!(is_blank_str(" \t\r\n"));
    assert!(!is_blank_str(" x "));
}

#[test]
fn code_tokens_group_spaces_and_other_whitespace() {
    let tokens = tokenize_codes(&[97, 32, 32, 9, 10, 98, 32]);
    assert_eq!(tokens, vec![vec![97], vec![32, 32], vec![9, 10], vec![98], vec![32]]);
    assert!(tokenize_codes(&[]).is_empty());
}

#[test]
fn str_tokens_keep_spaces_after_whitespace() {
    let tokens = tokenize_str("a  \t b");
    assert_eq!(tokens, vec![vec![97], vec![32, 32], vec![9, 32], vec![98]]);
}

#[test]
fn line_is_rendered_and_flushed() {
    let font = test_font();
    let mut wr = Wrapper::new(Smusher::new(&font), 20, Align::Left);
    assert_eq!(write_line(&mut wr, "hi there\n"), vec![strings(&["hi there"])]);
    assert_eq!(write_line_codes(&mut wr, &[104, 105, 10]), vec![strings(&["hi"])]);
    assert!(write_line(&mut wr, "").is_empty());
}

#[test]
fn line_wraps_at_width() {
    let font = test_font();
    let mut wr = Wrapper::new(Smusher::new(&font), 5, Align::Right);
    assert_eq!(write_line(&mut wr, "ab cd ef"), vec![strings(&["ab cd"]), strings(&["   ef"])]);
}

#[test]
fn paragraph_joins_lines() {
    let font = test_font();
    let mut wr = Wrapper::new(Smusher::new(&font), 20, Align::Left);
    assert!(write_paragraph(&mut wr, "one").is_empty());
    assert!(write_paragraph(&mut wr, "two").is_empty());
    assert_eq!(write_paragraph(&mut wr, ""), vec![strings(&["one two"])]);
    assert!(write_paragraph(&mut wr, "three").is_empty());
    assert_eq!(write_paragraph(&mut wr, " four"), vec![strings(&["three"])]);
    assert_eq!(flush_paragraph_eof(&mut wr, true), vec![strings(&[" four "])]);
    assert!(flush_paragraph_eof(&mut wr, true).len() == 1);
}

#[test]
fn paragraph_codes_and_end() {
    let font = test_font();
    let mut wr = Wrapper::new(Smusher::new(&font), 20, Align::Left);
    assert!(write_paragraph_codes(&mut wr, &[97]).is_empty());
    assert!(write_paragraph_codes(&mut wr, &[98]).is_empty());
    assert_eq!(flush_paragraph_eof(&mut wr, false), vec![strings(&["a b"])]);
    wr.clear();
    assert!(flush_paragraph_eof(&mut wr, false).is_empty());
}

#[test]
fn layout_mode_resolution() {
    assert!(matches!(resolve_layout_mode(None, None, None, None), Ok(None)));
    assert!(matches!(resolve_layout_mode(None, None, Some(LayoutMode::Kern), Some(1)), Ok(Some(LayoutMode::Kern))));
    assert!(matches!(resolve_layout_mode(Some(0), Some(0), None, None), Ok(Some(LayoutMode::Kern))));
    assert!(matches!(resolve_layout_mode(Some(-1), Some(0), None, None), Ok(Some(LayoutMode::FullWidth))));
    assert!(matches!(resolve_layout_mode(Some(-2), Some(0), None, None), Ok(Some(LayoutMode::SmushDefault))));
    assert!(matches!(resolve_layout_mode(Some(5), Some(0), None, None), Ok(Some(LayoutMode::Custom(5)))));
    assert!(matches!(resolve_layout_mode(Some(-3), Some(0), None, None), Err(-3)));
    // the later of -m and a layout flag wins
    assert!(matches!(resolve_layout_mode(Some(0), Some(3), Some(LayoutMode::Overlap), Some(1)), Ok(Some(LayoutMode::Kern))));
    assert!(matches!(resolve_layout_mode(Some(0), Some(1), Some(LayoutMode::Overlap), Some(3)), Ok(Some(LayoutMode::Overlap))));
}

#[test]
fn direction_and_alignment() {
    assert!(!resolve_direction(PrintDir::Ltr, true));
    assert!(resolve_direction(PrintDir::Rtl, false));
    assert!(resolve_direction(PrintDir::FontDefault, true));
    assert_eq!(resolve_align(Justify::Default, true), Align::Right);
    assert_eq!(resolve_align(Justify::Default, false), Align::Left);
    assert_eq!(resolve_align(Justify::Center, true), Align::Center);
    assert_eq!(resolve_align(Justify::Left, true), Align::Left);
    assert_eq!(resolve_align(Justify::Right, false), Align::Right);
}

#[test]
fn file_names() {
    assert_eq!(font_candidates("small"), strings(&["small.flf", "small.tlf"]));
    assert_eq!(font_candidates("small.tlf"), strings(&["small.tlf"]));
    assert_eq!(control_file_name("upper"), "upper.flc");
    assert_eq!(control_file_name("upper.flc"), "upper.flc");
}

// Line endings are taken off the end of a line, and their presence is reported
#[test]
fn strip_line_end_bytes() {
    assert_eq!(strip_line_end(b"abc\n"), (b"abc".to_vec(), true));
    assert_eq!(strip_line_end(b"abc\r\n"), (b"abc".to_vec(), true));
    assert_eq!(strip_line_end(b"abc\n\r\n"), (b"abc".to_vec(), true));
    assert_eq!(strip_line_end(b"abc"), (b"abc".to_vec(), false));
    assert_eq!(strip_line_end(b"a\nb"), (b"a\nb".to_vec(), false));
    assert_eq!(strip_line_end(b"\n"), (Vec::new(), true));
    assert_eq!(strip_line_end(b""), (Vec::new(), false));
}

#[test]
fn strip_line_end_text() {
    assert_eq!(strip_line_end_str("h\u{e9}llo\r\n"), ("h\u{e9}llo".to_string(), true));
    assert_eq!(strip_line_end_str("word"), ("word".to_string(), false));
    assert_eq!(strip_line_end_str("\r"), (String::new(), true));
}

// Directory entries sort into fonts and control files, with the default font
#[test]
fn classify_directory_names() {
    let names = strings(&[
        "small.flf", "upper.flc", "README", "standard.flf", "banner.tlf", "a.flc.flc", "big.FLF",
    ]);
    let (fonts, controls, default) = classify_names(&names);
    assert_eq!(fonts, strings(&["banner", "small", "standard"]));
    assert_eq!(controls, strings(&["a", "upper"]));
    assert_eq!(default, "standard");
}

#[test]
fn classify_default_is_first_font_without_standard() {
    let (fonts, controls, default) = classify_names(&strings(&["zeta.flf", "Beta.flf", "alpha.tlf"]));
    assert_eq!(fonts, strings(&["Beta", "alpha", "zeta"]));
    assert!(controls.is_empty());
    assert_eq!(default, "Beta");
    let (fonts, _, default) = classify_names(&strings(&["x.flc", "notes.txt"]));
    assert!(fonts.is_empty());
    assert_eq!(default, "N/A");
}
