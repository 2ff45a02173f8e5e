use figdriver::wrapper::add_pad;
use figdriver::{Align, Control, Error, FIGfont, Flc, LayoutMode, Smusher, Wrapper};

fn strings(v: &[&str]) -> Vec<String> {
    v.iter().map(|x| x.to_string()).collect()
}

fn required_codes() -> Vec<u32> {
    let mut v: Vec<u32> = (32..127).collect();
    v.extend_from_slice(&[196, 214, 220, 228, 246, 252, 223]);
    v
}

/// A font whose characters are one row high and one column wide, each drawn as itself,
/// the space as a hardblank; characters are set at full width.
fn test_font_text(layout: &str) -> String {
    let mut s = format!("flf2a$ 1 1 1 -1 0 0 {} 0\n", layout);
    for code in required_codes() {
        let c = char::from_u32(code).unwrap();
        if code == 32 {
            s.push_str("$@@\n");
        } else {
            let mark = if c == '@' { '#' } else { '@' };
            s.push(c);
            s.push(mark);
            s.push(mark);
            s.push('\n');
        }
    }
    s
}

fn test_font() -> FIGfont {
    FIGfont::from_bytes(test_font_text("0").as_bytes()).unwrap()
}

/// A two-row font whose characters are two columns wide: "X|" over "X_".
fn wide_font(layout: u32) -> FIGfont {
    let mut s = format!("flf2a$ 2 2 2 0 0 0 {} 0\n", layout);
    for code in required_codes() {
        let c = char::from_u32(code).unwrap();
        let mark = if c == '@' { '#' } else { '@' };
        if code == 32 {
            s.push_str("$$@\n$$@@\n");
        } else {
            s.push_str(&format!("{}|{}\n{}_{}{}\n", c, mark, c, mark, mark));
        }
    }
    FIGfont::from_bytes(s.as_bytes()).unwrap()
}

#[test]
fn test_padding() {
    assert_eq!(add_pad(&strings(&["x", "x"]), 0), strings(&["x", "x"]));
    assert_eq!(add_pad(&strings(&["x", "x"]), 4), strings(&["    x", "    x"]));
}

#[test]
fn test_padding_utf8() {
    assert_eq!(add_pad(&strings(&["á", "á"]), 0), strings(&["á", "á"]));
    assert_eq!(add_pad(&strings(&["á", "á"]), 4), strings(&["    á", "    á"]));
}

#[test]
fn test_space_overflow_no_duplicate_flush() {
    // When input exceeds width and wrap_word is called, characters are wrapped one by one.
    // After a space-triggered flush, the subsequent word is processed correctly without
    // redundant re-flushing of the pre-space buffer.
    // Uses a test font where each character renders to exactly 1 char width.
    let font = test_font();
    let sm = Smusher::new(&font);
    let mut wr = Wrapper::new(sm, 5, Align::Left);

    // "hi test" (7 chars) exceeds width 5, triggering wrap_word.
    // Characters 'h','i',' ','t','e' fit (5 chars). 's' overflows (6 > 5),
    // flushing "hi te". Then 's','t' remain in buffer as "st".
    let flushed = wr.wrap_str("hi test");

    assert_eq!(flushed.len(), 1, "should flush once during wrap_word");
    assert_eq!(&flushed[0][0], &"hi te", "flushed content is 'hi te' (5 chars)");
    assert_eq!(wr.get()[0], "st", "remaining buffer holds 'st'");
}

#[test]
fn test_newline_splits_lines() {
    let font = test_font();
    let mut wr = Wrapper::new(Smusher::new(&font), 80, Align::Left);
    let flushed = wr.wrap_str("hello\nworld");
    assert_eq!(flushed, vec![strings(&["hello"])]);
    assert_eq!(wr.get(), strings(&["world"]));
}

#[test]
fn test_consecutive_newlines_produce_blank_lines() {
    let font = test_font();
    let mut wr = Wrapper::new(Smusher::new(&font), 80, Align::Left);
    let flushed = wr.wrap_str("hello\n\nworld");
    assert_eq!(flushed, vec![strings(&["hello"]), strings(&[""])]);
    assert_eq!(wr.get(), strings(&["world"]));
}

#[test]
fn test_leading_whitespace_after_newline_preserved() {
    let font = test_font();
    let mut wr = Wrapper::new(Smusher::new(&font), 80, Align::Left);
    let flushed = wr.wrap_str("hello\n  world");
    assert_eq!(flushed, vec![strings(&["hello"])]);
    assert_eq!(wr.get(), strings(&["  world"]));
}

#[test]
fn test_crlf_and_bare_cr_handled_as_newlines() {
    let font = test_font();
    let mut wr = Wrapper::new(Smusher::new(&font), 80, Align::Left);
    assert_eq!(wr.wrap_str("hello\r\nworld"), vec![strings(&["hello"])]);
    let mut wr = Wrapper::new(Smusher::new(&font), 80, Align::Left);
    assert_eq!(wr.wrap_str("hello\rworld"), vec![strings(&["hello"])]);
}

#[test]
fn test_leading_newline_flushes_blank_line() {
    let font = test_font();
    let mut wr = Wrapper::new(Smusher::new(&font), 80, Align::Left);
    assert_eq!(wr.wrap_str("\nworld"), vec![strings(&[""])]);
    assert_eq!(wr.get(), strings(&["world"]));
}

#[test]
fn test_trailing_newline_no_blank_line() {
    let font = test_font();
    let mut wr = Wrapper::new(Smusher::new(&font), 80, Align::Left);
    assert_eq!(wr.wrap_str("hello\n"), vec![strings(&["hello"])]);
    assert!(wr.is_empty(), "buffer should be empty after trailing newline");
}

#[test]
fn test_wrap_codes_basic() {
    let font = test_font();
    let mut wr = Wrapper::new(Smusher::new(&font), 80, Align::Left);
    let flushed = wr.wrap_codes(&[72, 105]);
    assert!(flushed.is_empty(), "short input should not flush");
    assert!(!wr.is_empty(), "buffer should contain rendered Hi");
}

#[test]
fn test_wrap_codes_with_newline() {
    let font = test_font();
    let mut wr = Wrapper::new(Smusher::new(&font), 80, Align::Left);
    let flushed = wr.wrap_codes(&[72, 105, 10]);
    assert_eq!(flushed.len(), 1, "newline code should flush");
    assert!(wr.is_empty(), "buffer should be empty after flush");
}

#[test]
fn test_push_codes() {
    let font = test_font();
    let mut wr = Wrapper::new(Smusher::new(&font), 80, Align::Left);
    wr.push_codes(&[72, 105]).unwrap(); // "Hi"
    assert!(!wr.is_empty());
}

/* Further cases */

#[test]
fn refused_push_leaves_wrapper_unchanged() {
    let font = test_font();
    let mut wr = Wrapper::new(Smusher::new(&font), 3, Align::Left);
    wr.push_str("ab").unwrap();
    assert!(matches!(wr.push_str("cd"), Err(Error::LineFull)));
    assert_eq!(wr.len(), 2);
    assert!(matches!(wr.push('c'), Ok(())));
    assert!(matches!(wr.push_code('d' as i32), Err(Error::LineFull)));
    assert_eq!(wr.get(), strings(&["abc"]));
}

#[test]
fn alignment_pads_within_width() {
    let font = test_font();
    let mut wr = Wrapper::new(Smusher::new(&font), 10, Align::Right);
    wr.push_str("abc").unwrap();
    assert_eq!(wr.get(), strings(&["       abc"]));
    let mut wr = Wrapper::new(Smusher::new(&font), 10, Align::Center);
    wr.push_str("abc").unwrap();
    assert_eq!(wr.get(), strings(&["    abc"]));
    assert_eq!(wr.align(), Align::Center);
    assert_eq!(wr.width(), 10);
}

#[test]
fn hardblanks_become_spaces() {
    let font = test_font();
    let mut wr = Wrapper::new(Smusher::new(&font), 10, Align::Left);
    wr.push_str("a b").unwrap();
    assert_eq!(wr.get(), strings(&["a b"]));
}

#[test]
fn words_wrap_at_spaces() {
    let font = test_font();
    let mut wr = Wrapper::new(Smusher::new(&font), 6, Align::Left);
    let mut flushed = Vec::new();
    for token in ["one", " ", "two", " ", "three"] {
        flushed.extend(wr.wrap_str(token));
    }
    assert_eq!(flushed, vec![strings(&["one"]), strings(&["two"])]);
    assert_eq!(wr.get(), strings(&["three"]));
}

#[test]
fn pending_space_committed_by_get() {
    let font = test_font();
    let mut wr = Wrapper::new(Smusher::new(&font), 10, Align::Left);
    assert!(wr.wrap_str("ab").is_empty());
    assert!(wr.wrap_str(" ").is_empty());
    assert_eq!(wr.len(), 2);
    assert_eq!(wr.get(), strings(&["ab "]));
}

#[test]
fn overwide_word_is_cut() {
    let font = test_font();
    let mut wr = Wrapper::new(Smusher::new(&font), 3, Align::Left);
    let flushed = wr.wrap_str("abcdefg");
    assert_eq!(flushed, vec![strings(&["abc"]), strings(&["def"])]);
    assert_eq!(wr.get(), strings(&["g"]));
}

#[test]
fn clear_empties_output() {
    let font = test_font();
    let mut wr = Wrapper::new(Smusher::new(&font), 10, Align::Left);
    wr.push_str("abc").unwrap();
    wr.clear();
    assert!(wr.is_empty());
    assert_eq!(wr.len(), 0);
}

#[test]
fn smushing_equal_characters() {
    // rule 1: equal characters smush; both rows "X|"/"X_" overlap by one column
    let font = wide_font(128 + 1);
    let mut sm = Smusher::new(&font);
    assert!(sm.push('A'));
    assert!(sm.push('A'));
    assert_eq!(sm.get(), strings(&["A|A|", "A_A_"]));
}

#[test]
fn kerning_and_full_width() {
    let font = wide_font(128 + 1);
    let mut sm = Smusher::builder(&font).layout_mode(LayoutMode::FullWidth).build();
    sm.push_str("AB");
    assert_eq!(sm.get(), strings(&["A|B|", "A_B_"]));
    let mut sm = Smusher::builder(&font).layout_mode(LayoutMode::Kern).build();
    sm.push_str("AB");
    assert_eq!(sm.get(), strings(&["A|B|", "A_B_"]));
    assert_eq!(sm.len(), 4);
}

#[test]
fn universal_overlap_prefers_later_character() {
    let font = wide_font(0);
    let mut sm = Smusher::builder(&font).layout_mode(LayoutMode::Overlap).build();
    // '|' and 'B' overlap: the later character wins
    sm.push_str("AB");
    assert_eq!(sm.get(), strings(&["AB|", "AB_"]));
    // right to left, the later character is on the left: its '|' wins over 'A'
    let mut sm = Smusher::builder(&font).layout_mode(LayoutMode::Overlap).right_to_left(true).build();
    sm.push_str("AB");
    assert_eq!(sm.get(), strings(&["B||", "B__"]));
}

#[test]
fn control_maps_codes_before_rendering() {
    let font = test_font();
    let flc = Flc::load_from_bytes(b"t a-z A-Z\n").unwrap();
    let control = Control::from_files(vec![flc]);
    let mut sm = Smusher::builder(&font).control(Some(&control)).build();
    sm.push_str("hi");
    assert_eq!(sm.get(), strings(&["HI"]));
    assert!(!sm.push_code(-5));
    sm.trim(1);
    assert_eq!(sm.get_raw(), strings(&["H"]));
    sm.clear();
    assert!(sm.is_empty());
}

/// A two-row font in which 'W' is drawn as a wide character over a narrow one.
fn cjk_font() -> FIGfont {
    let mut s = String::from("flf2a$ 2 2 2 0 0 0 0 0\n");
    for code in required_codes() {
        let c = char::from_u32(code).unwrap();
        let mark = if c == '@' { '#' } else { '@' };
        if code == 32 {
            s.push_str("$@\n$@@\n");
        } else if c == 'W' {
            s.push_str("\u{5BBD}@\nw@@\n");
        } else {
            s.push_str(&format!("{}{}\n{}{}{}\n", c, mark, c, mark, mark));
        }
    }
    FIGfont::from_bytes(s.as_bytes()).unwrap()
}

// Lines are padded and aligned by display width, not by number of characters
#[test]
fn get_pads_and_aligns_by_display_width() {
    let font = cjk_font();
    let mut left = Wrapper::new(Smusher::new(&font), 6, Align::Left);
    left.push_str("W").unwrap();
    assert_eq!(left.get(), strings(&["\u{5BBD}", "w "]));
    let mut right = Wrapper::new(Smusher::new(&font), 6, Align::Right);
    right.push_str("W").unwrap();
    assert_eq!(right.get(), strings(&["    \u{5BBD}", "    w "]));
    let mut center = Wrapper::new(Smusher::new(&font), 7, Align::Center);
    center.push_str("W").unwrap();
    assert_eq!(center.get(), strings(&["   \u{5BBD}", "   w "]));
}

// Centring and right alignment put spaces before the left-aligned lines
#[test]
fn alignments_shift_the_left_layout() {
    let font = test_font();
    let mut out = Vec::new();
    for align in [Align::Left, Align::Center, Align::Right] {
        let mut w = Wrapper::new(Smusher::new(&font), 12, align);
        w.push_str("new test").unwrap();
        out.push(w.get());
    }
    assert_eq!(out[0], strings(&["new test"]));
    assert_eq!(out[1], vec![format!("  {}", out[0][0])]);
    assert_eq!(out[2], vec![format!("    {}", out[0][0])]);
}

// Taking the output twice gives the same lines
#[test]
fn get_twice_gives_the_same() {
    let font = test_font();
    let mut w = Wrapper::new(Smusher::new(&font), 5, Align::Right);
    w.push_str("ab").unwrap();
    w.push_str("  ").unwrap();
    let first = w.get();
    let second = w.get();
    assert_eq!(first, second);
}
