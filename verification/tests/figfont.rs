use figdriver::figfont::{char_from_u32, u32_from_str};
use figdriver::{Error, FIGchar, FIGfont};
use std::io::Write;

/// The required characters of a font, in file order.
fn required_codes() -> Vec<u32> {
    let mut v: Vec<u32> = (32..127).collect();
    v.extend_from_slice(&[196, 214, 220, 228, 246, 252, 223]);
    v
}

fn glyph_text(rows: &[&str], mark: char) -> String {
    let mut s = String::new();
    for (i, r) in rows.iter().enumerate() {
        s.push_str(r);
        s.push(mark);
        if i + 1 == rows.len() {
            s.push(mark);
        }
        s.push('\n');
    }
    s
}

/// A font in the layout of the standard font: six rows, '$' hardblank, a few characters
/// drawn as in that font and the others as a box of their own letter.
fn standard_font_text() -> String {
    let mut s = String::from("flf2a$ 6 5 16 15 3 0 24463 229\n");
    s.push_str("Standard by Glenn Chappell & Ian Chai 3/93 -- based on Frank's .sig\n");
    s.push_str("Includes ISO Latin-1\n");
    s.push_str("figlet release 2.1 -- 12 Aug 1994\n");
    for code in required_codes() {
        let rows: Vec<String> = match code {
            32 => vec![" $".to_string(); 6],
            65 => vec![
                r"     _    ".to_string(),
                r"    / \   ".to_string(),
                r"   / _ \  ".to_string(),
                r"  / ___ \ ".to_string(),
                r" /_/   \_\".to_string(),
                r"          ".to_string(),
            ],
            223 => vec![
                r"   ___ ".to_string(),
                r"  / _ \".to_string(),
                r" | |/ /".to_string(),
                r" | |\ \".to_string(),
                r" | ||_/".to_string(),
                r" |_|   ".to_string(),
            ],
            _ => {
                let c = char::from_u32(code).unwrap();
                vec![format!("{}{}", c, c); 6]
            }
        };
        let refs: Vec<&str> = rows.iter().map(|r| r.as_str()).collect();
        let mark = if code == 64 { '#' } else { '@' };
        s.push_str(&glyph_text(&refs, mark));
    }
    s.push_str("3232  KANNADA LETTER TTHA\n");
    s.push_str(&glyph_text(
        &[
            r"   _____)",
            r"  /_ ___/",
            r"  / _ \  ",
            r" | (_) | ",
            r" $\___/$ ",
            r"         ",
        ],
        '@',
    ));
    s
}

fn standard_font() -> FIGfont {
    FIGfont::from_bytes(standard_font_text().as_bytes()).unwrap()
}

#[test]
fn test_display() {
    let f = FIGchar::from_lines(&["1  ", " 2 ", "  3"]).unwrap();
    assert_eq!(f.to_string(), "1  \n 2 \n  3\n");
}

#[test]
fn test_char_from_u32() {
    assert_eq!(char_from_u32(0x0041).unwrap(), 'A');
    assert_eq!(char_from_u32(0x00C1).unwrap(), 'Á');
}

/// The required characters of a one-row font: each drawn as itself.
fn one_row_required() -> String {
    let mut s = String::new();
    for code in required_codes() {
        let c = char::from_u32(code).unwrap();
        let mark = if c == '@' { '#' } else { '@' };
        if code == 32 {
            s.push_str("$@@\n");
        } else {
            s.push(c);
            s.push(mark);
            s.push(mark);
            s.push('\n');
        }
    }
    s
}

#[test]
fn test_u32_from_str() {
    assert!(matches!(u32_from_str("0x0041"), Ok(0x41)));
    assert!(matches!(u32_from_str("0x00C1"), Ok(0xC1)));
    assert!(matches!(u32_from_str("  0x41"), Ok(0x41)));
    assert!(matches!(u32_from_str("0X0041"), Ok(0x41)));
    assert!(matches!(u32_from_str("-0x100"), Ok(1)));
    assert!(matches!(u32_from_str("-5"), Ok(1)));
    assert!(u32_from_str("foobar").is_err());
    assert!(u32_from_str("").is_err());
}

#[test]
fn code_tags_in_octal() {
    assert!(matches!(u32_from_str("0101"), Ok(65)));
    assert!(matches!(u32_from_str("0"), Ok(0)));
    assert!(matches!(u32_from_str("08"), Err(Error::Parse)));
    assert!(matches!(u32_from_str("3232"), Ok(3232)));
}

#[test]
fn char_from_u32_rejects_surrogates() {
    assert!(matches!(char_from_u32(0xD800), Err(Error::CodeTag(0xD800))));
    assert!(matches!(char_from_u32(0x110000), Err(Error::CodeTag(0x110000))));
}

#[test]
fn test_font_load() {
    let font = standard_font();

    let ch = ' ';
    assert_eq!(font.get(ch).get(), &[
        " $".to_string(),
        " $".to_string(),
        " $".to_string(),
        " $".to_string(),
        " $".to_string(),
        " $".to_string(),
    ]);

    let ch = 'A';
    assert_eq!(font.get(ch).get(), &[
        r"     _    ".to_string(),
        r"    / \   ".to_string(),
        r"   / _ \  ".to_string(),
        r"  / ___ \ ".to_string(),
        r" /_/   \_\".to_string(),
        r"          ".to_string(),
    ]);

    let ch = char::from_u32(223).unwrap();
    assert_eq!(font.get(ch).get(), &[
        r"   ___ ".to_string(),
        r"  / _ \".to_string(),
        r" | |/ /".to_string(),
        r" | |\ \".to_string(),
        r" | ||_/".to_string(),
        r" |_|   ".to_string(),
    ]);

    let ch = char::from_u32(3232).unwrap();
    assert_eq!(font.get(ch).get(), &[
        r"   _____)".to_string(),
        r"  /_ ___/".to_string(),
        r"  / _ \  ".to_string(),
        r" | (_) | ".to_string(),
        r" $\___/$ ".to_string(),
        r"         ".to_string(),
    ]);
}

#[test]
fn test_get_tab() {
    let font = standard_font();
    let ch = '\t';
    assert_eq!(font.get(ch).get(), &[
        " $".to_string(),
        " $".to_string(),
        " $".to_string(),
        " $".to_string(),
        " $".to_string(),
        " $".to_string(),
    ]);
}

#[test]
fn test_char_line_width() {
    let c = FIGchar::from_lines(&["123", "456", "789"]);
    assert!(c.is_ok());

    let c = FIGchar::from_lines(&["123", "456", "7890"]);
    assert!(matches!(c, Err(Error::FontFormat(_))));
}

// FIGchar from empty slice produces an empty character
#[test]
fn test_figchar_from_lines_empty() {
    let c = FIGchar::from_lines(&[]).unwrap();
    assert!(c.get().is_empty());
}

// Display for empty FIGchar produces empty string
#[test]
fn test_figchar_display_empty() {
    let c = FIGchar::from_lines(&[]).unwrap();
    assert_eq!(c.to_string(), "");
}

// get('\0') returns a character with height empty lines
#[test]
fn test_font_get_fallback_null() {
    let font = standard_font();
    let null_char = font.get('\0');
    assert!(null_char.get().len() == font.height);
    for line in null_char.get() {
        assert!(line.is_empty());
    }
}

// get() for unknown codepoint returns same fallback as '\0'
#[test]
fn test_font_get_unknown_char_fallback() {
    let font = standard_font();
    let unknown = font.get('\u{1F600}');
    let null_char = font.get('\0');
    assert_eq!(unknown.get(), null_char.get());
}

// Loaded font exposes correct height, hardblank, and layout values
#[test]
fn test_font_fields() {
    let font = standard_font();
    assert_eq!(font.height, 6);
    assert_eq!(font.hardblank, '$');
    assert!(font.layout > 0);
}

/* Further cases */

#[test]
fn header_values() {
    let font = standard_font();
    let h = font.header_info();
    assert_eq!(h.version, 'a');
    assert_eq!(h.baseline, 5);
    assert_eq!(h.max_length, 16);
    assert_eq!(h.old_layout, 15);
    assert_eq!(h.comment_lines, 3);
    assert!(!h.right_to_left);
    assert_eq!(h.layout, 24463);
    assert_eq!(h.count, 229);
    assert_eq!(font.old_layout, 15);
}

#[test]
fn tlf_signature_and_right_to_left() {
    let text = format!("tlf2a$ 1 1 1 -1 0 1 0 0\n{}", one_row_required());
    let font = FIGfont::from_bytes(text.as_bytes()).unwrap();
    assert!(font.right_to_left);
    assert_eq!(font.get('A').get(), &["A".to_string()]);
}

#[test]
fn header_errors() {
    assert!(matches!(FIGfont::from_bytes(b""), Err(Error::FontFormat("unsupported font format"))));
    assert!(matches!(FIGfont::from_bytes(b"xlf2a$ 1 1 1 -1 0 0 0 0\n"), Err(Error::FontFormat("unsupported font format"))));
    assert!(matches!(FIGfont::from_bytes(b"flf2a 1 1 1 -1 0 0 0 0\n"), Err(Error::FontFormat("unsupported font format"))));
    assert!(matches!(FIGfont::from_bytes(b"flf2a$ x 1 1 -1 0 0 0 0\n"), Err(Error::Parse)));
    assert!(matches!(FIGfont::from_bytes(b"flf2a$ 1 1 1 -1\n"), Err(Error::FontFormat("invalid font header"))));
    assert!(matches!(FIGfont::from_bytes(b"flf2a$ 1 1 1\n"), Err(Error::FontFormat("invalid font header"))));
    assert!(matches!(FIGfont::from_bytes(b"flf2\n"), Err(Error::FontFormat("unsupported font format"))));
    assert!(matches!(FIGfont::from_bytes(b"flf2a\n"), Err(Error::FontFormat("unsupported font format"))));
    assert!(matches!(FIGfont::from_bytes("flf2\u{e9} 1 1 1 -1 0\n".as_bytes()), Err(Error::FontFormat("invalid font header"))));
    assert!(matches!(FIGfont::from_bytes(b"flf2a$ 1 1 1 -1 0 0 x\n"), Err(Error::Parse)));
    assert!(matches!(FIGfont::from_bytes(b"\xff\n"), Err(Error::Io)));
}

#[test]
fn truncated_font_is_an_error() {
    let text = "flf2a$ 1 1 1 -1 0 0 0 0\nA@@\n";
    assert!(matches!(FIGfont::from_bytes(text.as_bytes()), Err(Error::FontFormat("invalid character width"))));
}

#[test]
fn code_tag_errors() {
    let text = format!("flf2a$ 1 1 1 -1 0 0 0 0\n{}55296\nx@@\n", one_row_required());
    assert!(matches!(FIGfont::from_bytes(text.as_bytes()), Err(Error::CodeTag(55296))));
    let text = format!("flf2a$ 1 1 1 -1 0 0 0 0\n{}zz\nx@@\n", one_row_required());
    assert!(matches!(FIGfont::from_bytes(text.as_bytes()), Err(Error::Parse)));
}

#[test]
fn blank_line_ends_code_tagged_characters() {
    let text = format!("flf2a$ 1 1 1 -1 0 0 0 0\n{}300\nx@@\n\n301\ny@@\n", one_row_required());
    let font = FIGfont::from_bytes(text.as_bytes()).unwrap();
    assert_eq!(font.get('\u{12C}').get(), &["x".to_string()]);
    assert_eq!(font.get('\u{12D}').get(), font.get('\0').get());
}

#[test]
fn invalid_utf8_row_makes_blank_character() {
    let mut bytes = b"flf2a$ 2 1 1 -1 0 0 0 0\n".to_vec();
    for code in required_codes() {
        if code == 65 {
            bytes.extend_from_slice(b"\xff@\nA@@\n");
        } else {
            bytes.extend_from_slice(b"x@\nx@@\n");
        }
    }
    let font = FIGfont::from_bytes(&bytes).unwrap();
    assert_eq!(font.get('A').get(), &["".to_string(), "".to_string()]);
    assert_eq!(font.get('B').get(), &["x".to_string(), "x".to_string()]);
}

#[test]
fn comment_lines_are_skipped() {
    let text = format!("flf2a$ 1 1 1 -1 2 0 0 0\nfirst comment\nsecond comment\n{}", one_row_required());
    let font = FIGfont::from_bytes(text.as_bytes()).unwrap();
    assert_eq!(font.get('!').get(), &["!".to_string()]);
}

#[test]
fn german_characters_are_required() {
    let font = FIGfont::from_bytes(format!("flf2a$ 1 1 1 -1 0 0 0 0\n{}", one_row_required()).as_bytes()).unwrap();
    assert_eq!(font.get('\u{D6}').get(), &["\u{D6}".to_string()]);
    assert_eq!(font.get('\u{DF}').get(), &["\u{DF}".to_string()]);
}

#[test]
fn optional_header_fields_default() {
    for (old, layout) in [("-1", 0u32), ("0", 64), ("15", 143)] {
        let text = format!("flf2a$ 1 1 1 {} 0\n{}", old, one_row_required());
        let font = FIGfont::from_bytes(text.as_bytes()).unwrap();
        assert_eq!(font.layout, layout);
        assert!(!font.right_to_left);
        assert_eq!(font.header_info().count, 0);
    }
}

fn zipped(name: &str, content: &[u8]) -> Vec<u8> {
    let mut writer = zip::ZipWriter::new(std::io::Cursor::new(Vec::new()));
    writer.start_file(name, zip::write::SimpleFileOptions::default()).unwrap();
    writer.write_all(content).unwrap();
    writer.finish().unwrap().into_inner()
}

// A ZIP-compressed font loads as the uncompressed one does
#[test]
fn zipped_font_loads_like_plain() {
    let text = standard_font_text();
    let archive = zipped("standard.flf", text.as_bytes());
    assert_eq!(&archive[..2], b"PK");
    let zipped_font = FIGfont::from_file_bytes(&archive).unwrap();
    let plain_font = FIGfont::from_file_bytes(text.as_bytes()).unwrap();
    assert_eq!(zipped_font.height, 6);
    assert_eq!(zipped_font.get('A').to_string(), plain_font.get('A').to_string());
    assert_eq!(zipped_font.get('A').to_string(), standard_font().get('A').to_string());
}

// Data that begins like an archive but is none is refused
#[test]
fn broken_zipped_font_is_refused() {
    let r = FIGfont::from_file_bytes(b"PK\x03\x04 truncated");
    assert!(matches!(r, Err(Error::FontFormat("failed to decompress ZIP"))));
}

// A character whose rows differ in width is refused, in the required and tagged characters
#[test]
fn uneven_character_rows_are_refused() {
    let text = standard_font_text().replacen(r"    / \   @", r"    / \    @", 1);
    assert!(matches!(
        FIGfont::from_bytes(text.as_bytes()),
        Err(Error::FontFormat("invalid character width"))
    ));
    let tagged = standard_font_text().replacen(r"  /_ ___/@", r"  /_ ___/ @", 1);
    assert!(matches!(
        FIGfont::from_bytes(tagged.as_bytes()),
        Err(Error::FontFormat("invalid character width"))
    ));
}

// Every character of a loaded font has rows of one width
#[test]
fn loaded_characters_have_one_width() {
    let font = standard_font();
    for c in ['A', ' ', 'ß', '\u{0CA0}', 'z'] {
        let rows = font.get(c).get();
        assert_eq!(rows.len(), font.height);
        let w = rows[0].chars().count();
        assert!(rows.iter().all(|r| r.chars().count() == w));
    }
}
