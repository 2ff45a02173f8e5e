use figdriver::flc::{FlcCommand, Iso2022CharSetSize};
use figdriver::{Control, Error, Flc, InputEncoding};
use std::io::{Cursor, Read, Write};

fn load(text: &str) -> Flc {
    Flc::load_from_bytes(text.as_bytes()).unwrap()
}

const UPPER_FLC: &str = "flc2a\n# upper.flc: lower case to upper case\nt a-z A-Z\n";

const FRANGO_FLC: &str = "flc2a\n\
# frango.flc: Latin letters to Greek letters\n\
t a \\0x03b1\nt b \\0x03b2\nt g \\0x03b3\nt d \\0x03b4\nt e \\0x03b5\n\
t A \\0x0391\nt B \\0x0392\nt G \\0x0393\nt D \\0x0394\nt E \\0x0395\n";

const UTF8_FLC: &str = "flc2a\n# utf8.flc: input is UTF-8\nu\n";

const HZ_FLC: &str = "flc2a\n# hz.flc: input is HZ\nh\n";

const DE_646_FLC: &str = "flc2a\n# 646-de.flc: ISO 646 German\n\
0x40 0xA7\n0x5B 0xC4\n0x5C 0xD6\n0x5D 0xDC\n0x7B 0xE4\n0x7C 0xF6\n0x7D 0xFC\n0x7E 0xDF\n";

const JIS0201_FLC: &str = "flc2a\n# jis0201.flc: JIS X 0201 Roman and Katakana\n\
g0 94 J\ng1 94 I\ngL 0\ngR 1\n\
t \\0x4a005c \\0xa5\nt \\0x4a007e \\0x203e\n\
t \\0x490021-\\0x49005f \\0xff61-\\0xff9f\n";

// Parse single character mapping with literal chars
#[test]
fn test_parse_single_mapping_literal() {
    let flc = load("t A B\n");
    assert_eq!(flc.apply(65), 66);
    assert_eq!(flc.apply(66), 66);
    assert_eq!(flc.apply(67), 67);
}

// Parse range mapping
#[test]
fn test_parse_range_mapping() {
    let flc = load("t a-z A-Z\n");
    assert_eq!(flc.apply('a' as i32), 'A' as i32);
    assert_eq!(flc.apply('z' as i32), 'Z' as i32);
    assert_eq!(flc.apply('m' as i32), 'M' as i32);
    assert_eq!(flc.apply('A' as i32), 'A' as i32);
}

// Parse number-number form (mapping table format)
#[test]
fn test_parse_number_command() {
    let flc = load("65 66\n");
    assert_eq!(flc.apply(65), 66);
    assert_eq!(flc.apply(66), 66);
}

// Parse hex number-number form
#[test]
fn test_parse_hex_number_command() {
    let flc = load("0x41 0x42\n");
    assert_eq!(flc.apply(0x41), 0x42);
}

// Parse escape sequences in "t" commands
#[test]
fn test_parse_escape_decimal() {
    let flc = load("t \\65 B\n");
    assert_eq!(flc.apply(65), 'B' as i32);
}

// Parse hex escape sequences
#[test]
fn test_parse_escape_hex() {
    let flc = load("t A \\0x42\n");
    assert_eq!(flc.apply('A' as i32), 0x42);
}

// Parse escape sequences: bell, backspace, newline, tab
#[test]
fn test_parse_escape_special() {
    let flc = load("t \\a B\n");
    assert_eq!(flc.apply(7), 'B' as i32);

    let flc = load("t \\b B\n");
    assert_eq!(flc.apply(8), 'B' as i32);

    let flc = load("t \\n B\n");
    assert_eq!(flc.apply(10), 'B' as i32);

    let flc = load("t \\t B\n");
    assert_eq!(flc.apply(9), 'B' as i32);
}

// Parse escape for backslash itself
#[test]
fn test_parse_escape_backslash() {
    let flc = load("t \\\\ B\n");
    assert_eq!(flc.apply(92), 'B' as i32);
}

// Parse escape for space
#[test]
fn test_parse_escape_space() {
    let flc = load("t \\ B\n");
    assert_eq!(flc.apply(32), 'B' as i32);
}

// Parse "f" command creates new transformation stage
#[test]
fn test_parse_freeze_command() {
    let flc = load("t a-z A-Z\nf\nt Q ~\n");
    assert_eq!(flc.apply('q' as i32), '~' as i32);
    assert_eq!(flc.apply('a' as i32), 'A' as i32);
    assert_eq!(flc.apply('Q' as i32), '~' as i32);
}

// Parse "h" command sets HZ encoding
#[test]
fn test_parse_hz_encoding() {
    let flc = load("h\n");
    assert_eq!(flc.encoding(), InputEncoding::HZ);
}

// Parse "j" command sets Shift-JIS encoding
#[test]
fn test_parse_shiftjis_encoding() {
    let flc = load("j\n");
    assert_eq!(flc.encoding(), InputEncoding::ShiftJIS);
}

// Parse "b" command sets Dbcs encoding
#[test]
fn test_parse_dbcs_encoding() {
    let flc = load("b\n");
    assert_eq!(flc.encoding(), InputEncoding::Dbcs);
}

// Parse "u" command sets UTF-8 encoding
#[test]
fn test_parse_utf8_encoding() {
    let flc = load("u\n");
    assert_eq!(flc.encoding(), InputEncoding::UTF8);
}

// Parse "g" commands for ISO 2022
#[test]
fn test_parse_iso2022_g_command() {
    let flc = load("g 0 94 B\ng 1 96 A\ng L 0\ng R 1\n");
    let settings = flc.iso2022_settings();
    assert_eq!(settings.left_half, 0);
    assert_eq!(settings.right_half, 1);
}

// Skip comment lines and blank lines
#[test]
fn test_skip_comments_and_blanks() {
    let flc = load("# This is a comment\n\nt A B\n\n");
    assert_eq!(flc.apply('A' as i32), 'B' as i32);
}

// Parse optional "flc2a" signature
#[test]
fn test_parse_signature() {
    let flc = load("flc2a\nt A B\n");
    assert_eq!(flc.apply('A' as i32), 'B' as i32);
}

// Without signature still works
#[test]
fn test_no_signature() {
    let flc = load("t A B\n");
    assert_eq!(flc.apply('A' as i32), 'B' as i32);
}

// First-match rule within a stage
#[test]
fn test_first_match_rule() {
    let flc = load("t A B\nt A C\n");
    assert_eq!(flc.apply('A' as i32), 'B' as i32);
}

// Swap pattern works correctly with two commands in same stage
#[test]
fn test_swap_pattern() {
    let flc = load("t A B\nt B A\n");
    assert_eq!(flc.apply('A' as i32), 'B' as i32);
    assert_eq!(flc.apply('B' as i32), 'A' as i32);
}

// Empty control file produces single empty stage
#[test]
fn test_empty_control_file() {
    let flc = load("");
    assert_eq!(flc.apply(65), 65);
}

// Only "flc2a" signature
#[test]
fn test_signature_only() {
    let flc = load("flc2a\n");
    assert_eq!(flc.apply(65), 65);
}

// Range size mismatch produces error
#[test]
fn test_range_mismatch_error() {
    let result = Flc::load_from_bytes(b"t A-C a-z\n");
    assert!(matches!(result, Err(Error::ControlRangeMismatch)));
}

// Encoding commands are mutually exclusive (last wins)
#[test]
fn test_encoding_last_wins() {
    let flc = load("h\nu\n");
    assert_eq!(flc.encoding(), InputEncoding::UTF8);
}

// Control chains multiple files
#[test]
fn test_pipeline_chains() {
    let file1 = load("t a-z A-Z\n");
    let file2 = load("t A B\n");
    let pipeline = Control::from_files(vec![file1, file2]);
    assert_eq!(pipeline.apply('a' as i32), 'B' as i32);
    assert_eq!(pipeline.apply('b' as i32), 'B' as i32);
}

// Encoding is last file's encoding
#[test]
fn test_pipeline_encoding() {
    let file1 = load("h\n");
    let file2 = load("u\n");
    let pipeline = Control::from_files(vec![file1, file2]);
    assert_eq!(pipeline.encoding(), InputEncoding::UTF8);
}

// A later file without an encoding command keeps an earlier file's encoding
#[test]
fn test_pipeline_encoding_last_command_wins() {
    let pipeline = Control::from_files(vec![load("h\n"), load("t A B\n")]);
    assert_eq!(pipeline.encoding(), InputEncoding::HZ);
    let pipeline = Control::from_files(vec![load("h\n"), load("# comment only\n")]);
    assert_eq!(pipeline.encoding(), InputEncoding::HZ);
    let pipeline = Control::from_files(vec![load("t A B\n"), load("t B C\n")]);
    assert_eq!(pipeline.encoding(), InputEncoding::Default);
    let pipeline = Control::from_files(vec![load("j\n"), load("t A B\n"), load("b\n"), load("f\n")]);
    assert_eq!(pipeline.encoding(), InputEncoding::Dbcs);
    assert_eq!(Control::from_files(Vec::new()).encoding(), InputEncoding::Default);
}

// Test negative number-number form
#[test]
fn test_negative_number_command() {
    let flc = load("-252 -255\n");
    assert_eq!(flc.apply(-252), -255);
}

// Parse octal escape sequence (leading 0 indicates octal)
#[test]
fn test_parse_escape_octal() {
    let flc = load("t \\0101 B\n");
    assert_eq!(flc.apply(65), 'B' as i32);
}

// Escape sequence \e for ESC character
#[test]
fn test_parse_escape_esc() {
    let flc = load("t \\e B\n");
    assert_eq!(flc.apply(27), 'B' as i32);
}

// Test Unicode character codes in number-number form
#[test]
fn test_unicode_codes() {
    let flc = load("0x3B1 0x391\n");
    assert_eq!(flc.apply(0x3B1), 0x391);
}

// Test "f" command with no surrounding "t" commands creates empty stage
#[test]
fn test_freeze_no_commands() {
    let flc = load("t A B\nf\nt C D\n");
    assert_eq!(flc.apply('A' as i32), 'B' as i32);
    assert_eq!(flc.apply('C' as i32), 'D' as i32);
    assert_eq!(flc.apply('B' as i32), 'B' as i32);
}

// upper.flc
#[test]
fn test_upper_flc() {
    let flc = load(UPPER_FLC);
    assert_eq!(flc.apply('a' as i32), 'A' as i32);
    assert_eq!(flc.apply('z' as i32), 'Z' as i32);
}

// frango.flc
#[test]
fn test_frango_flc() {
    let flc = load(FRANGO_FLC);
    assert_eq!(flc.apply('a' as i32), 0x03B1);
    assert_eq!(flc.apply('A' as i32), 0x0391);
}

// utf8.flc
#[test]
fn test_utf8_flc() {
    let flc = load(UTF8_FLC);
    assert_eq!(flc.encoding(), InputEncoding::UTF8);
}

// hz.flc
#[test]
fn test_hz_flc() {
    let flc = load(HZ_FLC);
    assert_eq!(flc.encoding(), InputEncoding::HZ);
}

// 646-de.flc (number-number format)
#[test]
fn test_646_de_flc() {
    let flc = load(DE_646_FLC);
    assert_eq!(flc.apply(0x40), 0xA7);
    assert_eq!(flc.apply(0x7B), 0xE4);
}

// jis0201.flc (with g commands)
#[test]
fn test_jis0201_flc() {
    let flc = load(JIS0201_FLC);
    assert_eq!(flc.apply(0x4A005C), 0xA5);
}

fn zip_bytes(name: &str, content: &[u8]) -> Vec<u8> {
    let mut writer = zip::ZipWriter::new(Cursor::new(Vec::new()));
    writer.start_file(name, zip::write::SimpleFileOptions::default()).unwrap();
    writer.write_all(content).unwrap();
    writer.finish().unwrap().into_inner()
}

// Loading a ZIP-compressed FLC produces the same result as the uncompressed file
#[test]
fn test_flc_load_zip() {
    let archive = zip_bytes("upper.flc", UPPER_FLC.as_bytes());
    assert_eq!(&archive[..2], b"PK");
    let flc = Flc::load_from_file_bytes(&archive).unwrap();
    assert_eq!(flc.apply('a' as i32), 'A' as i32);
    assert_eq!(flc.apply('z' as i32), 'Z' as i32);
}

// The archive's first entry is what is read
#[test]
fn zip_first_entry_is_read() {
    let mut writer = zip::ZipWriter::new(Cursor::new(Vec::new()));
    writer.start_file("hz.flc", zip::write::SimpleFileOptions::default()).unwrap();
    writer.write_all(HZ_FLC.as_bytes()).unwrap();
    writer.start_file("utf8.flc", zip::write::SimpleFileOptions::default()).unwrap();
    writer.write_all(UTF8_FLC.as_bytes()).unwrap();
    let archive = writer.finish().unwrap().into_inner();
    let flc = Flc::load_from_file_bytes(&archive).unwrap();
    assert_eq!(flc.encoding(), InputEncoding::HZ);
}

// Uncompressed contents are read as they are
#[test]
fn plain_file_bytes_are_read_directly() {
    let flc = Flc::load_from_file_bytes(UPPER_FLC.as_bytes()).unwrap();
    assert_eq!(flc.apply('q' as i32), 'Q' as i32);
}

// Data that begins like an archive but is none is refused
#[test]
fn broken_zip_is_refused() {
    let r = Flc::load_from_file_bytes(b"PK not an archive\n");
    assert!(matches!(r, Err(Error::ControlFormat("failed to decompress ZIP"))));
}

#[test]
fn zip_signature_is_recognised() {
    assert!(figdriver::archive::is_zip(b"PK\x03\x04"));
    assert!(figdriver::archive::is_zip(b"PK"));
    assert!(!figdriver::archive::is_zip(b"P"));
    assert!(!figdriver::archive::is_zip(b""));
    assert!(!figdriver::archive::is_zip(b"flc2a\n"));
}

/* Further cases */

#[test]
fn range_maps_by_offset() {
    let flc = load("t \\0x41-\\0x43 \\0x61-\\0x63\n");
    assert_eq!(flc.apply(0x41), 0x61);
    assert_eq!(flc.apply(0x42), 0x62);
    assert_eq!(flc.apply(0x43), 0x63);
    assert_eq!(flc.apply(0x44), 0x44);
}

#[test]
fn stages_compose_in_order() {
    let flc = load("t a b\nf\nt b c\n");
    assert_eq!(flc.apply('a' as i32), 'c' as i32);
    assert_eq!(flc.apply('b' as i32), 'c' as i32);
    let same_stage = load("t a b\nt b c\n");
    assert_eq!(same_stage.apply('a' as i32), 'b' as i32);
}

#[test]
fn pipeline_is_composition_of_files() {
    let pipeline = Control::from_files(vec![load("t x y\n"), load("t y z\n")]);
    let first = load("t x y\n");
    let second = load("t y z\n");
    for code in 0..200 {
        assert_eq!(pipeline.apply(code), second.apply(first.apply(code)));
    }
}

#[test]
fn empty_pipeline_is_identity() {
    let pipeline = Control::from_files(Vec::new());
    assert_eq!(pipeline.apply(65), 65);
    assert_eq!(pipeline.encoding(), InputEncoding::Default);
}

#[test]
fn concatenated_hex_escape() {
    let flc = load("t \\0x01\\0x02 A\n");
    assert_eq!(flc.apply(0x0102), 'A' as i32);
}

#[test]
fn negative_escape_and_octal_number() {
    let flc = load("t \\-5 A\n010 B\n");
    assert_eq!(flc.apply(-5), 'A' as i32);
    assert_eq!(flc.apply(8), 'B' as i32);
}

#[test]
fn escape_minus_alone_is_minus_one() {
    let flc = load("t \\- A\n");
    assert_eq!(flc.apply(-1), 'A' as i32);
}

#[test]
fn control_escapes() {
    let flc = load("t \\f A\nt \\r B\nt \\v C\n");
    assert_eq!(flc.apply(12), 'A' as i32);
    assert_eq!(flc.apply(13), 'B' as i32);
    assert_eq!(flc.apply(11), 'C' as i32);
}

#[test]
fn crlf_lines_and_missing_final_newline() {
    let flc = load("flc2a\r\nt A B\r\nt C D");
    assert_eq!(flc.apply('A' as i32), 'B' as i32);
    assert_eq!(flc.apply('C' as i32), 'D' as i32);
}

#[test]
fn signature_counts_only_on_first_line() {
    // "flc2a" on a later line begins with 'f': a freeze
    let flc = load("t a b\nflc2a\nt b c\n");
    assert_eq!(flc.apply('a' as i32), 'c' as i32);
}

#[test]
fn t_word_must_be_exactly_t() {
    let flc = load("tx A B\n");
    assert_eq!(flc.apply('A' as i32), 'A' as i32);
}

#[test]
fn error_t_command_too_short() {
    assert!(matches!(Flc::load_from_bytes(b"t A\n"), Err(Error::ControlFormat("invalid t command"))));
}

#[test]
fn error_range_needs_range_output() {
    assert!(matches!(
        Flc::load_from_bytes(b"t a-c X\n"),
        Err(Error::ControlFormat("range input requires range output"))
    ));
}

#[test]
fn error_invalid_numbers() {
    assert!(matches!(Flc::load_from_bytes(b"0xZZ 1\n"), Err(Error::ControlFormat("invalid hex number"))));
    assert!(matches!(Flc::load_from_bytes(b"09 1\n"), Err(Error::ControlFormat("invalid octal number"))));
    assert!(matches!(Flc::load_from_bytes(b"12a 1\n"), Err(Error::ControlFormat("invalid number"))));
    assert!(matches!(Flc::load_from_bytes(b"t \\08 A\n"), Err(Error::ControlFormat("invalid octal escape"))));
    assert!(matches!(Flc::load_from_bytes(b"t \\0xZ A\n"), Err(Error::ControlFormat("invalid hex escape"))));
}

#[test]
fn error_negating_minimum_code() {
    assert!(matches!(
        Flc::load_from_bytes(b"t 1---2147483648 1---2147483648\n"),
        Err(Error::ControlFormat("character code out of range"))
    ));
}

#[test]
fn error_range_size_overflow() {
    assert!(matches!(
        Flc::load_from_bytes(b"t \\-2147483647-2147483647 \\-2147483647-2147483647\n"),
        Err(Error::ControlFormat("range size out of range"))
    ));
}

#[test]
fn error_range_split_inside_character() {
    // the separator is the third character; the range is cut at the third byte, inside
    // the second character
    assert!(matches!(
        Flc::load_from_bytes("t \u{e9}\u{e9}-a c-d\n".as_bytes()),
        Err(Error::ControlFormat("range split inside a character"))
    ));
}

#[test]
fn range_split_counts_bytes() {
    // the separator is the third character and the range is cut at the third byte,
    // which leaves "-b" as the end of the input range
    assert!(matches!(
        Flc::load_from_bytes("t \u{e9}a-b c-d\n".as_bytes()),
        Err(Error::ControlFormat("invalid number"))
    ));
}

#[test]
fn error_invalid_utf8_line() {
    assert!(matches!(Flc::load_from_bytes(b"t A B\n\xff\n"), Err(Error::Io)));
}

#[test]
fn g_commands_set_registers() {
    let flc = load("g2 94x94 B\ng3 96 A\ngL 2\ngR 3\n");
    let s = flc.iso2022_settings();
    assert_eq!(s.left_half, 2);
    assert_eq!(s.right_half, 3);
    let g2 = s.g_sets[2].unwrap();
    assert_eq!(g2.size, Iso2022CharSetSize::Bits94x94);
    assert_eq!(g2.designating_byte, 'B' as i32);
    let g3 = s.g_sets[3].unwrap();
    assert_eq!(g3.size, Iso2022CharSetSize::Bits96);
    assert_eq!(g3.designating_byte, 'A' as i32);
}

#[test]
fn g_command_defaults() {
    let flc = load("");
    let s = flc.iso2022_settings();
    assert_eq!(s.g_sets[0].unwrap().designating_byte, 66);
    assert_eq!(s.g_sets[1].unwrap().size, Iso2022CharSetSize::Bits96);
    assert!(s.g_sets[2].is_none());
    assert!(s.g_sets[3].is_none());
    assert_eq!(s.left_half, 0);
    assert_eq!(s.right_half, 1);
}

#[test]
fn g_command_errors() {
    assert!(matches!(Flc::load_from_bytes(b"g\n"), Err(Error::ControlFormat("invalid g command"))));
    assert!(matches!(Flc::load_from_bytes(b"gL 4\n"), Err(Error::ControlFormat("invalid g register"))));
    assert!(matches!(Flc::load_from_bytes(b"g0 95\n"), Err(Error::ControlFormat("invalid g charset size"))));
    assert!(matches!(Flc::load_from_bytes(b"gx 1\n"), Err(Error::ControlFormat("invalid g command target"))));
    assert!(matches!(Flc::load_from_bytes(b"g 7 94\n"), Err(Error::ControlFormat("invalid g command target"))));
}

#[test]
fn single_letter_g_size_is_94() {
    let flc = load("g1 Z\n");
    let g1 = flc.iso2022_settings().g_sets[1].unwrap();
    assert_eq!(g1.size, Iso2022CharSetSize::Bits94);
    assert_eq!(g1.designating_byte, 0);
}

#[test]
fn clone_keeps_mappings() {
    let flc = load("t A B\nu\n");
    let copy = flc.clone();
    assert_eq!(copy.apply('A' as i32), 'B' as i32);
    assert_eq!(copy.encoding(), InputEncoding::UTF8);
    let pipeline = Control::from_files(vec![flc]);
    let pcopy = pipeline.clone();
    assert_eq!(pcopy.apply('A' as i32), 'B' as i32);
    assert_eq!(pcopy.encoding(), InputEncoding::UTF8);
    let _ = FlcCommand::Single { input: 1, output: 2 };
}

#[test]
fn pipeline_decodes_in_its_encoding() {
    let pipeline = Control::from_files(vec![load("u\n")]);
    assert_eq!(pipeline.decode_bytes("a\u{e9}".as_bytes()), vec![97, 0xE9]);
    let latin = Control::from_files(vec![load("")]);
    assert_eq!(latin.decode_bytes(&[0x61, 0xE9]), vec![97, 0xE9]);
}
