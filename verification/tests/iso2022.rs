use figdriver::control::{Iso2022Settings};


fn decode(input: &[u8], settings: &Iso2022Settings) -> Vec<i32> {
    let mut decoder = settings.build_decoder();
    decoder.set_input(input);
    let mut result = Vec::new();
    while let Some(code) = decoder.next() {
        result.push(code);
    }
    result
}

#[test]
fn default_ascii_passthrough() {
    let settings = Iso2022Settings::default();
    assert_eq!(decode(b"ABC", &settings), vec![65, 66, 67]);
}

#[test]
fn right_half_gr() {
    let settings = Iso2022Settings::default();
    assert_eq!(decode(&[0xA0], &settings), vec![0xA0]);
    assert_eq!(decode(&[0xE9], &settings), vec![0xE9]);
}

#[test]
fn esc_paren_designate_g0() {
    let settings = Iso2022Settings::default();
    let input = [0x1B, b'(', b'B', 0x41];
    assert_eq!(decode(&input, &settings), vec![0x41]);
}

#[test]
fn esc_paren_designate_g0_custom() {
    let settings = Iso2022Settings::default();
    let input = [0x1B, b'(', b'X', 0x41];
    assert_eq!(decode(&input, &settings), vec![0x580041]);
}

#[test]
fn esc_close_paren_designate_g1_94() {
    let settings = Iso2022Settings::default();
    let input = [0x1B, b')', b'X', 0x0E, 0x41];
    assert_eq!(decode(&input, &settings), vec![0x580041]);
}

#[test]
fn esc_dash_designate_g1_96() {
    let settings = Iso2022Settings::default();
    // ESC - B designates G1 as 96-char set with designator 0x42
    // gn[1] = (0x42 << 16) | 0x80 = 0x420080
    // SI switches GL to G1, then 0x41 -> 0x420080 | 0x41 = 0x4200C1
    let input = [0x1B, b'-', b'B', 0x0E, 0x41];
    assert_eq!(decode(&input, &settings), vec![0x4200C1]);
}

#[test]
fn esc_dollar_paren_94x94() {
    let settings = Iso2022Settings::default();
    let input = [0x1B, b'$', b'(', b'X', 0x41, 0x52];
    assert_eq!(decode(&input, &settings), vec![0x584152]);
}

#[test]
fn esc_n_gl_switch() {
    let settings = Iso2022Settings::default();
    let input = [0x1B, b'n', 0x41, 0x42];
    assert_eq!(decode(&input, &settings), vec![0x41, 0x42]);
}

#[test]
fn control_chars_passthrough() {
    let settings = Iso2022Settings::default();
    assert_eq!(decode(&[0x0A, 0x0D, 0x00], &settings), vec![10, 13, 0]);
}

#[test]
fn empty_input() {
    let settings = Iso2022Settings::default();
    assert_eq!(decode(&[], &settings), vec![]);
}

#[test]
fn ss2_esc_n_temporary_g2() {
    let settings = Iso2022Settings::default();
    // ESC * X designates G2 as 94-char set, then ESC N invokes G2 for one char
    let input = [0x1B, b'*', b'X', 0x1B, b'N', 0x41, 0x1B, b'n', 0x42];
    // ESC N A -> G2 decode: 0x580041
    // ESC n -> LS2 (GL=G2)
    // 0x42 -> G2 decode: 0x580042
    assert_eq!(decode(&input, &settings), vec![0x580041, 0x580042]);
}

#[test]
fn ss3_esc_o_temporary_g3() {
    let settings = Iso2022Settings::default();
    // ESC + Y designates G3 as 94-char set, then ESC O invokes G3 for one char
    let input = [0x1B, b'+', b'Y', 0x1B, b'O', 0x41];
    // ESC O A -> G3 decode: 0x590041
    assert_eq!(decode(&input, &settings), vec![0x590041]);
}

#[test]
fn ss2_restores_gl_after_one_char() {
    let settings = Iso2022Settings::default();
    // ESC ) X designates G1, SO switches to G1, ESC * Y designates G2
    // ESC N A -> G2 (one char, Y=0x59), then B -> G1 (restored, X=0x58)
    let input = [0x1B, b')', b'X', 0x0E, 0x1B, b'*', b'Y', 0x1B, b'N', 0x41, 0x42];
    assert_eq!(decode(&input, &settings), vec![0x590041, 0x580042]);
}

#[test]
fn ss2_followed_by_locking_shift_preserves_locking_shift() {
    let settings = Iso2022Settings::default();
    // ESC ) X designates G1, ESC * Y designates G2
    // ESC N sets SS2 (single shift G2), then SO sets GL=G1 permanently
    // SO clears the single shift, so both A and B decode from G1
    // (with the old recursive code, SO's effect would be lost due to
    // gl restoration, causing B to decode from G0 instead of G1)
    let input = [0x1B, b')', b'X', 0x1B, b'*', b'Y', 0x1B, b'N', 0x0E, 0x41, 0x42];
    assert_eq!(decode(&input, &settings), vec![0x580041, 0x580042]);
}
