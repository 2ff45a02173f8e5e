use vstd::prelude::*;
use crate::figfont::{glyph_of, string_views, empty_rows, FIGchar, FIGfont};
use crate::flc::{files_apply, Control, FlcCommand};
use crate::control::decoder::is_scalar_value;
use crate::text::{char_from_code, chars_to_string, str_to_chars, views};

verus! {

/// How characters are fit together horizontally.
#[derive(Debug, Clone, Copy, PartialEq, Eq, Structural)]
pub enum LayoutMode {
    /// The font's own layout.
    Default,
    /// Smushing, added to the font's own rules.
    SmushForce,
    /// The font's own layout.
    SmushDefault,
    /// Universal overlapping.
    Overlap,
    /// Kerning: characters touch but do not overlap.
    Kern,
    /// Full width: characters are set side by side.
    FullWidth,
    /// Smushing with the given rules (the low six bits).
    Custom(u32),
}

/// The smushing mode bits for a layout mode, given the font's full layout.
pub open spec fn smush_mode(mode: LayoutMode, font_layout: u32) -> u32 {
    match mode {
        LayoutMode::Default => font_layout,
        LayoutMode::SmushDefault => font_layout,
        LayoutMode::SmushForce => font_layout | 128u32,
        LayoutMode::Overlap => 128u32,
        LayoutMode::Kern => 64u32,
        LayoutMode::FullWidth => 0u32,
        LayoutMode::Custom(m) => (m & 63u32) | 128u32,
    }
}

/// What smushing depends on: the font's characters, height and hardblank, the mode bits,
/// the print direction and the control files applied to each code.
pub struct SmushConfig {
    pub glyphs: Map<u32, Seq<Seq<char>>>,
    pub height: int,
    pub hardblank: char,
    pub mode: u32,
    pub rtl: bool,
    pub control: Option<Seq<Seq<Seq<FlcCommand>>>>,
}

/// The output of a smusher: its rows, and the width of the last character added.
pub struct SmushState {
    pub rows: Seq<Seq<char>>,
    pub prev_width: int,
}

/// The empty output: `height` empty rows.
pub open spec fn initial_state(cfg: SmushConfig) -> SmushState {
    SmushState { rows: empty_rows(cfg.height), prev_width: 0 }
}

/// Row `r` of a character, empty where the character has no such row.
pub open spec fn glyph_row(g: Seq<Seq<char>>, r: int) -> Seq<char> {
    if 0 <= r < g.len() {
        g[r]
    } else {
        Seq::empty()
    }
}

/// The width of a character: that of its first row.
pub open spec fn glyph_width(g: Seq<Seq<char>>) -> int {
    glyph_row(g, 0).len() as int
}

/// One of the characters "|/\\[]{}()<>" that win against '_' in the underscore rule.
pub open spec fn is_border_char(c: char) -> bool {
    c == '|' || hierarchy_rank(c) > 1
}

/// The character that `l` and `r` smush into, if they do (FIGfont rules); `pw` and `cw` are
/// the widths of the left and right characters.
pub open spec fn smush_pair(
    l: char,
    r: char,
    mode: u32,
    hb: char,
    pw: int,
    cw: int,
    rtl: bool,
) -> Option<char> {
    if l == ' ' {
        Some(r)
    } else if r == ' ' {
        Some(l)
    } else if pw < 2 || cw < 2 {
        None
    } else if mode & 128u32 == 0 {
        None
    } else if mode & 63u32 == 0 {
        if l == hb {
            Some(r)
        } else if r == hb {
            Some(l)
        } else if rtl {
            Some(l)
        } else {
            Some(r)
        }
    } else if mode & 32u32 != 0 && l == hb && r == hb {
        Some(l)
    } else if l == hb || r == hb {
        None
    } else if mode & 1u32 != 0 && l == r {
        Some(l)
    } else if mode & 2u32 != 0 && l == '_' && is_border_char(r) {
        Some(r)
    } else if mode & 2u32 != 0 && r == '_' && is_border_char(l) {
        Some(l)
    } else if mode & 4u32 != 0 && hierarchy_rank(l) > 0 && hierarchy_rank(r) > 0
        && hierarchy_rank(l) != hierarchy_rank(r) {
        if hierarchy_rank(l) < hierarchy_rank(r) {
            Some(r)
        } else {
            Some(l)
        }
    } else if mode & 8u32 != 0 && is_opposite_pair(l, r) {
        Some('|')
    } else if mode & 16u32 != 0 && l == '/' && r == '\\' {
        Some('|')
    } else if mode & 16u32 != 0 && l == '\\' && r == '/' {
        Some('Y')
    } else if mode & 16u32 != 0 && l == '>' && r == '<' {
        Some('X')
    } else {
        None
    }
}

/// The class of a character in the hierarchy rule: "|", "/\", "[]", "{}", "()", "<>" from
/// lowest to highest; 0 for any other character.
pub open spec fn hierarchy_rank(c: char) -> int {
    if c == '|' {
        1
    } else if c == '/' || c == '\\' {
        2
    } else if c == '[' || c == ']' {
        3
    } else if c == '{' || c == '}' {
        4
    } else if c == '(' || c == ')' {
        5
    } else if c == '<' || c == '>' {
        6
    } else {
        0
    }
}

/// Opposing brackets: "[]", "{}", "()" in either order.
pub open spec fn is_opposite_pair(l: char, r: char) -> bool {
    ||| (l == '[' && r == ']') || (l == ']' && r == '[')
    ||| (l == '{' && r == '}') || (l == '}' && r == '{')
    ||| (l == '(' && r == ')') || (l == ')' && r == '(')
}

/// The character that overlapping `l` and `r` leaves (`l` where they do not smush).
pub open spec fn smush_char(l: char, r: char, mode: u32, hb: char, pw: int, cw: int, rtl: bool) -> char {
    match smush_pair(l, r, mode, hb, pw, cw, rtl) {
        Some(c) => c,
        None => l,
    }
}

/// Scanning back from position `i`: the last position at or before `i` that holds a
/// character other than a space (0 if none). Position `s.len()` holds nothing.
pub open spec fn scan_back(s: Seq<char>, i: int) -> int
    decreases i,
{
    if i > 0 && (i >= s.len() || s[i] == ' ') {
        scan_back(s, i - 1)
    } else {
        i
    }
}

/// Scanning forward from position `i`: the first position at or after `i` that holds no
/// space (the length if none).
pub open spec fn scan_fwd(s: Seq<char>, i: int) -> int
    decreases s.len() - i,
{
    if 0 <= i < s.len() && s[i] == ' ' {
        scan_fwd(s, i + 1)
    } else {
        i
    }
}

/// The character at position `i`, if there is one.
pub open spec fn char_at(s: Seq<char>, i: int) -> Option<char> {
    if 0 <= i < s.len() {
        Some(s[i])
    } else {
        None
    }
}

/// How far the right part `rp` may move over the left part `lp` of one row: up to the first
/// visible character of `rp` touching the last visible character of `lp`, one more if those
/// two smush or the left one is blank.
pub open spec fn row_amount(
    lp: Seq<char>,
    rp: Seq<char>,
    mode: u32,
    hb: char,
    pw: int,
    cw: int,
    rtl: bool,
) -> int {
    let lb = scan_back(lp, lp.len() as int);
    let rb = scan_fwd(rp, 0);
    let base = rb + lp.len() - 1 - lb;
    match char_at(lp, lb) {
        None => base + 1,
        Some(c1) => if c1 == ' ' {
            base + 1
        } else {
            match char_at(rp, rb) {
                None => base,
                Some(c2) => if smush_pair(c1, c2, mode, hb, pw, cw, rtl) is Some {
                    base + 1
                } else {
                    base
                },
            }
        },
    }
}

/// The overlap of character `g` with the output row `out` in row `r`.
pub open spec fn amount_at(cfg: SmushConfig, st: SmushState, g: Seq<Seq<char>>, r: int) -> int {
    let out = glyph_row(st.rows, r);
    let gr = glyph_row(g, r);
    let cw = glyph_width(g);
    let amt = if cfg.rtl {
        row_amount(gr, out, cfg.mode, cfg.hardblank, st.prev_width, cw, true)
    } else {
        row_amount(out, gr, cfg.mode, cfg.hardblank, st.prev_width, cw, false)
    };
    if amt < gr.len() {
        amt
    } else {
        gr.len() as int
    }
}

/// The least overlap over rows `r` and on, no more than `bound`.
pub open spec fn min_amount(cfg: SmushConfig, st: SmushState, g: Seq<Seq<char>>, r: int, bound: int) -> int
    decreases cfg.height - r,
{
    if r >= cfg.height {
        bound
    } else {
        let a = amount_at(cfg, st, g, r);
        min_amount(cfg, st, g, r + 1, if a < bound { a } else { bound })
    }
}

/// How far character `g` moves over the output: nothing without smushing or kerning, else
/// the least overlap over all rows, and no more than any of its rows is wide.
pub open spec fn smush_amount(cfg: SmushConfig, st: SmushState, g: Seq<Seq<char>>) -> int {
    if cfg.mode & 192u32 == 0 {
        0
    } else {
        min_amount(cfg, st, g, 0, glyph_width(g))
    }
}

/// Left to right: the output row `out` with row `g` of the new character overlapping its
/// last `s` columns.
pub open spec fn combine_ltr(out: Seq<char>, g: Seq<char>, s: int, mode: u32, hb: char, pw: int, cw: int) -> Seq<char> {
    let l = out.len() as int;
    Seq::new(
        out.len(),
        |j: int| if j + s >= l {
            smush_char(out[j], g[j + s - l], mode, hb, pw, cw, false)
        } else {
            out[j]
        },
    ) + g.skip(s)
}

/// Right to left: row `g` of the new character with the output row `out` overlapping its
/// last `s` columns.
pub open spec fn combine_rtl(out: Seq<char>, g: Seq<char>, s: int, mode: u32, hb: char, pw: int, cw: int) -> Seq<char> {
    let w = g.len() as int;
    let n = if s < out.len() {
        s
    } else {
        out.len() as int
    };
    g.take(w - s) + Seq::new(n as nat, |k: int| smush_char(g[w - s + k], out[k], mode, hb, pw, cw, true))
        + out.skip(n)
}

/// The output with character `g` added.
pub open spec fn add_glyph(cfg: SmushConfig, st: SmushState, g: Seq<Seq<char>>) -> SmushState {
    let s = smush_amount(cfg, st, g);
    let cw = glyph_width(g);
    SmushState {
        rows: Seq::new(
            cfg.height as nat,
            |r: int| if cfg.rtl {
                combine_rtl(glyph_row(st.rows, r), glyph_row(g, r), s, cfg.mode, cfg.hardblank, st.prev_width, cw)
            } else {
                combine_ltr(glyph_row(st.rows, r), glyph_row(g, r), s, cfg.mode, cfg.hardblank, st.prev_width, cw)
            },
        ),
        prev_width: cw,
    }
}

/// The code after the control files, if there are any.
pub open spec fn mapped_code(cfg: SmushConfig, code: i32) -> i32 {
    match cfg.control {
        Some(files) => files_apply(files, code),
        None => code,
    }
}

/// A code is rendered if, after the control files, it is a Unicode scalar value.
pub open spec fn renders(cfg: SmushConfig, code: i32) -> bool {
    is_scalar_value(mapped_code(cfg, code) as int)
}

/// The output after adding the code `code`; unchanged for a code that is not rendered.
pub open spec fn smush_step(cfg: SmushConfig, st: SmushState, code: i32) -> SmushState {
    if renders(cfg, code) {
        add_glyph(cfg, st, glyph_of(cfg.glyphs, mapped_code(cfg, code) as u32))
    } else {
        st
    }
}

/// The output after adding each of `codes` in order.
pub open spec fn smush_all(cfg: SmushConfig, st: SmushState, codes: Seq<i32>) -> SmushState
    decreases codes.len(),
{
    if codes.len() == 0 {
        st
    } else {
        smush_step(cfg, smush_all(cfg, st, codes.drop_last()), codes.last())
    }
}

/// The width of the output: its widest row.
pub open spec fn max_len(rows: Seq<Seq<char>>) -> int
    decreases rows.len(),
{
    if rows.len() == 0 {
        0
    } else {
        let m = max_len(rows.drop_last());
        if rows.last().len() > m {
            rows.last().len() as int
        } else {
            m
        }
    }
}


fn rank_of(c: char) -> (r: u8)
    ensures
        r == hierarchy_rank(c),
{
    if c == '|' {
        1
    } else if c == '/' || c == '\\' {
        2
    } else if c == '[' || c == ']' {
        3
    } else if c == '{' || c == '}' {
        4
    } else if c == '(' || c == ')' {
        5
    } else if c == '<' || c == '>' {
        6
    } else {
        0
    }
}

/// The character that `l` and `r` smush into, if they do.
fn smush_pair_of(l: char, r: char, mode: u32, hb: char, pw: usize, cw: usize, rtl: bool) -> (res:
    Option<char>)
    ensures
        res == smush_pair(l, r, mode, hb, pw as int, cw as int, rtl),
{
    if l == ' ' {
        return Some(r);
    }
    if r == ' ' {
        return Some(l);
    }
    if pw < 2 || cw < 2 {
        return None;
    }
    if mode & 128u32 == 0 {
        return None;
    }
    if mode & 63u32 == 0 {
        return if l == hb {
            Some(r)
        } else if r == hb {
            Some(l)
        } else if rtl {
            Some(l)
        } else {
            Some(r)
        };
    }
    if mode & 32u32 != 0 && l == hb && r == hb {
        return Some(l);
    }
    if l == hb || r == hb {
        return None;
    }
    if mode & 1u32 != 0 && l == r {
        return Some(l);
    }
    let rl = rank_of(l);
    let rr = rank_of(r);
    if mode & 2u32 != 0 && l == '_' && (r == '|' || rr > 1) {
        return Some(r);
    }
    if mode & 2u32 != 0 && r == '_' && (l == '|' || rl > 1) {
        return Some(l);
    }
    if mode & 4u32 != 0 && rl > 0 && rr > 0 && rl != rr {
        return if rl < rr {
            Some(r)
        } else {
            Some(l)
        };
    }
    if mode & 8u32 != 0 && ((l == '[' && r == ']') || (l == ']' && r == '[') || (l == '{' && r
        == '}') || (l == '}' && r == '{') || (l == '(' && r == ')') || (l == ')' && r == '(')) {
        return Some('|');
    }
    if mode & 16u32 != 0 && l == '/' && r == '\\' {
        return Some('|');
    }
    if mode & 16u32 != 0 && l == '\\' && r == '/' {
        return Some('Y');
    }
    if mode & 16u32 != 0 && l == '>' && r == '<' {
        return Some('X');
    }
    None
}

fn smush_char_of(l: char, r: char, mode: u32, hb: char, pw: usize, cw: usize, rtl: bool) -> (c: char)
    ensures
        c == smush_char(l, r, mode, hb, pw as int, cw as int, rtl),
{
    match smush_pair_of(l, r, mode, hb, pw, cw, rtl) {
        Some(c) => c,
        None => l,
    }
}

fn scan_back_of(s: &[char]) -> (i: usize)
    ensures
        i == scan_back(s@, s@.len() as int),
        i <= s@.len(),
        s@.len() > 0 ==> i < s@.len(),
{
    let mut i = s.len();
    while i > 0 && (i >= s.len() || s[i] == ' ')
        invariant
            i <= s@.len(),
            scan_back(s@, s@.len() as int) == scan_back(s@, i as int),
        decreases i,
    {
        i = i - 1;
    }
    proof {
        if s@.len() > 0 && i == s@.len() {
            assert(false);
        }
    }
    i
}

fn scan_fwd_of(s: &[char]) -> (i: usize)
    ensures
        i == scan_fwd(s@, 0),
        i <= s@.len(),
{
    let mut i: usize = 0;
    while i < s.len() && s[i] == ' '
        invariant
            i <= s@.len(),
            scan_fwd(s@, 0) == scan_fwd(s@, i as int),
        decreases s@.len() - i,
    {
        i = i + 1;
    }
    i
}


fn row_amount_of(lp: &[char], rp: &[char], mode: u32, hb: char, pw: usize, cw: usize, rtl: bool) -> (a:
    i128)
    ensures
        a == row_amount(lp@, rp@, mode, hb, pw as int, cw as int, rtl),
        a >= 0,
{
    let lb = scan_back_of(lp);
    let rb = scan_fwd_of(rp);
    assert(lp@.len() == lp.len() && rp@.len() == rp.len());
    let base: i128 = rb as i128 + lp.len() as i128 - 1 - lb as i128;
    if lb >= lp.len() || lp[lb] == ' ' {
        return base + 1;
    }
    if rb >= rp.len() {
        return base;
    }
    if smush_pair_of(lp[lb], rp[rb], mode, hb, pw, cw, rtl).is_some() {
        base + 1
    } else {
        base
    }
}


/// The rows of a character as vectors of characters: `height` of them, empty where the
/// character has no such row; and the width of its first row.
fn glyph_cells(c: &FIGchar, height: usize) -> (r: (Vec<Vec<char>>, usize))
    ensures
        r.0@.len() == height,
        forall|i: int| 0 <= i < height ==> (#[trigger] r.0@[i])@ == glyph_row(c.rows(), i),
        r.1 == glyph_width(c.rows()),
{
    let lines = c.get();
    let mut cells: Vec<Vec<char>> = Vec::new();
    let mut i: usize = 0;
    while i < height
        invariant
            i <= height,
            string_views(lines@) == c.rows(),
            cells@.len() == i,
            forall|k: int| 0 <= k < i ==> (#[trigger] cells@[k])@ == glyph_row(c.rows(), k),
        decreases height - i,
    {
        let row: Vec<char> = if i < lines.len() {
            assert(string_views(lines@)[i as int] == lines@[i as int]@);
            str_to_chars(lines[i].as_str())
        } else {
            Vec::new()
        };
        cells.push(row);
        i = i + 1;
    }
    let w: usize = if lines.len() > 0 {
        assert(string_views(lines@)[0] == lines@[0]@);
        str_to_chars(lines[0].as_str()).len()
    } else {
        0
    };
    (cells, w)
}

/// Left to right: the output row with a character row overlapping its last `s` columns.
fn combine_ltr_of(out: &Vec<char>, g: &Vec<char>, s: usize, mode: u32, hb: char, pw: usize, cw: usize) -> (r:
    Vec<char>)
    requires
        s <= g@.len(),
    ensures
        r@ == combine_ltr(out@, g@, s as int, mode, hb, pw as int, cw as int),
{
    let l = out.len();
    let mut r: Vec<char> = Vec::new();
    let mut j: usize = 0;
    while j < l
        invariant
            j <= l,
            l == out@.len(),
            s <= g@.len(),
            r@.len() == j,
            forall|k: int| 0 <= k < j ==> #[trigger] r@[k] == (if k + s >= l {
                smush_char(out@[k], g@[k + s - l], mode, hb, pw as int, cw as int, false)
            } else {
                out@[k]
            }),
        decreases l - j,
    {
        let c = if s >= l || j >= l - s {
            let idx = if s >= l {
                j + (s - l)
            } else {
                j - (l - s)
            };
            smush_char_of(out[j], g[idx], mode, hb, pw, cw, false)
        } else {
            out[j]
        };
        r.push(c);
        j = j + 1;
    }
    let mut k = s;
    let ghost head = r@;
    while k < g.len()
        invariant
            s <= k <= g@.len(),
            r@ == head + g@.subrange(s as int, k as int),
        decreases g@.len() - k,
    {
        r.push(g[k]);
        k = k + 1;
        assert(r@ =~= head + g@.subrange(s as int, k as int));
    }
    assert(r@ =~= combine_ltr(out@, g@, s as int, mode, hb, pw as int, cw as int));
    r
}

/// Right to left: a character row with the output row overlapping its last `s` columns.
fn combine_rtl_of(out: &Vec<char>, g: &Vec<char>, s: usize, mode: u32, hb: char, pw: usize, cw: usize) -> (r:
    Vec<char>)
    requires
        s <= g@.len(),
    ensures
        r@ == combine_rtl(out@, g@, s as int, mode, hb, pw as int, cw as int),
{
    let w = g.len();
    let n = if s < out.len() {
        s
    } else {
        out.len()
    };
    let mut r: Vec<char> = Vec::new();
    let mut j: usize = 0;
    while j < w - s
        invariant
            j <= w - s,
            w == g@.len(),
            s <= w,
            r@ == g@.take(j as int),
        decreases w - s - j,
    {
        r.push(g[j]);
        j = j + 1;
        assert(r@ =~= g@.take(j as int));
    }
    let ghost head = r@;
    let mut k: usize = 0;
    while k < n
        invariant
            k <= n,
            n <= s,
            n <= out@.len(),
            w == g@.len(),
            s <= w,
            r@.len() == head.len() + k,
            forall|i: int| 0 <= i < head.len() ==> #[trigger] r@[i] == head[i],
            forall|i: int| 0 <= i < k ==> #[trigger] r@[head.len() + i] == smush_char(
                g@[w - s + i],
                out@[i],
                mode,
                hb,
                pw as int,
                cw as int,
                true,
            ),
        decreases n - k,
    {
        let c = smush_char_of(g[w - s + k], out[k], mode, hb, pw, cw, true);
        r.push(c);
        k = k + 1;
    }
    let ghost mid = r@;
    let mut m = n;
    while m < out.len()
        invariant
            n <= m <= out@.len(),
            r@ == mid + out@.subrange(n as int, m as int),
        decreases out@.len() - m,
    {
        r.push(out[m]);
        m = m + 1;
        assert(r@ =~= mid + out@.subrange(n as int, m as int));
    }
    assert(r@ =~= combine_rtl(out@, g@, s as int, mode, hb, pw as int, cw as int));
    r
}


/// The configuration a smusher for `font` has with the given layout mode, direction and
/// control files.
pub open spec fn make_config(
    font: &FIGfont,
    mode: LayoutMode,
    rtl: bool,
    control: Option<&Control>,
) -> SmushConfig {
    SmushConfig {
        glyphs: font.glyphs(),
        height: font.header().height as int,
        hardblank: font.header().hardblank,
        mode: smush_mode(mode, font.header().layout),
        rtl,
        control: match control {
            Some(c) => Some(c.file_cmds()),
            None => None,
        },
    }
}

/// Composes FIGcharacters into a multi-line output buffer with smushing.
#[derive(Debug)]
pub struct Smusher<'a> {
    font: &'a FIGfont,
    control: Option<&'a Control>,
    height: usize,
    hardblank: char,
    mode: u32,
    rtl: bool,
    rows: Vec<Vec<char>>,
    prev_width: usize,
}

/// Builds a smusher with a layout mode, print direction and control files of choice.
#[derive(Debug)]
pub struct SmusherBuilder<'a> {
    font: &'a FIGfont,
    control: Option<&'a Control>,
    layout_mode: LayoutMode,
    right_to_left: bool,
}

impl<'a> SmusherBuilder<'a> {
    /// The font the smusher will use.
    pub closed spec fn spec_font(&self) -> &'a FIGfont {
        self.font
    }

    /// The layout mode the smusher will use.
    pub closed spec fn spec_mode(&self) -> LayoutMode {
        self.layout_mode
    }

    /// Whether the smusher will print right to left.
    pub closed spec fn spec_rtl(&self) -> bool {
        self.right_to_left
    }

    /// The control files the smusher will apply.
    pub closed spec fn spec_control(&self) -> Option<&'a Control> {
        self.control
    }

    /// The configuration the smusher will have.
    pub open spec fn spec_config(&self) -> SmushConfig {
        make_config(self.spec_font(), self.spec_mode(), self.spec_rtl(), self.spec_control())
    }

    /// Use the given layout mode.
    pub fn layout_mode(self, mode: LayoutMode) -> (b: Self)
        ensures
            b.spec_font() == self.spec_font(),
            b.spec_mode() == mode,
            b.spec_rtl() == self.spec_rtl(),
            b.spec_control() == self.spec_control(),
    {
        SmusherBuilder { layout_mode: mode, ..self }
    }

    /// Print right to left (or left to right).
    pub fn right_to_left(self, rtl: bool) -> (b: Self)
        ensures
            b.spec_font() == self.spec_font(),
            b.spec_mode() == self.spec_mode(),
            b.spec_rtl() == rtl,
            b.spec_control() == self.spec_control(),
    {
        SmusherBuilder { right_to_left: rtl, ..self }
    }

    /// Map each code through the given control files first.
    pub fn control(self, control: Option<&'a Control>) -> (b: Self)
        ensures
            b.spec_font() == self.spec_font(),
            b.spec_mode() == self.spec_mode(),
            b.spec_rtl() == self.spec_rtl(),
            b.spec_control() == control,
    {
        SmusherBuilder { control, ..self }
    }

    /// The smusher, with an empty output.
    pub fn build(self) -> (sm: Smusher<'a>)
        requires
            self.spec_font().wf(),
        ensures
            sm.config() == self.spec_config(),
            sm.state() == initial_state(self.spec_config()),
    {
        let h = self.font.header_info();
        let mut rows: Vec<Vec<char>> = Vec::new();
        let mut i: usize = 0;
        while i < h.height
            invariant
                i <= h.height,
                views(rows@) == empty_rows(i as int),
            decreases h.height - i,
        {
            let ghost before = views(rows@);
            rows.push(Vec::new());
            assert(views(rows@) =~= before.push(Seq::<char>::empty()));
            assert(empty_rows(i + 1) =~= empty_rows(i as int).push(Seq::<char>::empty()));
            i = i + 1;
        }
        Smusher {
            font: self.font,
            control: self.control,
            height: h.height,
            hardblank: h.hardblank,
            mode: smush_mode_of(self.layout_mode, h.layout),
            rtl: self.right_to_left,
            rows,
            prev_width: 0,
        }
    }
}

fn smush_mode_of(mode: LayoutMode, font_layout: u32) -> (m: u32)
    ensures
        m == smush_mode(mode, font_layout),
{
    match mode {
        LayoutMode::Default => font_layout,
        LayoutMode::SmushDefault => font_layout,
        LayoutMode::SmushForce => font_layout | 128u32,
        LayoutMode::Overlap => 128u32,
        LayoutMode::Kern => 64u32,
        LayoutMode::FullWidth => 0u32,
        LayoutMode::Custom(m) => (m & 63u32) | 128u32,
    }
}

impl<'a> Smusher<'a> {
    #[verifier::type_invariant]
    spec fn inv(self) -> bool {
        &&& self.font.wf()
        &&& self.height == self.font.header().height
        &&& self.hardblank == self.font.header().hardblank
        &&& self.rows@.len() == self.height
    }

    /// What this smusher's output depends on.
    pub closed spec fn config(&self) -> SmushConfig {
        SmushConfig {
            glyphs: self.font.glyphs(),
            height: self.height as int,
            hardblank: self.hardblank,
            mode: self.mode,
            rtl: self.rtl,
            control: match self.control {
                Some(c) => Some(c.file_cmds()),
                None => None,
            },
        }
    }

    /// The current output.
    pub closed spec fn state(&self) -> SmushState {
        SmushState { rows: views(self.rows@), prev_width: self.prev_width as int }
    }

    /// A smusher for `font` with the font's own layout and print direction.
    pub fn new(font: &'a FIGfont) -> (sm: Self)
        requires
            font.wf(),
        ensures
            sm.config() == make_config(font, LayoutMode::Default, font.header().right_to_left, None),
            sm.state() == initial_state(sm.config()),
    {
        Self::builder(font).build()
    }

    /// A builder for a smusher for `font`, starting from the font's own layout and print
    /// direction and no control files.
    pub fn builder(font: &'a FIGfont) -> (b: SmusherBuilder<'a>)
        ensures
            b.spec_font() == font,
            b.spec_mode() == LayoutMode::Default,
            b.spec_rtl() == font.header().right_to_left,
            b.spec_control() == None::<&Control>,
    {
        SmusherBuilder {
            font,
            control: None,
            layout_mode: LayoutMode::Default,
            right_to_left: font.header_info().right_to_left,
        }
    }

    /// How far the character with rows `cells` (of width `cw`) moves over the output.
    fn amount(&self, cells: &Vec<Vec<char>>, cw: usize, Ghost(g): Ghost<Seq<Seq<char>>>) -> (s: usize)
        requires
            cells@.len() == self.config().height,
            forall|i: int| 0 <= i < cells@.len() ==> (#[trigger] cells@[i])@ == glyph_row(g, i),
            cw == glyph_width(g),
        ensures
            s == smush_amount(self.config(), self.state(), g),
            forall|i: int| 0 <= i < cells@.len() ==> s <= (#[trigger] cells@[i])@.len(),
    {
        proof {
            use_type_invariant(self);
        }
        if self.mode & 192u32 == 0 {
            return 0;
        }
        let ghost cfg = self.config();
        let ghost st = self.state();
        let height = self.height;
        let mut bound: usize = cw;
        let mut r: usize = 0;
        while r < height
            invariant
                r <= height,
                height == cfg.height,
                self.rows@.len() == height,
                cells@.len() == height,
                cfg == self.config(),
                st == self.state(),
                cfg.mode & 192u32 != 0,
                forall|i: int| 0 <= i < cells@.len() ==> (#[trigger] cells@[i])@ == glyph_row(g, i),
                cw == glyph_width(g),
                smush_amount(cfg, st, g) == min_amount(cfg, st, g, r as int, bound as int),
                forall|i: int| 0 <= i < r ==> bound <= (#[trigger] cells@[i])@.len(),
            decreases height - r,
        {
            let out = &self.rows[r];
            let gr = &cells[r];
            assert(views(self.rows@)[r as int] == out@);
            assert(glyph_row(st.rows, r as int) == out@);
            let a: i128 = if self.rtl {
                row_amount_of(gr.as_slice(), out.as_slice(), self.mode, self.hardblank, self.prev_width, cw, true)
            } else {
                row_amount_of(out.as_slice(), gr.as_slice(), self.mode, self.hardblank, self.prev_width, cw, false)
            };
            let capped: usize = if a < gr.len() as i128 {
                a as usize
            } else {
                gr.len()
            };
            assert(capped == amount_at(cfg, st, g, r as int));
            if capped < bound {
                bound = capped;
            }
            r = r + 1;
        }
        bound
    }

    /// Add a character code to the output: the code after the control files, if it is a
    /// Unicode scalar value. Returns whether it was rendered.
    pub fn push_code(&mut self, code: i32) -> (rendered: bool)
        ensures
            final(self).config() == old(self).config(),
            final(self).state() == smush_step(old(self).config(), old(self).state(), code),
            rendered == renders(old(self).config(), code),
    {
        proof {
            use_type_invariant(&*self);
        }
        let mapped = match self.control {
            Some(c) => c.apply(code),
            None => code,
        };
        assert(mapped == mapped_code(self.config(), code));
        if mapped < 0 {
            return false;
        }
        let ch = match char_from_code(mapped as u32) {
            Some(ch) => ch,
            None => return false,
        };
        let g = self.font.get(ch);
        let ghost gr = g.rows();
        let height = self.height;
        let (cells, cw) = glyph_cells(g, height);
        let s = self.amount(&cells, cw, Ghost(gr));
        let ghost cfg = self.config();
        let ghost st = self.state();
        let mut rows: Vec<Vec<char>> = Vec::new();
        let mut r: usize = 0;
        while r < height
            invariant
                r <= height,
                height == cfg.height,
                self.rows@.len() == height,
                cells@.len() == height,
                cfg == self.config(),
                st == self.state(),
                s == smush_amount(cfg, st, gr),
                cw == glyph_width(gr),
                forall|i: int| 0 <= i < height ==> (#[trigger] cells@[i])@ == glyph_row(gr, i),
                forall|i: int| 0 <= i < height ==> s <= (#[trigger] cells@[i])@.len(),
                rows@.len() == r,
                forall|i: int| 0 <= i < r ==> (#[trigger] rows@[i])@ == add_glyph(cfg, st, gr).rows[i],
            decreases height - r,
        {
            let out = &self.rows[r];
            assert(views(self.rows@)[r as int] == out@);
            let row = if self.rtl {
                combine_rtl_of(out, &cells[r], s, self.mode, self.hardblank, self.prev_width, cw)
            } else {
                combine_ltr_of(out, &cells[r], s, self.mode, self.hardblank, self.prev_width, cw)
            };
            rows.push(row);
            r = r + 1;
        }
        self.rows = rows;
        self.prev_width = cw;
        assert(views(self.rows@) =~= add_glyph(cfg, st, gr).rows);
        true
    }

    /// Add a character to the output. Returns whether it was rendered.
    pub fn push(&mut self, ch: char) -> (rendered: bool)
        ensures
            final(self).config() == old(self).config(),
            final(self).state() == smush_step(old(self).config(), old(self).state(), ch as i32),
            rendered == renders(old(self).config(), ch as i32),
    {
        self.push_code(ch as i32)
    }

    /// Add character codes to the output, in order.
    pub fn push_codes(&mut self, codes: &[i32])
        ensures
            final(self).config() == old(self).config(),
            final(self).state() == smush_all(old(self).config(), old(self).state(), codes@),
    {
        let mut i: usize = 0;
        while i < codes.len()
            invariant
                i <= codes@.len(),
                self.config() == old(self).config(),
                self.state() == smush_all(self.config(), old(self).state(), codes@.take(i as int)),
            decreases codes@.len() - i,
        {
            self.push_code(codes[i]);
            assert(codes@.take(i + 1).drop_last() =~= codes@.take(i as int));
            i = i + 1;
        }
        assert(codes@.take(i as int) =~= codes@);
    }

    /// Add the characters of a string to the output, in order.
    pub fn push_str(&mut self, s: &str)
        ensures
            final(self).config() == old(self).config(),
            final(self).state() == smush_all(old(self).config(), old(self).state(), codes_of(s@)),
    {
        let codes = codes_from_str(s);
        self.push_codes(codes.as_slice());
    }

    /// The width of the output: the length of its widest row.
    pub fn len(&self) -> (n: usize)
        ensures
            n == max_len(self.state().rows),
    {
        let mut m: usize = 0;
        let mut i: usize = 0;
        assert(views(self.rows@).take(0) =~= Seq::<Seq<char>>::empty());
        while i < self.rows.len()
            invariant
                i <= self.rows@.len(),
                m == max_len(views(self.rows@).take(i as int)),
            decreases self.rows@.len() - i,
        {
            let ghost t = views(self.rows@).take(i + 1);
            assert(t.drop_last() =~= views(self.rows@).take(i as int));
            assert(t.last() == self.rows@[i as int]@);
            if self.rows[i].len() > m {
                m = self.rows[i].len();
            }
            i = i + 1;
        }
        assert(views(self.rows@).take(i as int) =~= views(self.rows@));
        m
    }

    /// The output is empty: no row has a character.
    pub fn is_empty(&self) -> (b: bool)
        ensures
            b == (max_len(self.state().rows) == 0),
    {
        self.len() == 0
    }

    /// Clear the output.
    pub fn clear(&mut self)
        ensures
            final(self).config() == old(self).config(),
            final(self).state() == initial_state(old(self).config()),
    {
        proof {
            use_type_invariant(&*self);
        }
        let mut rows: Vec<Vec<char>> = Vec::new();
        let mut i: usize = 0;
        while i < self.height
            invariant
                i <= self.height,
                views(rows@) == empty_rows(i as int),
            decreases self.height - i,
        {
            let ghost before = views(rows@);
            rows.push(Vec::new());
            assert(views(rows@) =~= before.push(Seq::<char>::empty()));
            assert(empty_rows(i + 1) =~= empty_rows(i as int).push(Seq::<char>::empty()));
            i = i + 1;
        }
        self.rows = rows;
        self.prev_width = 0;
    }

    /// Cut every row of the output to at most `width` characters.
    pub fn trim(&mut self, width: usize)
        ensures
            final(self).config() == old(self).config(),
            final(self).state() == (SmushState {
                rows: trim_rows(old(self).state().rows, width as int),
                ..old(self).state()
            }),
    {
        proof {
            use_type_invariant(&*self);
        }
        let mut rows: Vec<Vec<char>> = Vec::new();
        let mut i: usize = 0;
        while i < self.rows.len()
            invariant
                i <= self.rows@.len(),
                rows@.len() == i,
                forall|k: int| 0 <= k < i ==> (#[trigger] rows@[k])@ == trim_row(self.rows@[k]@, width as int),
            decreases self.rows@.len() - i,
        {
            let row = &self.rows[i];
            let n = if row.len() > width {
                width
            } else {
                row.len()
            };
            let mut t: Vec<char> = Vec::new();
            let mut k: usize = 0;
            while k < n
                invariant
                    k <= n,
                    n <= row@.len(),
                    t@ == row@.take(k as int),
                decreases n - k,
            {
                t.push(row[k]);
                k = k + 1;
                assert(t@ =~= row@.take(k as int));
            }
            assert(t@ =~= trim_row(row@, width as int));
            rows.push(t);
            i = i + 1;
        }
        assert(views(rows@) =~= trim_rows(views(self.rows@), width as int));
        self.rows = rows;
    }

    /// The output rows as they are, hardblanks included.
    pub fn get_raw(&self) -> (v: Vec<String>)
        ensures
            crate::figfont::string_views(v@) == self.state().rows,
    {
        let mut v: Vec<String> = Vec::new();
        let mut i: usize = 0;
        while i < self.rows.len()
            invariant
                i <= self.rows@.len(),
                crate::figfont::string_views(v@) == views(self.rows@).take(i as int),
            decreases self.rows@.len() - i,
        {
            let line = chars_to_string(self.rows[i].as_slice());
            let ghost before = v@;
            v.push(line);
            assert(crate::figfont::string_views(v@) =~= crate::figfont::string_views(before).push(line@));
            assert(views(self.rows@).take(i + 1) =~= views(self.rows@).take(i as int).push(self.rows@[i as int]@));
            i = i + 1;
        }
        assert(views(self.rows@).take(i as int) =~= views(self.rows@));
        v
    }

    /// Replace the font's hardblank in each line with a space.
    pub fn replace_hardblanks(&self, v: &mut Vec<String>)
        ensures
            crate::figfont::string_views(final(v)@) == crate::figfont::string_views(old(v)@).map_values(
                |l: Seq<char>| replace_char(l, self.config().hardblank),
            ),
    {
        proof {
            use_type_invariant(self);
        }
        let ghost orig = crate::figfont::string_views(v@);
        let mut out: Vec<String> = Vec::new();
        let mut i: usize = 0;
        while i < v.len()
            invariant
                i <= v@.len(),
                orig == crate::figfont::string_views(v@),
                crate::figfont::string_views(out@) == orig.take(i as int).map_values(
                    |l: Seq<char>| replace_char(l, self.hardblank),
                ),
            decreases v@.len() - i,
        {
            let cs = str_to_chars(v[i].as_str());
            let mut r: Vec<char> = Vec::new();
            let mut k: usize = 0;
            while k < cs.len()
                invariant
                    k <= cs@.len(),
                    r@ == replace_char(cs@.take(k as int), self.hardblank),
                decreases cs@.len() - k,
            {
                let c = cs[k];
                r.push(if c == self.hardblank { ' ' } else { c });
                k = k + 1;
                assert(r@ =~= replace_char(cs@.take(k as int), self.hardblank));
            }
            assert(cs@.take(k as int) =~= cs@);
            let line = chars_to_string(r.as_slice());
            let ghost before = out@;
            out.push(line);
            assert(orig[i as int] == cs@);
            assert(crate::figfont::string_views(out@) =~= orig.take(i + 1).map_values(
                |l: Seq<char>| replace_char(l, self.hardblank),
            )) by {
                assert(crate::figfont::string_views(out@) =~= crate::figfont::string_views(before).push(line@));
            }
            i = i + 1;
        }
        assert(orig.take(i as int) =~= orig);
        *v = out;
    }

    /// The output rows with the hardblanks replaced by spaces.
    pub fn get(&self) -> (v: Vec<String>)
        ensures
            crate::figfont::string_views(v@) == self.state().rows.map_values(
                |l: Seq<char>| replace_char(l, self.config().hardblank),
            ),
    {
        let mut v = self.get_raw();
        self.replace_hardblanks(&mut v);
        v
    }
}

/// A row cut to at most `w` characters.
pub open spec fn trim_row(r: Seq<char>, w: int) -> Seq<char> {
    if r.len() > w {
        r.take(w)
    } else {
        r
    }
}

/// Every row cut to at most `w` characters.
pub open spec fn trim_rows(rows: Seq<Seq<char>>, w: int) -> Seq<Seq<char>> {
    rows.map_values(|r: Seq<char>| trim_row(r, w))
}

/// `l` with each `hb` replaced by a space.
pub open spec fn replace_char(l: Seq<char>, hb: char) -> Seq<char> {
    l.map_values(|c: char| if c == hb {
        ' '
    } else {
        c
    })
}

/// The codes of the characters of a string.
pub open spec fn codes_of(s: Seq<char>) -> Seq<i32> {
    s.map_values(|c: char| c as i32)
}

/// The codes of the characters of a string.
pub fn codes_from_str(s: &str) -> (v: Vec<i32>)
    ensures
        v@ == codes_of(s@),
{
    let cs = str_to_chars(s);
    let mut v: Vec<i32> = Vec::new();
    let mut i: usize = 0;
    while i < cs.len()
        invariant
            i <= cs@.len(),
            cs@ == s@,
            v@ == codes_of(cs@.take(i as int)),
        decreases cs@.len() - i,
    {
        v.push(cs[i] as i32);
        i = i + 1;
        assert(v@ =~= codes_of(cs@.take(i as int)));
    }
    assert(cs@.take(i as int) =~= cs@);
    v
}


/* Laws */

/// Without smushing or kerning (full width), each new character is set beside the output:
/// after it left to right, before it right to left.
pub proof fn law_full_width_sets_side_by_side(cfg: SmushConfig, st: SmushState, g: Seq<Seq<char>>, r: int)
    requires
        cfg.mode & 192u32 == 0,
        0 <= r < cfg.height,
    ensures
        add_glyph(cfg, st, g).rows[r] == (if cfg.rtl {
            glyph_row(g, r) + glyph_row(st.rows, r)
        } else {
            glyph_row(st.rows, r) + glyph_row(g, r)
        }),
{
    let out = glyph_row(st.rows, r);
    let gr = glyph_row(g, r);
    assert(smush_amount(cfg, st, g) == 0);
    if cfg.rtl {
        assert(combine_rtl(out, gr, 0, cfg.mode, cfg.hardblank, st.prev_width, glyph_width(g)) =~= gr + out);
    } else {
        assert(combine_ltr(out, gr, 0, cfg.mode, cfg.hardblank, st.prev_width, glyph_width(g)) =~= out + gr);
    }
}

proof fn lemma_min_amount_bounds(cfg: SmushConfig, st: SmushState, g: Seq<Seq<char>>, r: int, bound: int)
    requires
        bound >= 0,
        r >= 0,
    ensures
        0 <= min_amount(cfg, st, g, r, bound) <= bound,
        forall|k: int| r <= k < cfg.height ==> min_amount(cfg, st, g, r, bound) <= #[trigger] glyph_row(
            g,
            k,
        ).len(),
    decreases cfg.height - r,
{
    if r < cfg.height {
        let a = amount_at(cfg, st, g, r);
        lemma_amount_nonneg(cfg, st, g, r);
        let nb = if a < bound {
            a
        } else {
            bound
        };
        lemma_min_amount_bounds(cfg, st, g, r + 1, nb);
    }
}

proof fn lemma_scan_back_bound(s: Seq<char>, i: int)
    requires
        0 <= i,
    ensures
        0 <= scan_back(s, i) <= i,
        s.len() > 0 && i <= s.len() ==> scan_back(s, i) < s.len(),
    decreases i,
{
    if i > 0 && (i >= s.len() || s[i] == ' ') {
        lemma_scan_back_bound(s, i - 1);
    }
}

proof fn lemma_scan_fwd_bound(s: Seq<char>, i: int)
    requires
        0 <= i,
    ensures
        i <= scan_fwd(s, i),
    decreases s.len() - i,
{
    if 0 <= i < s.len() && s[i] == ' ' {
        lemma_scan_fwd_bound(s, i + 1);
    }
}

proof fn lemma_amount_nonneg(cfg: SmushConfig, st: SmushState, g: Seq<Seq<char>>, r: int)
    ensures
        amount_at(cfg, st, g, r) >= 0,
        amount_at(cfg, st, g, r) <= glyph_row(g, r).len(),
{
    let out = glyph_row(st.rows, r);
    let gr = glyph_row(g, r);
    lemma_scan_back_bound(out, out.len() as int);
    lemma_scan_fwd_bound(gr, 0);
    lemma_scan_back_bound(gr, gr.len() as int);
    lemma_scan_fwd_bound(out, 0);
}

/// Adding a character never shortens a row and lengthens it by at most the width of that
/// row of the character: overlap is never negative nor wider than the character.
pub proof fn law_rows_grow_by_at_most_the_character(cfg: SmushConfig, st: SmushState, g: Seq<Seq<char>>, r: int)
    requires
        0 <= r < cfg.height,
    ensures
        glyph_row(st.rows, r).len() <= add_glyph(cfg, st, g).rows[r].len() <= glyph_row(st.rows, r).len()
            + glyph_row(g, r).len(),
{
    let s = smush_amount(cfg, st, g);
    if cfg.mode & 192u32 != 0 {
        lemma_min_amount_bounds(cfg, st, g, 0, glyph_width(g));
    }
    assert(0 <= s <= glyph_row(g, r).len());
}

/// Kerning (no smushing bit) never overlaps two visible characters.
pub proof fn law_kerning_keeps_visible_characters_apart(
    l: char,
    r: char,
    mode: u32,
    hb: char,
    pw: int,
    cw: int,
    rtl: bool,
)
    requires
        mode & 128u32 == 0,
        l != ' ',
        r != ' ',
    ensures
        smush_pair(l, r, mode, hb, pw, cw, rtl) is None,
{
}

/// Rule 1: with controlled smushing and the equal-character rule, two equal visible
/// characters (not hardblanks, both characters at least two wide) smush into one.
pub proof fn law_equal_characters_smush(l: char, mode: u32, hb: char, pw: int, cw: int, rtl: bool)
    requires
        mode & 128u32 != 0,
        mode & 1u32 != 0,
        l != ' ',
        l != hb,
        pw >= 2,
        cw >= 2,
    ensures
        smush_pair(l, l, mode, hb, pw, cw, rtl) == Some(l),
{
    assert(mode & 1u32 != 0 ==> mode & 63u32 != 0) by (bit_vector);
}

/// Universal overlapping favours the character that comes later in the input: the right one
/// left to right, the left one right to left.
pub proof fn law_universal_overlap_favours_later(l: char, r: char, mode: u32, hb: char, pw: int, cw: int, rtl: bool)
    requires
        mode & 128u32 != 0,
        mode & 63u32 == 0,
        l != ' ',
        r != ' ',
        l != hb,
        r != hb,
        pw >= 2,
        cw >= 2,
    ensures
        smush_pair(l, r, mode, hb, pw, cw, rtl) == Some(if rtl {
            l
        } else {
            r
        }),
{
}

/// With controlled smushing, a hardblank smushes only with another hardblank, and only
/// under the hardblank rule.
pub proof fn law_hardblank_smushes_only_with_hardblank(
    l: char,
    r: char,
    mode: u32,
    hb: char,
    pw: int,
    cw: int,
    rtl: bool,
)
    requires
        mode & 128u32 != 0,
        mode & 63u32 != 0,
        l != ' ',
        r != ' ',
        l == hb || r == hb,
    ensures
        smush_pair(l, r, mode, hb, pw, cw, rtl) is Some ==> l == hb && r == hb && mode & 32u32 != 0,
{
}

/// A code that is not rendered leaves the output as it was.
pub proof fn law_unrendered_code_changes_nothing(cfg: SmushConfig, st: SmushState, code: i32)
    requires
        !renders(cfg, code),
    ensures
        smush_step(cfg, st, code) == st,
{
}

/// Sub-character `c` belongs to class `i` of the FIGfont hierarchy rule, the classes being,
/// from lowest to highest: "|", "/\\", "[]", "{}", "()", "<>".
pub open spec fn in_hierarchy_class(c: char, i: int) -> bool {
    ||| i == 0 && c == '|'
    ||| i == 1 && (c == '/' || c == '\\')
    ||| i == 2 && (c == '[' || c == ']')
    ||| i == 3 && (c == '{' || c == '}')
    ||| i == 4 && (c == '(' || c == ')')
    ||| i == 5 && (c == '<' || c == '>')
}

/// Hierarchy smushing: under controlled smushing with the hierarchy rule, two
/// sub-characters of different classes smush into the one of the higher class, whichever
/// side it is on.
pub proof fn law_hierarchy_higher_class_wins(
    l: char,
    r: char,
    i: int,
    j: int,
    mode: u32,
    hb: char,
    pw: int,
    cw: int,
    rtl: bool,
)
    requires
        mode & 128u32 != 0,
        mode & 4u32 != 0,
        in_hierarchy_class(l, i),
        in_hierarchy_class(r, j),
        i != j,
        l != hb,
        r != hb,
        pw >= 2,
        cw >= 2,
    ensures
        smush_pair(l, r, mode, hb, pw, cw, rtl) == Some(if i < j { r } else { l }),
{
    assert(mode & 4u32 != 0 ==> mode & 63u32 != 0) by (bit_vector);
}

/// Underscore smushing: an underscore gives way to any of "|/\\[]{}()<>" on either side.
pub proof fn law_underscore_gives_way(l: char, r: char, mode: u32, hb: char, pw: int, cw: int, rtl: bool)
    requires
        mode & 128u32 != 0,
        mode & 2u32 != 0,
        (l == '_' && (exists|i: int| 0 <= i < 6 && in_hierarchy_class(r, i)))
            || (r == '_' && (exists|i: int| 0 <= i < 6 && in_hierarchy_class(l, i))),
        l != hb,
        r != hb,
        pw >= 2,
        cw >= 2,
    ensures
        smush_pair(l, r, mode, hb, pw, cw, rtl) == Some(if l == '_' { r } else { l }),
{
    assert(mode & 2u32 != 0 ==> mode & 63u32 != 0) by (bit_vector);
}

/// Opposite pair smushing: facing brackets "[]", "{}", "()" in either order become '|'.
pub proof fn law_opposite_pairs_become_bar(l: char, r: char, mode: u32, hb: char, pw: int, cw: int, rtl: bool)
    requires
        mode & 128u32 != 0,
        mode & 8u32 != 0,
        (l == '[' && r == ']') || (l == ']' && r == '[') || (l == '{' && r == '}') || (l == '}'
            && r == '{') || (l == '(' && r == ')') || (l == ')' && r == '('),
        l != hb,
        r != hb,
        pw >= 2,
        cw >= 2,
    ensures
        smush_pair(l, r, mode, hb, pw, cw, rtl) == Some('|'),
{
    assert(mode & 8u32 != 0 ==> mode & 63u32 != 0) by (bit_vector);
}

/// Big X smushing: "/\\" becomes '|', "\\/" becomes 'Y' and "><" becomes 'X'.
pub proof fn law_big_x(l: char, r: char, mode: u32, hb: char, pw: int, cw: int, rtl: bool)
    requires
        mode & 128u32 != 0,
        mode & 16u32 != 0,
        (l == '/' && r == '\\') || (l == '\\' && r == '/') || (l == '>' && r == '<'),
        l != hb,
        r != hb,
        pw >= 2,
        cw >= 2,
    ensures
        smush_pair(l, r, mode, hb, pw, cw, rtl) == Some(
            if l == '/' {
                '|'
            } else if l == '\\' {
                'Y'
            } else {
                'X'
            },
        ),
{
    assert(mode & 16u32 != 0 ==> mode & 63u32 != 0) by (bit_vector);
}

/// Forced smushing keeps the font's own layout bits and turns smushing on; on a font that
/// smushes already it is the font's own layout.
pub proof fn law_smush_force_keeps_font_rules(font_layout: u32)
    ensures
        smush_mode(LayoutMode::SmushForce, font_layout) & 127u32 == font_layout & 127u32,
        smush_mode(LayoutMode::SmushForce, font_layout) & 128u32 == 128u32,
        smush_mode(LayoutMode::SmushForce, font_layout) & !255u32 == font_layout & !255u32,
        font_layout & 128u32 != 0 ==> smush_mode(LayoutMode::SmushForce, font_layout) == smush_mode(
            LayoutMode::Default,
            font_layout,
        ),
{
    let f = smush_mode(LayoutMode::SmushForce, font_layout);
    assert(f == font_layout | 128u32);
    assert((font_layout | 128u32) & 127u32 == font_layout & 127u32) by (bit_vector);
    assert((font_layout | 128u32) & 128u32 == 128u32) by (bit_vector);
    assert((font_layout | 128u32) & !255u32 == font_layout & !255u32) by (bit_vector);
    assert(font_layout & 128u32 != 0 ==> font_layout | 128u32 == font_layout) by (bit_vector);
}

/// What each layout mode asks for: the font's layout for the default; kerning alone (no
/// smushing); no overlap at all for full width; smushing with no rule (universal overlap);
/// smushing with the given rules for a custom mode.
pub proof fn law_layout_mode_bits(font_layout: u32, rules: u32)
    ensures
        smush_mode(LayoutMode::Default, font_layout) == font_layout,
        smush_mode(LayoutMode::SmushDefault, font_layout) == font_layout,
        smush_mode(LayoutMode::Kern, font_layout) & 128u32 == 0,
        smush_mode(LayoutMode::Kern, font_layout) & 64u32 != 0,
        smush_mode(LayoutMode::FullWidth, font_layout) & 192u32 == 0,
        smush_mode(LayoutMode::Overlap, font_layout) & 128u32 != 0,
        smush_mode(LayoutMode::Overlap, font_layout) & 63u32 == 0,
        smush_mode(LayoutMode::Custom(rules), font_layout) & 128u32 != 0,
        smush_mode(LayoutMode::Custom(rules), font_layout) & 63u32 == rules & 63u32,
{
    assert(64u32 & 128u32 == 0 && 64u32 & 64u32 != 0) by (bit_vector);
    assert(0u32 & 192u32 == 0) by (bit_vector);
    assert(128u32 & 128u32 != 0 && 128u32 & 63u32 == 0) by (bit_vector);
    assert(((rules & 63u32) | 128u32) & 128u32 != 0) by (bit_vector);
    assert(((rules & 63u32) | 128u32) & 63u32 == rules & 63u32) by (bit_vector);
}

/// The number of spaces at the end of `s`.
pub open spec fn trailing_blanks(s: Seq<char>) -> int
    decreases s.len(),
{
    if s.len() > 0 && s.last() == ' ' {
        1 + trailing_blanks(s.drop_last())
    } else {
        0
    }
}

/// The number of spaces at the start of `s`.
pub open spec fn leading_blanks(s: Seq<char>) -> int
    decreases s.len(),
{
    if s.len() > 0 && s[0] == ' ' {
        1 + leading_blanks(s.drop_first())
    } else {
        0
    }
}

proof fn lemma_scan_fwd_leading(s: Seq<char>, i: int)
    requires
        0 <= i <= s.len(),
    ensures
        scan_fwd(s, i) == i + leading_blanks(s.skip(i)),
        scan_fwd(s, i) <= s.len(),
        scan_fwd(s, i) < s.len() ==> s[scan_fwd(s, i)] != ' ',
    decreases s.len() - i,
{
    if i < s.len() {
        assert(s.skip(i)[0] == s[i]);
        if s[i] == ' ' {
            lemma_scan_fwd_leading(s, i + 1);
            assert(s.skip(i).drop_first() =~= s.skip(i + 1));
        }
    } else {
        assert(s.skip(i).len() == 0);
    }
}

proof fn lemma_scan_back_trailing(s: Seq<char>, i: int)
    requires
        0 <= i < s.len(),
    ensures
        s[scan_back(s, i)] != ' ' ==> scan_back(s, i) == i - trailing_blanks(s.take(i + 1)),
        s[scan_back(s, i)] == ' ' ==> scan_back(s, i) == 0 && trailing_blanks(s.take(i + 1)) == i + 1,
        0 <= scan_back(s, i) <= i,
    decreases i,
{
    let t = s.take(i + 1);
    assert(t.last() == s[i]);
    if i > 0 && s[i] == ' ' {
        lemma_scan_back_trailing(s, i - 1);
        assert(t.drop_last() =~= s.take(i));
        assert(scan_back(s, i) == scan_back(s, i - 1));
        assert(trailing_blanks(t) == 1 + trailing_blanks(s.take(i)));
    } else if s[i] == ' ' {
        assert(t.drop_last().len() == 0);
        assert(trailing_blanks(t.drop_last()) == 0);
        assert(trailing_blanks(t) == 1);
    }
}

proof fn lemma_row_amount_bound(
    lp: Seq<char>,
    rp: Seq<char>,
    mode: u32,
    hb: char,
    pw: int,
    cw: int,
    rtl: bool,
)
    ensures
        row_amount(lp, rp, mode, hb, pw, cw, rtl) <= trailing_blanks(lp) + leading_blanks(rp) + (if mode
            & 128u32 != 0 {
            1int
        } else {
            0int
        }),
{
    lemma_scan_fwd_leading(rp, 0);
    assert(rp.skip(0) =~= rp);
    let n = lp.len() as int;
    if n == 0 {
        assert(scan_back(lp, 0) == 0);
    } else {
        assert(scan_back(lp, n) == scan_back(lp, n - 1));
        lemma_scan_back_trailing(lp, n - 1);
        assert(lp.take(n) =~= lp);
        let lb = scan_back(lp, n);
        let rb = scan_fwd(rp, 0);
        if lp[lb] != ' ' && rb < rp.len() && mode & 128u32 == 0 {
            law_kerning_keeps_visible_characters_apart(lp[lb], rp[rb], mode, hb, pw, cw, rtl);
        }
    }
}

/// Neither direction drops a visible sub-character when kerning, and smushing merges at most
/// one pair: the overlap of a new character with the output in a row is at most the blanks
/// that face each other (right to left, those at the end of the character's row and at the
/// start of the output row; left to right, those at the end of the output row and at the
/// start of the character's row), one more when smushing.
pub proof fn law_overlap_is_bounded_by_facing_blanks(
    cfg: SmushConfig,
    st: SmushState,
    g: Seq<Seq<char>>,
    r: int,
)
    ensures
        cfg.rtl ==> amount_at(cfg, st, g, r) <= trailing_blanks(glyph_row(g, r)) + leading_blanks(
            glyph_row(st.rows, r),
        ) + (if cfg.mode & 128u32 != 0 {
            1int
        } else {
            0int
        }),
        !cfg.rtl ==> amount_at(cfg, st, g, r) <= trailing_blanks(glyph_row(st.rows, r))
            + leading_blanks(glyph_row(g, r)) + (if cfg.mode & 128u32 != 0 {
            1int
        } else {
            0int
        }),
{
    let out = glyph_row(st.rows, r);
    let gr = glyph_row(g, r);
    let cw = glyph_width(g);
    if cfg.rtl {
        lemma_row_amount_bound(gr, out, cfg.mode, cfg.hardblank, st.prev_width, cw, true);
    } else {
        lemma_row_amount_bound(out, gr, cfg.mode, cfg.hardblank, st.prev_width, cw, false);
    }
}

} // verus!
