use vstd::prelude::*;
use vstd::slice::{slice_subrange, slice_to_vec};
use crate::smusher::{codes_from_str, codes_of, max_len, LayoutMode};
use crate::text::{chars_to_string, is_whitespace, is_ws, str_to_chars};
use crate::wrapper::{
    blocks, clear_model, flush_model, get_model, push_codes_model, wrap_codes_model, Align, WrapModel,
    Wrapper,
};

verus! {

/// A whitespace code as the figlet program sees it: space, tab, newline or carriage return.
pub open spec fn ws_code(code: i32) -> bool {
    code == 32 || code == 9 || code == 10 || code == 13
}

/// Whether a code is a space, tab, newline or carriage return.
pub fn is_ws_code(code: i32) -> (b: bool)
    ensures
        b == ws_code(code),
{
    code == 32 || code == 9 || code == 10 || code == 13
}

/// Whether every code is a space, tab, newline or carriage return.
pub fn is_blank_codes(codes: &[i32]) -> (b: bool)
    ensures
        b == (forall|i: int| 0 <= i < codes@.len() ==> ws_code(#[trigger] codes@[i])),
{
    let mut i: usize = 0;
    while i < codes.len()
        invariant
            i <= codes@.len(),
            forall|k: int| 0 <= k < i ==> ws_code(#[trigger] codes@[k]),
        decreases codes@.len() - i,
    {
        if !is_ws_code(codes[i]) {
            return false;
        }
        i = i + 1;
    }
    true
}

/// `name` ends with `suffix`.
pub open spec fn has_suffix(name: Seq<char>, suffix: Seq<char>) -> bool {
    name.len() >= suffix.len() && name.skip(name.len() - suffix.len()) == suffix
}

/// A font name without its ".flf" or ".tlf" suffix.
pub open spec fn font_base_name(name: Seq<char>) -> Seq<char> {
    if has_suffix(name, seq!['.', 'f', 'l', 'f']) || has_suffix(name, seq!['.', 't', 'l', 'f']) {
        name.take(name.len() - 4)
    } else {
        name
    }
}

fn ends_with_font_suffix(cs: &[char], first: char) -> (b: bool)
    ensures
        b == has_suffix(cs@, seq!['.', first, 'l', 'f']),
{
    let n = cs.len();
    if n >= 4 && cs[n - 4] == '.' && cs[n - 3] == first && cs[n - 2] == 'l' && cs[n - 1] == 'f' {
        assert(cs@.skip(n - 4) =~= seq!['.', first, 'l', 'f']);
        true
    } else {
        proof {
            if has_suffix(cs@, seq!['.', first, 'l', 'f']) {
                let t = cs@.skip(n - 4);
                assert(t[0] == '.' && t[1] == first && t[2] == 'l' && t[3] == 'f');
            }
        }
        false
    }
}

/// Strip the ".flf" or ".tlf" suffix of a font name.
pub fn strip_font_suffix(name: &str) -> (r: &str)
    ensures
        r@ == font_base_name(name@),
{
    let cs = str_to_chars(name);
    if ends_with_font_suffix(cs.as_slice(), 'f') || ends_with_font_suffix(cs.as_slice(), 't') {
        name.substring_char(0, cs.len() - 4)
    } else {
        name
    }
}


/* Tokens and lines */

/// Code `next` continues the token that begins with `first`: both are whitespace or both are
/// not, and whitespace tokens are either all spaces or have no space.
pub open spec fn same_code_token(first: i32, next: i32) -> bool {
    ws_code(next) == ws_code(first) && !(ws_code(first) && (next == 32) != (first == 32))
}

/// Character `next` continues the token that begins with `first`: both are whitespace or
/// both are not, and a whitespace token goes on only with spaces.
pub open spec fn same_char_token(first: char, next: char) -> bool {
    is_ws(next) == is_ws(first) && !(is_ws(first) && next != ' ')
}

/// The end of the token of `codes` that begins at `start`, looking from `j` on.
pub open spec fn code_token_end(codes: Seq<i32>, start: int, j: int) -> int
    decreases codes.len() - j,
{
    if 0 <= start < codes.len() && start < j < codes.len() && same_code_token(codes[start], codes[j]) {
        code_token_end(codes, start, j + 1)
    } else {
        j
    }
}

/// The end of the token of `s` that begins at `start`, looking from `j` on.
pub open spec fn char_token_end(s: Seq<char>, start: int, j: int) -> int
    decreases s.len() - j,
{
    if 0 <= start < s.len() && start < j < s.len() && same_char_token(s[start], s[j]) {
        char_token_end(s, start, j + 1)
    } else {
        j
    }
}

/// A token ends after its start and within the codes.
pub proof fn lemma_code_token_end(codes: Seq<i32>, start: int, j: int)
    ensures
        code_token_end(codes, start, j) >= j,
        j <= codes.len() ==> code_token_end(codes, start, j) <= codes.len(),
    decreases codes.len() - j,
{
    if 0 <= start < codes.len() && start < j < codes.len() && same_code_token(codes[start], codes[j]) {
        lemma_code_token_end(codes, start, j + 1);
    }
}

/// A token ends after its start and within the characters.
pub proof fn lemma_char_token_end(s: Seq<char>, start: int, j: int)
    ensures
        char_token_end(s, start, j) >= j,
        j <= s.len() ==> char_token_end(s, start, j) <= s.len(),
    decreases s.len() - j,
{
    if 0 <= start < s.len() && start < j < s.len() && same_char_token(s[start], s[j]) {
        lemma_char_token_end(s, start, j + 1);
    }
}

/// The tokens of `codes` from `start` on: runs of non-whitespace codes, runs of spaces and
/// runs of other whitespace codes.
pub open spec fn code_tokens(codes: Seq<i32>, start: int) -> Seq<Seq<i32>>
    decreases codes.len() - start,
{
    if start < 0 || start >= codes.len() {
        Seq::empty()
    } else {
        let e = code_token_end(codes, start, start + 1);
        proof {
            lemma_code_token_end(codes, start, start + 1);
        }
        seq![codes.subrange(start, e)] + code_tokens(codes, e)
    }
}

/// The tokens of `s` from `start` on, as codes: runs of non-whitespace characters, and
/// whitespace characters each followed by the spaces after it.
pub open spec fn char_tokens(s: Seq<char>, start: int) -> Seq<Seq<i32>>
    decreases s.len() - start,
{
    if start < 0 || start >= s.len() {
        Seq::empty()
    } else {
        let e = char_token_end(s, start, start + 1);
        proof {
            lemma_char_token_end(s, start, start + 1);
        }
        seq![codes_of(s.subrange(start, e))] + char_tokens(s, e)
    }
}

/// Wrapping each part in turn.
pub open spec fn wrap_all_model(
    cfg: crate::smusher::SmushConfig,
    width: int,
    align: Align,
    m: WrapModel,
    parts: Seq<Seq<i32>>,
) -> (WrapModel, Seq<Seq<Seq<char>>>)
    decreases parts.len(),
{
    if parts.len() == 0 {
        (m, Seq::empty())
    } else {
        let (m1, o1) = wrap_codes_model(cfg, width, align, m, parts[0]);
        let (m2, o2) = wrap_all_model(cfg, width, align, m1, parts.drop_first());
        (m2, o1 + o2)
    }
}

/// Split `codes` into tokens.
pub fn tokenize_codes(codes: &[i32]) -> (tokens: Vec<Vec<i32>>)
    ensures
        crate::wrapper::int_views(tokens@) == code_tokens(codes@, 0),
{
    let mut tokens: Vec<Vec<i32>> = Vec::new();
    let mut start: usize = 0;
    assert(crate::wrapper::int_views(tokens@) =~= Seq::<Seq<i32>>::empty());
    while start < codes.len()
        invariant
            start <= codes@.len(),
            code_tokens(codes@, 0) == crate::wrapper::int_views(tokens@) + code_tokens(codes@, start as int),
        decreases codes@.len() - start,
    {
        let first = codes[start];
        let mut j = start + 1;
        while j < codes.len() && is_ws_code(codes[j]) == is_ws_code(first) && !(is_ws_code(first)
            && (codes[j] == 32) != (first == 32))
            invariant
                start < j <= codes@.len(),
                first == codes@[start as int],
                code_token_end(codes@, start as int, start + 1) == code_token_end(codes@, start as int, j as int),
            decreases codes@.len() - j,
        {
            j = j + 1;
        }
        let mut t: Vec<i32> = Vec::new();
        let mut k = start;
        while k < j
            invariant
                start <= k <= j,
                j <= codes@.len(),
                t@ == codes@.subrange(start as int, k as int),
            decreases j - k,
        {
            t.push(codes[k]);
            k = k + 1;
            assert(t@ =~= codes@.subrange(start as int, k as int));
        }
        let ghost before = crate::wrapper::int_views(tokens@);
        tokens.push(t);
        assert(crate::wrapper::int_views(tokens@) =~= before.push(t@));
        assert(before + (seq![t@] + code_tokens(codes@, j as int)) =~= crate::wrapper::int_views(tokens@)
            + code_tokens(codes@, j as int));
        start = j;
    }
    assert(crate::wrapper::int_views(tokens@) + Seq::<Seq<i32>>::empty() =~= crate::wrapper::int_views(
        tokens@,
    ));
    tokens
}

/// Split the characters of `s` into tokens, as codes.
pub fn tokenize_str(s: &str) -> (tokens: Vec<Vec<i32>>)
    ensures
        crate::wrapper::int_views(tokens@) == char_tokens(s@, 0),
{
    let cs = str_to_chars(s);
    let mut tokens: Vec<Vec<i32>> = Vec::new();
    let mut start: usize = 0;
    assert(crate::wrapper::int_views(tokens@) =~= Seq::<Seq<i32>>::empty());
    while start < cs.len()
        invariant
            start <= cs@.len(),
            cs@ == s@,
            char_tokens(s@, 0) == crate::wrapper::int_views(tokens@) + char_tokens(s@, start as int),
        decreases cs@.len() - start,
    {
        let first = cs[start];
        let mut j = start + 1;
        while j < cs.len() && is_whitespace(cs[j]) == is_whitespace(first) && !(is_whitespace(first)
            && cs[j] != ' ')
            invariant
                start < j <= cs@.len(),
                cs@ == s@,
                first == s@[start as int],
                char_token_end(s@, start as int, start + 1) == char_token_end(s@, start as int, j as int),
            decreases cs@.len() - j,
        {
            j = j + 1;
        }
        let mut t: Vec<i32> = Vec::new();
        let mut k = start;
        while k < j
            invariant
                start <= k <= j,
                j <= cs@.len(),
                cs@ == s@,
                t@ == codes_of(s@.subrange(start as int, k as int)),
            decreases j - k,
        {
            t.push(cs[k] as i32);
            k = k + 1;
            assert(t@ =~= codes_of(s@.subrange(start as int, k as int)));
        }
        let ghost before = crate::wrapper::int_views(tokens@);
        tokens.push(t);
        assert(crate::wrapper::int_views(tokens@) =~= before.push(t@));
        assert(before + (seq![t@] + char_tokens(s@, j as int)) =~= crate::wrapper::int_views(tokens@)
            + char_tokens(s@, j as int));
        start = j;
    }
    assert(crate::wrapper::int_views(tokens@) + Seq::<Seq<i32>>::empty() =~= crate::wrapper::int_views(
        tokens@,
    ));
    tokens
}

/// Wrap each token in turn: the blocks flushed on the way.
pub fn write_tokens(wr: &mut Wrapper, tokens: &Vec<Vec<i32>>) -> (out: Vec<Vec<String>>)
    ensures
        old(wr).same_setup(final(wr)),
        (final(wr).model(), blocks(out@)) == wrap_all_model(
            old(wr).config(),
            old(wr).spec_width() as int,
            old(wr).spec_align(),
            old(wr).model(),
            crate::wrapper::int_views(tokens@),
        ),
{
    let ghost parts = crate::wrapper::int_views(tokens@);
    let ghost cfg = wr.config();
    let ghost w = wr.spec_width() as int;
    let ghost a = wr.spec_align();
    let ghost total = wrap_all_model(cfg, w, a, wr.model(), parts);
    let mut out: Vec<Vec<String>> = Vec::new();
    let mut i: usize = 0;
    assert(parts.skip(0) =~= parts);
    assert(blocks(out@) + total.1 =~= total.1);
    while i < tokens.len()
        invariant
            i <= tokens@.len(),
            parts == crate::wrapper::int_views(tokens@),
            old(wr).same_setup(wr),
            cfg == old(wr).config(),
            w == old(wr).spec_width() as int,
            a == old(wr).spec_align(),
            total == wrap_all_model(cfg, w, a, old(wr).model(), parts),
            total.0 == wrap_all_model(cfg, w, a, wr.model(), parts.skip(i as int)).0,
            total.1 == blocks(out@) + wrap_all_model(cfg, w, a, wr.model(), parts.skip(i as int)).1,
        decreases tokens@.len() - i,
    {
        let ghost rest = parts.skip(i as int);
        assert(rest[0] == tokens@[i as int]@);
        assert(rest.drop_first() =~= parts.skip(i + 1));
        let ghost o = blocks(out@);
        let flushed = wr.wrap_codes(tokens[i].as_slice());
        let mut k: usize = 0;
        while k < flushed.len()
            invariant
                k <= flushed@.len(),
                blocks(out@) == o + blocks(flushed@).take(k as int),
            decreases flushed@.len() - k,
        {
            let b = flushed[k].clone();
            let ghost before = out@;
            out.push(b);
            assert(blocks(out@) =~= o + blocks(flushed@).take(k + 1)) by {
                assert(blocks(out@) =~= blocks(before).push(string_views_of(b)));
                assert(b@ == flushed@[k as int]@);
            }
            k = k + 1;
        }
        assert(blocks(flushed@).take(k as int) =~= blocks(flushed@));
        let ghost next = wrap_all_model(cfg, w, a, wr.model(), parts.skip(i + 1));
        assert(o + (blocks(flushed@) + next.1) =~= blocks(out@) + next.1);
        i = i + 1;
    }
    assert(blocks(out@) + Seq::<Seq<Seq<char>>>::empty() =~= blocks(out@));
    out
}

/// The lines of a block.
pub open spec fn string_views_of(b: Vec<String>) -> Seq<Seq<char>> {
    crate::figfont::string_views(b@)
}


/// Every code is a space, tab, newline or carriage return.
pub open spec fn blank_codes(codes: Seq<i32>) -> bool {
    forall|i: int| 0 <= i < codes.len() ==> ws_code(#[trigger] codes[i])
}

/// One line in normal mode: the wrapper is cleared, the tokens are wrapped, and what is
/// left is flushed too (if anything).
pub open spec fn line_model(
    cfg: crate::smusher::SmushConfig,
    width: int,
    align: Align,
    tokens: Seq<Seq<i32>>,
) -> (WrapModel, Seq<Seq<Seq<char>>>) {
    let (m1, o1) = wrap_all_model(cfg, width, align, clear_model(cfg), tokens);
    if max_len(m1.st.rows) != 0 {
        let (m2, lines) = get_model(cfg, width, align, m1);
        (m2, o1.push(lines))
    } else {
        (m1, o1)
    }
}

/// One line in paragraph mode: a blank line or one that begins with a space ends the
/// paragraph so far; otherwise it continues it after a space. Then its tokens are wrapped
/// (unless it is blank).
pub open spec fn paragraph_model(
    cfg: crate::smusher::SmushConfig,
    width: int,
    align: Align,
    m: WrapModel,
    codes: Seq<i32>,
    tokens: Seq<Seq<i32>>,
) -> (WrapModel, Seq<Seq<Seq<char>>>) {
    let (m1, o1) = if max_len(m.st.rows) != 0 {
        if blank_codes(codes) || (codes.len() > 0 && codes[0] == 32) {
            let (m2, lines) = flush_model(cfg, width, align, m);
            (m2, seq![lines])
        } else {
            wrap_codes_model(cfg, width, align, m, seq![32i32])
        }
    } else {
        (m, Seq::empty())
    };
    if !blank_codes(codes) {
        let (m3, o3) = wrap_all_model(cfg, width, align, m1, tokens);
        (m3, o1 + o3)
    } else {
        (m1, o1)
    }
}

/// The end of the input in paragraph mode: what is left is flushed, with a space added when
/// the input ended with a line break.
pub open spec fn paragraph_end_model(
    cfg: crate::smusher::SmushConfig,
    width: int,
    align: Align,
    m: WrapModel,
    trailing_newline: bool,
) -> (WrapModel, Seq<Seq<Seq<char>>>) {
    if max_len(m.st.rows) == 0 {
        (m, Seq::empty())
    } else {
        let m1 = if trailing_newline {
            push_codes_model(cfg, width, m, seq![32i32]).0
        } else {
            m
        };
        let (m2, lines) = get_model(cfg, width, align, m1);
        (m2, seq![lines])
    }
}

fn write_line_tokens(wr: &mut Wrapper, tokens: &Vec<Vec<i32>>) -> (out: Vec<Vec<String>>)
    ensures
        old(wr).same_setup(final(wr)),
        (final(wr).model(), blocks(out@)) == line_model(
            old(wr).config(),
            old(wr).spec_width() as int,
            old(wr).spec_align(),
            crate::wrapper::int_views(tokens@),
        ),
{
    wr.clear();
    let mut out = write_tokens(wr, tokens);
    if !wr.is_empty() {
        let lines = wr.get();
        let ghost before = out@;
        out.push(lines);
        assert(blocks(out@) =~= blocks(before).push(crate::figfont::string_views(lines@)));
    }
    out
}

/// Render one line of codes in normal mode: the blocks to print.
pub fn write_line_codes(wr: &mut Wrapper, codes: &[i32]) -> (out: Vec<Vec<String>>)
    ensures
        old(wr).same_setup(final(wr)),
        (final(wr).model(), blocks(out@)) == line_model(
            old(wr).config(),
            old(wr).spec_width() as int,
            old(wr).spec_align(),
            code_tokens(codes@, 0),
        ),
{
    let tokens = tokenize_codes(codes);
    write_line_tokens(wr, &tokens)
}

/// Render one line of text in normal mode: the blocks to print.
pub fn write_line(wr: &mut Wrapper, s: &str) -> (out: Vec<Vec<String>>)
    ensures
        old(wr).same_setup(final(wr)),
        (final(wr).model(), blocks(out@)) == line_model(
            old(wr).config(),
            old(wr).spec_width() as int,
            old(wr).spec_align(),
            char_tokens(s@, 0),
        ),
{
    let tokens = tokenize_str(s);
    write_line_tokens(wr, &tokens)
}

fn write_paragraph_tokens(wr: &mut Wrapper, codes: &[i32], tokens: &Vec<Vec<i32>>) -> (out: Vec<
    Vec<String>,
>)
    ensures
        old(wr).same_setup(final(wr)),
        (final(wr).model(), blocks(out@)) == paragraph_model(
            old(wr).config(),
            old(wr).spec_width() as int,
            old(wr).spec_align(),
            old(wr).model(),
            codes@,
            crate::wrapper::int_views(tokens@),
        ),
{
    let blank = is_blank_codes(codes);
    let mut out: Vec<Vec<String>> = Vec::new();
    assert(blocks(out@) =~= Seq::<Seq<Seq<char>>>::empty());
    if !wr.is_empty() {
        if blank || (codes.len() > 0 && codes[0] == 32) {
            let lines = wr.get();
            out.push(lines);
            wr.clear();
            assert(blocks(out@) =~= seq![crate::figfont::string_views(lines@)]);
        } else {
            let space = [32i32];
            assert(space@ =~= seq![32i32]);
            out = wr.wrap_codes(&space);
        }
    }
    if !blank {
        let ghost o1 = blocks(out@);
        let more = write_tokens(wr, tokens);
        let mut k: usize = 0;
        while k < more.len()
            invariant
                k <= more@.len(),
                blocks(out@) == o1 + blocks(more@).take(k as int),
            decreases more@.len() - k,
        {
            let b = more[k].clone();
            let ghost before = out@;
            out.push(b);
            assert(blocks(out@) =~= o1 + blocks(more@).take(k + 1)) by {
                assert(blocks(out@) =~= blocks(before).push(string_views_of(b)));
                assert(b@ == more@[k as int]@);
            }
            k = k + 1;
        }
        assert(blocks(more@).take(k as int) =~= blocks(more@));
    }
    out
}

/// Render one line of codes in paragraph mode: the blocks to print.
pub fn write_paragraph_codes(wr: &mut Wrapper, codes: &[i32]) -> (out: Vec<Vec<String>>)
    ensures
        old(wr).same_setup(final(wr)),
        (final(wr).model(), blocks(out@)) == paragraph_model(
            old(wr).config(),
            old(wr).spec_width() as int,
            old(wr).spec_align(),
            old(wr).model(),
            codes@,
            code_tokens(codes@, 0),
        ),
{
    let tokens = tokenize_codes(codes);
    write_paragraph_tokens(wr, codes, &tokens)
}

/// Render one line of text in paragraph mode: the blocks to print.
pub fn write_paragraph(wr: &mut Wrapper, s: &str) -> (out: Vec<Vec<String>>)
    ensures
        old(wr).same_setup(final(wr)),
        (final(wr).model(), blocks(out@)) == paragraph_model(
            old(wr).config(),
            old(wr).spec_width() as int,
            old(wr).spec_align(),
            old(wr).model(),
            codes_of(s@),
            char_tokens(s@, 0),
        ),
{
    let codes = codes_from_str(s);
    let tokens = tokenize_str(s);
    write_paragraph_tokens(wr, codes.as_slice(), &tokens)
}

/// Whether every character is a space, tab, newline or carriage return.
pub fn is_blank_str(s: &str) -> (b: bool)
    ensures
        b == blank_codes(codes_of(s@)),
{
    let codes = codes_from_str(s);
    is_blank_codes(codes.as_slice())
}

/// At the end of the input in paragraph mode: the blocks to print.
pub fn flush_paragraph_eof(wr: &mut Wrapper, has_trailing_newline: bool) -> (out: Vec<Vec<String>>)
    ensures
        old(wr).same_setup(final(wr)),
        (final(wr).model(), blocks(out@)) == paragraph_end_model(
            old(wr).config(),
            old(wr).spec_width() as int,
            old(wr).spec_align(),
            old(wr).model(),
            has_trailing_newline,
        ),
{
    let mut out: Vec<Vec<String>> = Vec::new();
    if wr.is_empty() {
        assert(blocks(out@) =~= Seq::<Seq<Seq<char>>>::empty());
        return out;
    }
    if has_trailing_newline {
        let space = [32i32];
        assert(space@ =~= seq![32i32]);
        let _ = wr.push_codes(&space);
    }
    let lines = wr.get();
    out.push(lines);
    assert(blocks(out@) =~= seq![crate::figfont::string_views(lines@)]);
    out
}

/* Options */

/// The print direction the options ask for.
#[derive(Debug, Clone, Copy, PartialEq, Eq, Structural)]
pub enum PrintDir {
    /// Force left-to-right (-L).
    Ltr,
    /// Force right-to-left (-R).
    Rtl,
    /// Use the font's default (-X, the default).
    FontDefault,
}

/// The justification the options ask for.
#[derive(Debug, Clone, Copy, PartialEq, Eq, Structural)]
pub enum Justify {
    /// Flush left (-l).
    Left,
    /// Flush right (-r).
    Right,
    /// Center (-c).
    Center,
    /// Follow the print direction: left for left-to-right, right for right-to-left (-x).
    Default,
}

/// Whether to print right to left.
pub fn resolve_direction(dir: PrintDir, font_rtl: bool) -> (rtl: bool)
    ensures
        rtl == match dir {
            PrintDir::Ltr => false,
            PrintDir::Rtl => true,
            PrintDir::FontDefault => font_rtl,
        },
{
    match dir {
        PrintDir::Ltr => false,
        PrintDir::Rtl => true,
        PrintDir::FontDefault => font_rtl,
    }
}

/// The alignment for a justification and print direction.
pub fn resolve_align(justify: Justify, rtl: bool) -> (a: Align)
    ensures
        a == match justify {
            Justify::Left => Align::Left,
            Justify::Right => Align::Right,
            Justify::Center => Align::Center,
            Justify::Default => if rtl {
                Align::Right
            } else {
                Align::Left
            },
        },
{
    match justify {
        Justify::Left => Align::Left,
        Justify::Right => Align::Right,
        Justify::Center => Align::Center,
        Justify::Default => if rtl {
            Align::Right
        } else {
            Align::Left
        },
    }
}

/// The layout mode of a "-m" value: 0 kerning, -1 full width, -2 the font's own smushing,
/// a positive value smushing with those rules; other values are invalid.
pub open spec fn mode_of_value(m: i32) -> Option<LayoutMode> {
    if m == 0 {
        Some(LayoutMode::Kern)
    } else if m == -1 {
        Some(LayoutMode::FullWidth)
    } else if m == -2 {
        Some(LayoutMode::SmushDefault)
    } else if m >= 1 {
        Some(LayoutMode::Custom(m as u32))
    } else {
        None
    }
}

/// The layout mode from a "-m" value (at argument `value_index`) and the last layout flag
/// (at argument `flag_index`): the one given later wins; an invalid value is an error (the
/// value itself).
pub fn resolve_layout_mode(
    value: Option<i32>,
    value_index: Option<usize>,
    flag: Option<LayoutMode>,
    flag_index: Option<usize>,
) -> (r: Result<Option<LayoutMode>, i32>)
    ensures
        match value {
            None => r == Ok::<Option<LayoutMode>, i32>(flag),
            Some(m) => match mode_of_value(m) {
                None => r == Err::<Option<LayoutMode>, i32>(m),
                Some(vm) => r == Ok::<Option<LayoutMode>, i32>(
                    if value_index is Some && flag_index is Some && value_index.unwrap()
                        <= flag_index.unwrap() && flag is Some {
                        flag
                    } else {
                        Some(vm)
                    },
                ),
            },
        },
{
    match value {
        None => Ok(flag),
        Some(m) => {
            let resolved = if m == 0 {
                LayoutMode::Kern
            } else if m == -1 {
                LayoutMode::FullWidth
            } else if m == -2 {
                LayoutMode::SmushDefault
            } else if m >= 1 {
                LayoutMode::Custom(m as u32)
            } else {
                return Err(m);
            };
            match (value_index, flag_index) {
                (Some(mi), Some(fi)) => {
                    if mi > fi {
                        Ok(Some(resolved))
                    } else {
                        match flag {
                            Some(f) => Ok(Some(f)),
                            None => Ok(Some(resolved)),
                        }
                    }
                },
                _ => Ok(Some(resolved)),
            }
        },
    }
}


fn with_suffix(cs: &Vec<char>, a: char, b: char, c: char) -> (r: String)
    ensures
        r@ == cs@ + seq!['.', a, b, c],
{
    let mut v: Vec<char> = Vec::new();
    let mut i: usize = 0;
    while i < cs.len()
        invariant
            i <= cs@.len(),
            v@ == cs@.take(i as int),
        decreases cs@.len() - i,
    {
        v.push(cs[i]);
        i = i + 1;
        assert(v@ =~= cs@.take(i as int));
    }
    v.push('.');
    v.push(a);
    v.push(b);
    v.push(c);
    assert(v@ =~= cs@ + seq!['.', a, b, c]);
    chars_to_string(v.as_slice())
}

/// The file names to look for a font under: the name itself if it ends with ".flf" or
/// ".tlf", else the name with each of these suffixes.
pub fn font_candidates(name: &str) -> (r: Vec<String>)
    ensures
        has_suffix(name@, seq!['.', 'f', 'l', 'f']) || has_suffix(name@, seq!['.', 't', 'l', 'f'])
            ==> r@.len() == 1 && r@[0]@ == name@,
        !(has_suffix(name@, seq!['.', 'f', 'l', 'f']) || has_suffix(name@, seq!['.', 't', 'l', 'f']))
            ==> r@.len() == 2 && r@[0]@ == name@ + seq!['.', 'f', 'l', 'f'] && r@[1]@ == name@
            + seq!['.', 't', 'l', 'f'],
{
    let cs = str_to_chars(name);
    let mut r: Vec<String> = Vec::new();
    if ends_with_font_suffix(cs.as_slice(), 'f') || ends_with_font_suffix(cs.as_slice(), 't') {
        r.push(name.to_owned());
    } else {
        r.push(with_suffix(&cs, 'f', 'l', 'f'));
        r.push(with_suffix(&cs, 't', 'l', 'f'));
    }
    r
}

/// The file name of a control file: the name with ".flc" added unless it ends with it.
pub fn control_file_name(name: &str) -> (r: String)
    ensures
        r@ == if has_suffix(name@, seq!['.', 'f', 'l', 'c']) {
            name@
        } else {
            name@ + seq!['.', 'f', 'l', 'c']
        },
{
    let cs = str_to_chars(name);
    let n = cs.len();
    if n >= 4 && cs[n - 4] == '.' && cs[n - 3] == 'f' && cs[n - 2] == 'l' && cs[n - 1] == 'c' {
        assert(cs@.skip(n - 4) =~= seq!['.', 'f', 'l', 'c']);
        name.to_owned()
    } else {
        proof {
            if has_suffix(name@, seq!['.', 'f', 'l', 'c']) {
                let t = cs@.skip(n - 4);
                assert(t[0] == '.' && t[1] == 'f' && t[2] == 'l' && t[3] == 'c');
            }
        }
        with_suffix(&cs, 'f', 'l', 'c')
    }
}

/// A line-ending byte: newline or carriage return.
pub open spec fn is_line_end_byte(b: u8) -> bool {
    b == 10 || b == 13
}

/// A line-ending character: newline or carriage return.
pub open spec fn is_line_end_char(c: char) -> bool {
    c == '\n' || c == '\r'
}

/// `body` is `line` without the run of line-ending bytes at its end.
pub open spec fn strips_line_end_bytes(line: Seq<u8>, body: Seq<u8>) -> bool {
    &&& body.len() <= line.len()
    &&& body == line.take(body.len() as int)
    &&& forall|i: int| body.len() <= i < line.len() ==> is_line_end_byte(#[trigger] line[i])
    &&& (body.len() == 0 || !is_line_end_byte(body.last()))
}

/// `body` is `line` without the run of line-ending characters at its end.
pub open spec fn strips_line_end_chars(line: Seq<char>, body: Seq<char>) -> bool {
    &&& body.len() <= line.len()
    &&& body == line.take(body.len() as int)
    &&& forall|i: int| body.len() <= i < line.len() ==> is_line_end_char(#[trigger] line[i])
    &&& (body.len() == 0 || !is_line_end_char(body.last()))
}

/// A line of input as read (ending with its newline, if any) split into its text, without the
/// newlines and carriage returns at its end, and whether it had a line ending.
pub fn strip_line_end(line: &[u8]) -> (r: (Vec<u8>, bool))
    ensures
        strips_line_end_bytes(line@, r.0@),
        r.1 == (line@.len() > 0 && is_line_end_byte(line@.last())),
{
    let mut k: usize = line.len();
    while k > 0 && (line[k - 1] == 10 || line[k - 1] == 13)
        invariant
            k <= line@.len(),
            forall|i: int| k <= i < line@.len() ==> is_line_end_byte(#[trigger] line@[i]),
        decreases k,
    {
        k = k - 1;
    }
    let body = slice_to_vec(slice_subrange(line, 0, k));
    assert(body@ =~= line@.take(k as int));
    let ended = line.len() > 0 && (line[line.len() - 1] == 10 || line[line.len() - 1] == 13);
    (body, ended)
}

/// A line of text as read (ending with its newline, if any) split into its text, without the
/// newlines and carriage returns at its end, and whether it had a line ending.
pub fn strip_line_end_str(line: &str) -> (r: (String, bool))
    ensures
        strips_line_end_chars(line@, r.0@),
        r.1 == (line@.len() > 0 && is_line_end_char(line@.last())),
{
    let cs = str_to_chars(line);
    let mut k: usize = cs.len();
    while k > 0 && (cs[k - 1] == '\n' || cs[k - 1] == '\r')
        invariant
            k <= cs@.len(),
            cs@ == line@,
            forall|i: int| k <= i < cs@.len() ==> is_line_end_char(#[trigger] cs@[i]),
        decreases k,
    {
        k = k - 1;
    }
    let body = chars_to_string(slice_subrange(cs.as_slice(), 0, k));
    assert(body@ =~= line@.take(k as int));
    let ended = cs.len() > 0 && (cs[cs.len() - 1] == '\n' || cs[cs.len() - 1] == '\r');
    (body, ended)
}

} // verus!
