use vstd::prelude::*;
use crate::archive::{decompress_zip, is_zip, spec_is_zip, zip_first_entry, MAX_DECOMPRESSED_SIZE};
use std::collections::HashMap;
use crate::Error;
use crate::control::decoder::is_scalar_value;
use crate::flc::{char_len, starts_0x};
use crate::text::{
    byte_views, chars_to_string, lines_of, parse_int, parse_radix, split_lines,
    split_whitespace, split_ws, str_to_chars, trim_end, trim_end_char, trim_end_char_len,
    trim_end_len, trim_start, trim_start_pos, utf8_to_chars, views,
};
use crate::text::char_from_code;
use vstd::slice::slice_subrange;
use vstd::utf8::{decode_utf8, valid_utf8};

verus! {

broadcast use vstd::std_specs::hash::group_hash_axioms;

pub const SMUSH_EQUAL: u32 = 1;
pub const SMUSH_UNDERLINE: u32 = 2;
pub const SMUSH_HIERARCHY: u32 = 4;
pub const SMUSH_PAIR: u32 = 8;
pub const SMUSH_BIGX: u32 = 16;
pub const SMUSH_HARDBLANK: u32 = 32;
pub const SMUSH_KERN: u32 = 64;
pub const SMUSH_ENABLE: u32 = 128;

/// The contents of each string.
pub open spec fn string_views(v: Seq<String>) -> Seq<Seq<char>> {
    v.map_values(|s: String| s@)
}

/// `n` empty rows.
pub open spec fn empty_rows(n: int) -> Seq<Seq<char>> {
    Seq::new(n as nat, |i: int| Seq::<char>::empty())
}

/// A FIGcharacter: the rows of sub-characters that draw one character of a font.
#[derive(Debug)]
pub struct FIGchar {
    lines: Vec<String>,
}

impl FIGchar {
    /// The rows of this character.
    pub closed spec fn rows(&self) -> Seq<Seq<char>> {
        string_views(self.lines@)
    }

    fn new() -> (c: Self)
        ensures
            c.rows() == Seq::<Seq<char>>::empty(),
    {
        let c = FIGchar { lines: Vec::new() };
        assert(c.rows() =~= Seq::<Seq<char>>::empty());
        c
    }

    fn with_lines(num: usize) -> (c: Self)
        ensures
            c.rows() == empty_rows(num as int),
    {
        let mut lines: Vec<String> = Vec::new();
        let mut i: usize = 0;
        while i < num
            invariant
                i <= num,
                string_views(lines@) == empty_rows(i as int),
            decreases num - i,
        {
            let ghost before = lines@;
            let e = String::new();
            lines.push(e);
            assert(string_views(lines@) =~= string_views(before).push(e@));
            assert(empty_rows(i + 1) =~= empty_rows(i as int).push(Seq::<char>::empty()));
            i = i + 1;
        }
        FIGchar { lines }
    }

    /// Create a FIGchar from the given lines, which must all have the same number of
    /// characters.
    pub fn from_lines(lines: &[&str]) -> (r: Result<Self, Error>)
        ensures
            match r {
                Ok(c) => {
                    &&& c.rows().len() == lines@.len()
                    &&& forall|i: int| 0 <= i < lines@.len() ==> #[trigger] c.rows()[i] == lines@[i]@
                    &&& forall|i: int| 0 <= i < lines@.len() ==> #[trigger] lines@[i]@.len()
                        == lines@[0]@.len()
                },
                Err(e) => {
                    &&& e == Error::FontFormat("invalid character width")
                    &&& exists|i: int| 0 <= i < lines@.len() && #[trigger] lines@[i]@.len() != lines@[0]@.len()
                },
            },
    {
        if lines.len() == 0 {
            return Ok(FIGchar::new());
        }
        let mut out: Vec<String> = Vec::new();
        let width = lines[0].unicode_len();
        let mut i: usize = 0;
        while i < lines.len()
            invariant
                i <= lines@.len(),
                lines@.len() > 0,
                width == lines@[0]@.len(),
                out@.len() == i,
                forall|k: int| 0 <= k < i ==> #[trigger] string_views(out@)[k] == lines@[k]@,
                forall|k: int| 0 <= k < i ==> #[trigger] lines@[k]@.len() == lines@[0]@.len(),
            decreases lines@.len() - i,
        {
            let line: &str = lines[i];
            if line.unicode_len() != width {
                return Err(Error::FontFormat("invalid character width"));
            }
            let ghost before = out@;
            out.push(line.to_owned());
            assert forall|k: int| 0 <= k < i + 1 implies #[trigger] string_views(out@)[k]
                == lines@[k]@ by {
                if k < i {
                    assert(out@[k] == before[k]);
                    assert(string_views(before)[k] == lines@[k]@);
                }
            }
            i = i + 1;
        }
        Ok(FIGchar { lines: out })
    }

    /// Retrieve the lines from this FIGchar.
    pub fn get(&self) -> (r: &[String])
        ensures
            string_views(r@) == self.rows(),
    {
        self.lines.as_slice()
    }

    /// The rows of the character, each followed by a newline.
    pub fn to_string(&self) -> (s: String)
        ensures
            s@ == rows_text(self.rows()),
    {
        let mut out: Vec<char> = Vec::new();
        let mut i: usize = 0;
        while i < self.lines.len()
            invariant
                i <= self.lines@.len(),
                out@ == rows_text(self.rows().take(i as int)),
            decreases self.lines@.len() - i,
        {
            let row = str_to_chars(self.lines[i].as_str());
            let ghost before = out@;
            let mut k: usize = 0;
            while k < row.len()
                invariant
                    k <= row@.len(),
                    out@ == before + row@.take(k as int),
                decreases row@.len() - k,
            {
                out.push(row[k]);
                k = k + 1;
                assert(out@ =~= before + row@.take(k as int));
            }
            out.push('\n');
            proof {
                assert(row@.take(k as int) =~= row@);
                assert(self.rows()[i as int] == row@);
                assert(self.rows().take(i + 1).drop_last() =~= self.rows().take(i as int));
                assert(self.rows().take(i + 1).last() == row@);
            }
            i = i + 1;
        }
        assert(self.rows().take(i as int) =~= self.rows());
        chars_to_string(out.as_slice())
    }
}

/// Rows joined into text, each followed by a newline.
pub open spec fn rows_text(rows: Seq<Seq<char>>) -> Seq<char>
    decreases rows.len(),
{
    if rows.len() == 0 {
        Seq::empty()
    } else {
        rows_text(rows.drop_last()) + rows.last().push('\n')
    }
}


/// The number of bytes of the UTF-8 encoding of `s`.
pub open spec fn byte_len(s: Seq<char>) -> int
    decreases s.len(),
{
    if s.len() == 0 {
        0
    } else {
        byte_len(s.drop_last()) + char_len(s.last())
    }
}

/// The parameters of a font's header line.
#[derive(Debug, Clone, Copy, PartialEq, Eq, Structural)]
pub struct FontHeader {
    pub version: char,
    pub hardblank: char,
    pub height: usize,
    pub baseline: usize,
    pub max_length: usize,
    pub old_layout: i32,
    pub comment_lines: usize,
    pub right_to_left: bool,
    pub layout: u32,
    pub count: u32,
}

/// The signature `sig` ("flf2" or "tlf2") begins `line`.
pub open spec fn has_signature(line: Seq<char>, sig: Seq<char>) -> bool {
    line.len() >= sig.len() && line.take(sig.len() as int) == sig
}

/// The header field at word `i` as a decimal integer between `min` and `max`; a missing
/// field is a format error, one that does not parse a parse error.
pub open spec fn header_field(p: Seq<Seq<char>>, i: int, min: int, max: int) -> Result<int, Error> {
    if i >= p.len() {
        Err(Error::FontFormat("invalid font header"))
    } else {
        match parse_int(p[i], 10, min, max) {
            Some(v) => Ok(v),
            None => Err(Error::Parse),
        }
    }
}

/// What the header line gives: the signature "flf2" or "tlf2", then in its first word the
/// version and the hardblank, then height, baseline, maximum length, old layout, number of
/// comment lines, print direction, full layout and number of code-tagged characters.
pub open spec fn spec_header(line: Seq<char>) -> Result<FontHeader, Error> {
    let p = split_ws(line);
    if !has_signature(line, seq!['f', 'l', 'f', '2']) && !has_signature(
        line,
        seq!['t', 'l', 'f', '2'],
    ) {
        Err(Error::FontFormat("unsupported font format"))
    } else if p.len() == 0 || byte_len(p[0]) < 6 {
        Err(Error::FontFormat("unsupported font format"))
    } else if p[0].len() < 6 {
        Err(Error::FontFormat("invalid font header"))
    } else {
        match header_field(p, 1, 0, usize::MAX as int) {
            Err(e) => Err(e),
            Ok(height) => match header_field(p, 2, 0, usize::MAX as int) {
                Err(e) => Err(e),
                Ok(baseline) => match header_field(p, 3, 0, usize::MAX as int) {
                    Err(e) => Err(e),
                    Ok(max_length) => match header_field(p, 4, i32::MIN as int, i32::MAX as int) {
                        Err(e) => Err(e),
                        Ok(old_layout) => match header_field(p, 5, 0, usize::MAX as int) {
                            Err(e) => Err(e),
                            Ok(comment_lines) => match optional_field(p, 7, 0, u32::MAX as int) {
                                Err(e) => Err(e),
                                Ok(layout) => match optional_field(p, 8, 0, u32::MAX as int) {
                                    Err(e) => Err(e),
                                    Ok(count) => Ok(
                                        FontHeader {
                                            version: p[0][4],
                                            hardblank: p[0][5],
                                            height: height as usize,
                                            baseline: baseline as usize,
                                            max_length: max_length as usize,
                                            old_layout: old_layout as i32,
                                            comment_lines: comment_lines as usize,
                                            right_to_left: p.len() > 6 && p[6] == seq!['1'],
                                            layout: match layout {
                                                Some(l) => l as u32,
                                                None => layout_of_old(old_layout as i32),
                                            },
                                            count: match count {
                                                Some(c) => c as u32,
                                                None => 0,
                                            },
                                        },
                                    ),
                                },
                            },
                        },
                    },
                },
            },
        }
    }
}

/// An optional header field at word `i`: absent, or a decimal integer between `min` and
/// `max` (one that does not parse is a parse error).
pub open spec fn optional_field(p: Seq<Seq<char>>, i: int, min: int, max: int) -> Result<Option<int>, Error> {
    if i >= p.len() {
        Ok(None)
    } else {
        match parse_int(p[i], 10, min, max) {
            Some(v) => Ok(Some(v)),
            None => Err(Error::Parse),
        }
    }
}

/// The full layout that an old layout stands for when the header has none: kerning for 0,
/// full width for a negative value, else smushing by the rules it names.
pub open spec fn layout_of_old(old: i32) -> u32 {
    if old == 0 {
        64
    } else if old < 0 {
        0
    } else {
        ((old as u32) & 63u32) | 128u32
    }
}

/// The UTF-8 encoding of `s` has at least `n` bytes.
fn byte_len_at_least(s: &[char], n: usize) -> (r: bool)
    ensures
        r == (byte_len(s@) >= n),
{
    let mut total: usize = 0;
    let mut i: usize = 0;
    assert(s@.take(0) =~= Seq::<char>::empty());
    while i < s.len() && total < n
        invariant
            i <= s@.len(),
            total == byte_len(s@.take(i as int)),
            total <= n + 4,
            n <= usize::MAX - 4 || total <= n,
        decreases s@.len() - i,
    {
        let c = s[i];
        let cl: usize = if (c as u32) < 0x80 {
            1
        } else if (c as u32) < 0x800 {
            2
        } else if (c as u32) < 0x10000 {
            3
        } else {
            4
        };
        if cl > n - total {
            proof {
                lemma_byte_len_prefix_mono(s@, i + 1);
                assert(s@.take(i + 1).drop_last() =~= s@.take(i as int));
            }
            return true;
        }
        total = total + cl;
        assert(s@.take(i + 1).drop_last() =~= s@.take(i as int));
        i = i + 1;
    }
    proof {
        if total >= n {
            lemma_byte_len_prefix_mono(s@, i as int);
        } else {
            assert(s@.take(i as int) =~= s@);
        }
    }
    total >= n
}

proof fn lemma_byte_len_prefix_mono(s: Seq<char>, k: int)
    requires
        0 <= k <= s.len(),
    ensures
        byte_len(s.take(k)) <= byte_len(s),
    decreases s.len() - k,
{
    if k < s.len() {
        lemma_byte_len_prefix_mono(s, k + 1);
        assert(s.take(k + 1).drop_last() =~= s.take(k));
    } else {
        assert(s.take(k) =~= s);
    }
}

/// A header field: a decimal integer between `min` and `max` in word `i`.
fn parse_header_field(p: &Vec<Vec<char>>, i: usize, min: i128, max: i128) -> (r: Result<
    i128,
    Error,
>)
    requires
        -0x1_0000_0000_0000_0000 <= min <= 0 <= max <= 0x1_0000_0000_0000_0000,
    ensures
        match header_field(views(p@), i as int, min as int, max as int) {
            Ok(v) => r == Ok::<i128, Error>(v as i128),
            Err(e) => r == Err::<i128, Error>(e),
        },
{
    if i >= p.len() {
        return Err(Error::FontFormat("invalid font header"));
    }
    assert(views(p@)[i as int] == p@[i as int]@);
    match parse_radix(p[i].as_slice(), 10, min, max) {
        Some(v) => Ok(v),
        None => Err(Error::Parse),
    }
}

fn starts_with_sig(line: &[char], a: char) -> (r: bool)
    ensures
        r == has_signature(line@, seq![a, 'l', 'f', '2']),
{
    if line.len() >= 4 && line[0] == a && line[1] == 'l' && line[2] == 'f' && line[3] == '2' {
        assert(line@.take(4) =~= seq![a, 'l', 'f', '2']);
        true
    } else {
        proof {
            if has_signature(line@, seq![a, 'l', 'f', '2']) {
                let t = line@.take(4);
                assert(t[0] == a && t[1] == 'l' && t[2] == 'f' && t[3] == '2');
            }
        }
        false
    }
}

/// Parse the header line of a font.
fn parse_header(line: &[char]) -> (r: Result<FontHeader, Error>)
    ensures
        r == spec_header(line@),
{
    if !starts_with_sig(line, 'f') && !starts_with_sig(line, 't') {
        return Err(Error::FontFormat("unsupported font format"));
    }
    let p = split_whitespace(line);
    let ghost ps = views(p@);
    assert(ps.len() == p@.len());
    if p.len() == 0 || !byte_len_at_least(p[0].as_slice(), 6) {
        return Err(Error::FontFormat("unsupported font format"));
    }
    assert(ps[0] == p@[0]@);
    if p[0].len() < 6 {
        return Err(Error::FontFormat("invalid font header"));
    }
    let version = p[0][4];
    let hardblank = p[0][5];
    let height = match parse_header_field(&p, 1, 0, usize::MAX as i128) {
        Ok(v) => v,
        Err(e) => return Err(e),
    };
    let baseline = match parse_header_field(&p, 2, 0, usize::MAX as i128) {
        Ok(v) => v,
        Err(e) => return Err(e),
    };
    let max_length = match parse_header_field(&p, 3, 0, usize::MAX as i128) {
        Ok(v) => v,
        Err(e) => return Err(e),
    };
    let old_layout = match parse_header_field(&p, 4, i32::MIN as i128, i32::MAX as i128) {
        Ok(v) => v,
        Err(e) => return Err(e),
    };
    let comment_lines = match parse_header_field(&p, 5, 0, usize::MAX as i128) {
        Ok(v) => v,
        Err(e) => return Err(e),
    };
    let right_to_left = if p.len() > 6 {
        assert(ps[6] == p@[6]@);
        let r = p[6].len() == 1 && p[6][0] == '1';
        proof {
            if p@[6]@ == seq!['1'] {
                assert(p@[6]@[0] == '1');
            }
            if r {
                assert(p@[6]@ =~= seq!['1']);
            }
        }
        r
    } else {
        false
    };
    let layout: u32 = if p.len() > 7 {
        match parse_header_field(&p, 7, 0, u32::MAX as i128) {
            Ok(v) => v as u32,
            Err(e) => return Err(e),
        }
    } else {
        layout_of_old_exec(old_layout as i32)
    };
    let count: u32 = if p.len() > 8 {
        match parse_header_field(&p, 8, 0, u32::MAX as i128) {
            Ok(v) => v as u32,
            Err(e) => return Err(e),
        }
    } else {
        0
    };
    Ok(
        FontHeader {
            version,
            hardblank,
            height: height as usize,
            baseline: baseline as usize,
            max_length: max_length as usize,
            old_layout: old_layout as i32,
            comment_lines: comment_lines as usize,
            right_to_left,
            layout,
            count,
        },
    )
}

fn layout_of_old_exec(old: i32) -> (l: u32)
    ensures
        l == layout_of_old(old),
{
    if old == 0 {
        64
    } else if old < 0 {
        0
    } else {
        ((old as u32) & 63u32) | 128u32
    }
}


/* Loading a font */

/// Rows `i` and on of a FIGcharacter of `height` rows whose first row is line `pos`, the
/// rows `acc` being read already. Each row ends with a mark character, repeated on the last
/// row; a row that is empty (as at the end of the input) is an error, and a line that is not
/// UTF-8 makes every row of the character empty.
pub open spec fn glyph_rows(
    lines: Seq<Seq<u8>>,
    pos: int,
    i: int,
    height: int,
    acc: Seq<Seq<char>>,
) -> Result<Seq<Seq<char>>, Error>
    decreases height - i,
{
    if i >= height {
        Ok(acc)
    } else if 0 <= pos + i < lines.len() && !valid_utf8(lines[pos + i]) {
        Ok(empty_rows(height))
    } else {
        let text = if 0 <= pos + i < lines.len() {
            decode_utf8(lines[pos + i])
        } else {
            Seq::empty()
        };
        let t = trim_end(text);
        if t.len() == 0 {
            Err(Error::FontFormat("invalid character width"))
        } else {
            glyph_rows(lines, pos, i + 1, height, acc.push(trim_end_char(t.drop_last(), t.last())))
        }
    }
}

/// All rows have as many characters as the first.
pub open spec fn one_width(rows: Seq<Seq<char>>) -> bool {
    forall|i: int| 0 <= i < rows.len() ==> (#[trigger] rows[i]).len() == rows[0].len()
}

/// The FIGcharacter of `height` rows whose first row is line `pos`; one whose rows differ
/// in their number of characters is an error.
pub open spec fn glyph_at(lines: Seq<Seq<u8>>, pos: int, height: int) -> Result<
    Seq<Seq<char>>,
    Error,
> {
    match glyph_rows(lines, pos, 0, height, Seq::empty()) {
        Ok(rows) => if one_width(rows) {
            Ok(rows)
        } else {
            Err(Error::FontFormat("invalid character width"))
        },
        Err(e) => Err(e),
    }
}

/// The position `n` lines after `pos`, or the end of the input.
pub open spec fn advance(pos: int, n: int, len: int) -> int {
    if 0 <= n && pos + n < len {
        pos + n
    } else {
        len
    }
}

/// The code of the `k`-th required character: 32 to 126, then the seven German characters
/// Ä Ö Ü ä ö ü ß.
pub open spec fn required_code(k: int) -> u32 {
    if k < 95 {
        (32 + k) as u32
    } else if k == 95 {
        196
    } else if k == 96 {
        214
    } else if k == 97 {
        220
    } else if k == 98 {
        228
    } else if k == 99 {
        246
    } else if k == 100 {
        252
    } else {
        223
    }
}

/// The number of required characters.
pub open spec fn num_required() -> int {
    102
}

/// The required characters from the `k`-th on, from line `pos`, added to `m`: the map and
/// the position after them.
pub open spec fn required_glyphs(
    lines: Seq<Seq<u8>>,
    pos: int,
    height: int,
    k: int,
    m: Map<u32, Seq<Seq<char>>>,
) -> Result<(Map<u32, Seq<Seq<char>>>, int), Error>
    decreases num_required() - k,
{
    if k >= num_required() {
        Ok((m, pos))
    } else {
        match glyph_at(lines, pos, height) {
            Err(e) => Err(e),
            Ok(rows) => required_glyphs(
                lines,
                advance(pos, height, lines.len() as int),
                height,
                k + 1,
                m.insert(required_code(k), rows),
            ),
        }
    }
}

/// The code of a code-tagged character: hexadecimal after "0x", octal after a leading 0,
/// decimal otherwise; a negative code (one beginning with '-') stands for the unused code 1.
pub open spec fn code_tag(s0: Seq<char>) -> Result<u32, Error> {
    let s = trim_start(trim_end(s0));
    if s.len() > 0 && s[0] == '-' {
        Ok(1)
    } else {
        let v = if starts_0x(s) {
            parse_int(s.skip(2), 16, 0, u32::MAX as int)
        } else if s.len() > 1 && s[0] == '0' {
            parse_int(s, 8, 0, u32::MAX as int)
        } else {
            parse_int(s, 10, 0, u32::MAX as int)
        };
        match v {
            Some(x) => Ok(x as u32),
            None => Err(Error::Parse),
        }
    }
}

/// The code-tagged characters from line `p` on, added to `m`: each is a line that begins
/// with its code, then its rows. The end of the input or a blank line ends them; a code that
/// is no Unicode scalar value is an error.
pub open spec fn tagged_glyphs(
    lines: Seq<Seq<u8>>,
    p: int,
    height: int,
    m: Map<u32, Seq<Seq<char>>>,
) -> Result<Map<u32, Seq<Seq<char>>>, Error>
    decreases lines.len() - p,
{
    if p < 0 || p >= lines.len() {
        Ok(m)
    } else if !valid_utf8(lines[p]) {
        Err(Error::Io)
    } else {
        let w = split_ws(decode_utf8(lines[p]));
        if w.len() == 0 {
            Ok(m)
        } else {
            match glyph_at(lines, p + 1, height) {
                Err(e) => Err(e),
                Ok(rows) => match code_tag(w[0]) {
                    Err(e) => Err(e),
                    Ok(c) => if !is_scalar_value(c as int) {
                        Err(Error::CodeTag(c))
                    } else {
                        tagged_glyphs(
                            lines,
                            advance(p + 1, height, lines.len() as int),
                            height,
                            m.insert(c, rows),
                        )
                    },
                },
            }
        }
    }
}

/// The comment lines after the header, as far as they go, are all UTF-8.
pub open spec fn comments_valid(lines: Seq<Seq<u8>>, n: int) -> bool {
    forall|i: int| 1 <= i < 1 + n && i < lines.len() ==> valid_utf8(#[trigger] lines[i])
}

/// What loading the font file `data` gives: its header and its characters by code.
pub open spec fn spec_font(data: Seq<u8>) -> Result<(FontHeader, Map<u32, Seq<Seq<char>>>), Error> {
    let lines = lines_of(data);
    let first: Result<Seq<char>, Error> = if lines.len() == 0 {
        Ok(Seq::empty())
    } else if !valid_utf8(lines[0]) {
        Err(Error::Io)
    } else {
        Ok(decode_utf8(lines[0]))
    };
    match first {
        Err(e) => Err(e),
        Ok(t) => match spec_header(t) {
            Err(e) => Err(e),
            Ok(h) => if !comments_valid(lines, h.comment_lines as int) {
                Err(Error::Io)
            } else {
                let start = advance(1, h.comment_lines as int, lines.len() as int);
                let m0 = map![0u32 => empty_rows(h.height as int)];
                match required_glyphs(lines, start, h.height as int, 0, m0) {
                    Err(e) => Err(e),
                    Ok((m, pos)) => match tagged_glyphs(lines, pos, h.height as int, m) {
                        Err(e) => Err(e),
                        Ok(g) => Ok((h, g)),
                    },
                }
            },
        },
    }
}

/// Load the FIGcharacter of `height` rows whose first row is line `pos`.
fn load_glyph(lines: &Vec<Vec<u8>>, pos: usize, height: usize) -> (r: Result<FIGchar, Error>)
    requires
        pos <= lines@.len(),
    ensures
        match glyph_at(byte_views(lines@), pos as int, height as int) {
            Ok(rows) => r matches Ok(c) && c.rows() == rows,
            Err(e) => r == Err::<FIGchar, Error>(e),
        },
{
    let ghost ls = byte_views(lines@);
    let mut out: Vec<String> = Vec::new();
    let mut i: usize = 0;
    let mut first_width: usize = 0;
    let mut same = true;
    assert(string_views(out@) =~= Seq::<Seq<char>>::empty());
    while i < height
        invariant
            i <= height,
            pos <= lines@.len(),
            ls == byte_views(lines@),
            out@.len() == i,
            glyph_rows(ls, pos as int, 0, height as int, Seq::empty()) == glyph_rows(
                ls,
                pos as int,
                i as int,
                height as int,
                string_views(out@),
            ),
            i > 0 ==> first_width == string_views(out@)[0].len(),
            same == one_width(string_views(out@)),
        decreases height - i,
    {
        if i < lines.len() - pos {
            let line = &lines[pos + i];
            assert(ls[pos + i] == line@);
            match utf8_to_chars(line.as_slice()) {
                None => {
                    let c = FIGchar::with_lines(height);
                    assert(one_width(empty_rows(height as int)));
                    return Ok(c);
                },
                Some(chars) => {
                    let t = trim_end_len(chars.as_slice());
                    if t == 0 {
                        return Err(Error::FontFormat("invalid character width"));
                    }
                    let mark = chars[t - 1];
                    let body = slice_subrange(chars.as_slice(), 0, t - 1);
                    let n = trim_end_char_len(body, mark);
                    let kept = slice_subrange(body, 0, n);
                    proof {
                        let tt = chars@.take(t as int);
                        assert(body@ =~= tt.drop_last());
                        assert(tt.last() == mark);
                        assert(kept@ =~= body@.take(n as int));
                    }
                    let row = chars_to_string(kept);
                    let ghost before = string_views(out@);
                    out.push(row);
                    let ghost after = string_views(out@);
                    assert(after =~= before.push(row@));
                    if i == 0 {
                        first_width = n;
                    } else if n != first_width {
                        same = false;
                    }
                    proof {
                        assert(after[0] == if i == 0 { row@ } else { before[0] });
                        if same {
                            assert forall|k: int| 0 <= k < after.len() implies (
                            #[trigger] after[k]).len() == after[0].len() by {
                                if k < before.len() {
                                    assert(after[k] == before[k]);
                                }
                            }
                        } else if i > 0 && n != first_width {
                            assert(after[i as int].len() != after[0].len());
                        } else {
                            assert(!one_width(before));
                            let k = choose|k: int| 0 <= k < before.len() && (#[trigger] before[k]).len()
                                != before[0].len();
                            assert(after[k] == before[k]);
                        }
                    }
                },
            }
        } else {
            return Err(Error::FontFormat("invalid character width"));
        }
        i = i + 1;
    }
    if !same {
        return Err(Error::FontFormat("invalid character width"));
    }
    Ok(FIGchar { lines: out })
}


/// The characters of a map of FIGchars, by code.
pub open spec fn glyph_views(m: Map<u32, FIGchar>) -> Map<u32, Seq<Seq<char>>> {
    m.map_values(|c: FIGchar| c.rows())
}

/// The rows that stand for the character with code `c`: its own, or for a tab those of the
/// space, or else those of the missing character (code 0).
pub open spec fn glyph_of(g: Map<u32, Seq<Seq<char>>>, c: u32) -> Seq<Seq<char>> {
    if g.contains_key(c) {
        g[c]
    } else if c == 9 && g.contains_key(32) {
        g[32]
    } else {
        g[0]
    }
}

/// A font made of large ASCII-art characters.
///
/// FIGfont defines a set of large ASCII-art (or UTF-8 Unicode art) characters,
/// called FIGcharacters, and a layout mode to control how FIGcharacters can be
/// fit together in a line. All FIGcharacters in a font must have the same number
/// of lines, and all lines in a FIGcharacter must have the same number of
/// characters.
#[derive(Debug)]
pub struct FIGfont {
    version: char,
    pub hardblank: char,
    pub height: usize,
    baseline: usize,
    max_length: usize,
    pub old_layout: i32,
    comment_lines: usize,
    pub right_to_left: bool,
    pub layout: u32,
    count: u32,
    chars: HashMap<u32, FIGchar>,
}

/// `r` is the font that the loading result `m` describes (header and glyphs), or the same
/// error.
pub open spec fn font_loaded_as(
    r: Result<FIGfont, Error>,
    m: Result<(FontHeader, Map<u32, Seq<Seq<char>>>), Error>,
) -> bool {
    match m {
        Ok((h, g)) => r matches Ok(f) && f.header() == h && f.glyphs() == g && f.wf(),
        Err(e) => r == Err::<FIGfont, Error>(e),
    }
}

impl FIGfont {
    /// The header parameters of the font.
    pub closed spec fn header(&self) -> FontHeader {
        FontHeader {
            version: self.version,
            hardblank: self.hardblank,
            height: self.height,
            baseline: self.baseline,
            max_length: self.max_length,
            old_layout: self.old_layout,
            comment_lines: self.comment_lines,
            right_to_left: self.right_to_left,
            layout: self.layout,
            count: self.count,
        }
    }

    /// The header parameters of the font.
    pub fn header_info(&self) -> (h: FontHeader)
        ensures
            h == self.header(),
    {
        FontHeader {
            version: self.version,
            hardblank: self.hardblank,
            height: self.height,
            baseline: self.baseline,
            max_length: self.max_length,
            old_layout: self.old_layout,
            comment_lines: self.comment_lines,
            right_to_left: self.right_to_left,
            layout: self.layout,
            count: self.count,
        }
    }

    /// The characters of the font, by code.
    pub closed spec fn glyphs(&self) -> Map<u32, Seq<Seq<char>>> {
        glyph_views(self.chars@)
    }

    /// A loaded font: it has the missing character (code 0) and the space.
    pub closed spec fn wf(&self) -> bool {
        &&& self.glyphs().contains_key(0)
        &&& self.glyphs().contains_key(32)
    }

    /// Obtain the FIGchar in this font for the given char.
    pub fn get(&self, ch: char) -> (r: &FIGchar)
        requires
            self.wf(),
        ensures
            r.rows() == glyph_of(self.glyphs(), ch as u32),
    {
        let code = ch as u32;
        match self.chars.get(&code) {
            Some(c) => c,
            None => {
                let fallback: u32 = if code == 9 {
                    32
                } else {
                    0
                };
                assert(self.chars@.contains_key(fallback));
                self.chars.get(&fallback).unwrap()
            },
        }
    }

    /// Load a font from the contents of a font file, which may be compressed: a ZIP archive
    /// is read from the decompressed contents of its first entry, and one that cannot be
    /// decompressed is refused.
    pub fn from_file_bytes(data: &[u8]) -> (r: Result<FIGfont, Error>)
        ensures
            if spec_is_zip(data@) {
                match zip_first_entry(data@, MAX_DECOMPRESSED_SIZE) {
                    Some(d) => font_loaded_as(r, spec_font(d)),
                    None => r == Err::<FIGfont, Error>(Error::FontFormat("failed to decompress ZIP")),
                }
            } else {
                font_loaded_as(r, spec_font(data@))
            },
    {
        if is_zip(data) {
            match decompress_zip(data, MAX_DECOMPRESSED_SIZE) {
                Some(d) => FIGfont::from_bytes(d.as_slice()),
                None => Err(Error::FontFormat("failed to decompress ZIP")),
            }
        } else {
            FIGfont::from_bytes(data)
        }
    }

    /// Load a font from the contents of a .flf or .tlf file.
    pub fn from_bytes(data: &[u8]) -> (r: Result<FIGfont, Error>)
        ensures
            font_loaded_as(r, spec_font(data@)),
    {
        let lines = split_lines(data);
        let ghost ls = byte_views(lines@);
        assert(ls.len() == lines@.len());
        let first: Vec<char> = if lines.len() == 0 {
            Vec::new()
        } else {
            assert(ls[0] == lines@[0]@);
            match utf8_to_chars(lines[0].as_slice()) {
                Some(c) => c,
                None => return Err(Error::Io),
            }
        };
        let h = match parse_header(first.as_slice()) {
            Ok(h) => h,
            Err(e) => return Err(e),
        };
        if !check_comments(&lines, h.comment_lines) {
            return Err(Error::Io);
        }
        let start: usize = if h.comment_lines < lines.len() - 1 {
            1 + h.comment_lines
        } else {
            lines.len()
        };
        let mut chars: HashMap<u32, FIGchar> = HashMap::new();
        chars.insert(0, FIGchar::with_lines(h.height));
        let ghost m0 = glyph_views(chars@);
        assert(m0 =~= map![0u32 => empty_rows(h.height as int)]);
        let pos = match load_required(&lines, start, h.height, &mut chars) {
            Ok(p) => p,
            Err(e) => return Err(e),
        };
        proof {
            lemma_required_keys(ls, start as int, h.height as int, 0, m0);
        }
        let ghost m1 = glyph_views(chars@);
        match load_tagged(&lines, pos, h.height, &mut chars) {
            Ok(()) => {},
            Err(e) => return Err(e),
        }
        proof {
            lemma_tagged_keys(ls, pos as int, h.height as int, m1);
        }
        Ok(
            FIGfont {
                version: h.version,
                hardblank: h.hardblank,
                height: h.height,
                baseline: h.baseline,
                max_length: h.max_length,
                old_layout: h.old_layout,
                comment_lines: h.comment_lines,
                right_to_left: h.right_to_left,
                layout: h.layout,
                count: h.count,
                chars,
            },
        )
    }
}

/// The comment lines after the header are all UTF-8, as far as there are any.
fn check_comments(lines: &Vec<Vec<u8>>, n: usize) -> (ok: bool)
    ensures
        ok == comments_valid(byte_views(lines@), n as int),
{
    let ghost ls = byte_views(lines@);
    let mut i: usize = 1;
    while i < lines.len() && i - 1 < n
        invariant
            1 <= i,
            i <= n + 1,
            ls == byte_views(lines@),
            forall|j: int| 1 <= j < i && j < ls.len() ==> valid_utf8(#[trigger] ls[j]),
        decreases lines@.len() - i,
    {
        assert(ls[i as int] == lines@[i as int]@);
        if utf8_to_chars(lines[i].as_slice()).is_none() {
            return false;
        }
        i = i + 1;
    }
    true
}

/// Load the required characters from line `start` into `chars`: the position after them.
fn load_required(
    lines: &Vec<Vec<u8>>,
    start: usize,
    height: usize,
    chars: &mut HashMap<u32, FIGchar>,
) -> (r: Result<usize, Error>)
    requires
        start <= lines@.len(),
    ensures
        match required_glyphs(
            byte_views(lines@),
            start as int,
            height as int,
            0,
            glyph_views(old(chars)@),
        ) {
            Ok((m, p)) => r matches Ok(q) && q == p && q <= lines@.len() && glyph_views(
                final(chars)@,
            ) == m,
            Err(e) => r == Err::<usize, Error>(e),
        },
{
    let ghost ls = byte_views(lines@);
    let ghost want = required_glyphs(ls, start as int, height as int, 0, glyph_views(chars@));
    let mut pos = start;
    let mut k: usize = 0;
    while k < 102
        invariant
            k <= 102,
            pos <= lines@.len(),
            ls == byte_views(lines@),
            want == required_glyphs(ls, pos as int, height as int, k as int, glyph_views(chars@)),
            want == required_glyphs(ls, start as int, height as int, 0, glyph_views(old(chars)@)),
        decreases 102 - k,
    {
        assert(ls.len() == lines@.len());
        let g = match load_glyph(lines, pos, height) {
            Ok(g) => g,
            Err(e) => return Err(e),
        };
        let code = required_code_of(k);
        let ghost before = chars@;
        chars.insert(code, g);
        assert(glyph_views(chars@) =~= glyph_views(before).insert(code, g.rows()));
        pos = if height < lines.len() - pos {
            pos + height
        } else {
            lines.len()
        };
        k = k + 1;
    }
    Ok(pos)
}

/// Load the code-tagged characters from line `pos` into `chars`.
fn load_tagged(lines: &Vec<Vec<u8>>, pos: usize, height: usize, chars: &mut HashMap<u32, FIGchar>) -> (r:
    Result<(), Error>)
    requires
        pos <= lines@.len(),
    ensures
        match tagged_glyphs(byte_views(lines@), pos as int, height as int, glyph_views(old(chars)@)) {
            Ok(m) => r is Ok && glyph_views(final(chars)@) == m,
            Err(e) => r == Err::<(), Error>(e),
        },
{
    let ghost ls = byte_views(lines@);
    let ghost want = tagged_glyphs(ls, pos as int, height as int, glyph_views(chars@));
    let mut p = pos;
    loop
        invariant
            p <= lines@.len(),
            ls == byte_views(lines@),
            want == tagged_glyphs(ls, p as int, height as int, glyph_views(chars@)),
            want == tagged_glyphs(ls, pos as int, height as int, glyph_views(old(chars)@)),
        decreases lines@.len() - p,
    {
        assert(ls.len() == lines@.len());
        if p >= lines.len() {
            return Ok(());
        }
        assert(ls[p as int] == lines@[p as int]@);
        let text = match utf8_to_chars(lines[p].as_slice()) {
            Some(t) => t,
            None => return Err(Error::Io),
        };
        let words = split_whitespace(text.as_slice());
        assert(views(words@).len() == words@.len());
        if words.len() == 0 {
            return Ok(());
        }
        assert(views(words@)[0] == words@[0]@);
        let g = match load_glyph(lines, p + 1, height) {
            Ok(g) => g,
            Err(e) => return Err(e),
        };
        let code = match code_tag_of(words[0].as_slice()) {
            Ok(c) => c,
            Err(e) => return Err(e),
        };
        if char_from_u32(code).is_err() {
            return Err(Error::CodeTag(code));
        }
        let ghost before = chars@;
        chars.insert(code, g);
        assert(glyph_views(chars@) =~= glyph_views(before).insert(code, g.rows()));
        p = if height < lines.len() - (p + 1) {
            p + 1 + height
        } else {
            lines.len()
        };
    }
}

proof fn lemma_required_keys(
    lines: Seq<Seq<u8>>,
    pos: int,
    height: int,
    k: int,
    m: Map<u32, Seq<Seq<char>>>,
)
    ensures
        required_glyphs(lines, pos, height, k, m) matches Ok((m2, p)) ==> (forall|c: u32|
            m.contains_key(c) ==> #[trigger] m2.contains_key(c)) && (k <= 0 ==> m2.contains_key(
            32,
        )),
    decreases num_required() - k,
{
    if k < num_required() {
        if let Ok(rows) = glyph_at(lines, pos, height) {
            lemma_required_keys(
                lines,
                advance(pos, height, lines.len() as int),
                height,
                k + 1,
                m.insert(required_code(k), rows),
            );
        }
    }
}

proof fn lemma_tagged_keys(lines: Seq<Seq<u8>>, p: int, height: int, m: Map<u32, Seq<Seq<char>>>)
    ensures
        tagged_glyphs(lines, p, height, m) matches Ok(m2) ==> forall|c: u32|
            m.contains_key(c) ==> #[trigger] m2.contains_key(c),
    decreases lines.len() - p,
{
    if 0 <= p < lines.len() && valid_utf8(lines[p]) {
        let w = split_ws(decode_utf8(lines[p]));
        if w.len() > 0 {
            if let Ok(rows) = glyph_at(lines, p + 1, height) {
                if let Ok(c) = code_tag(w[0]) {
                    lemma_tagged_keys(
                        lines,
                        advance(p + 1, height, lines.len() as int),
                        height,
                        m.insert(c, rows),
                    );
                }
            }
        }
    }
}

fn required_code_of(k: usize) -> (c: u32)
    requires
        k < 102,
    ensures
        c == required_code(k as int),
{
    if k < 95 {
        (32 + k) as u32
    } else if k == 95 {
        196
    } else if k == 96 {
        214
    } else if k == 97 {
        220
    } else if k == 98 {
        228
    } else if k == 99 {
        246
    } else if k == 100 {
        252
    } else {
        223
    }
}

/// The code of a code-tagged character: hexadecimal after "0x", octal after a leading 0,
/// decimal otherwise; a negative code stands for the unused code 1.
pub fn u32_from_str(s: &str) -> (r: Result<u32, Error>)
    ensures
        r == code_tag(s@),
{
    let cs = str_to_chars(s);
    code_tag_of(cs.as_slice())
}

/// The character with the given code, which must be a Unicode scalar value.
pub fn char_from_u32(num: u32) -> (r: Result<char, Error>)
    ensures
        match r {
            Ok(c) => is_scalar_value(num as int) && c as u32 == num,
            Err(e) => !is_scalar_value(num as int) && e == Error::CodeTag(num),
        },
{
    match char_from_code(num) {
        Some(c) => Ok(c),
        None => Err(Error::CodeTag(num)),
    }
}

/// The code of a code-tagged character.
fn code_tag_of(s0: &[char]) -> (r: Result<u32, Error>)
    ensures
        r == code_tag(s0@),
{
    let e = trim_end_len(s0);
    let t = slice_subrange(s0, 0, e);
    assert(t@ =~= s0@.take(e as int));
    let b = trim_start_pos(t);
    let s = slice_subrange(t, b, t.len());
    assert(s@ =~= t@.skip(b as int));
    if s.len() > 0 && s[0] == '-' {
        return Ok(1);
    }
    let v = if s.len() >= 2 && s[0] == '0' && (s[1] == 'x' || s[1] == 'X') {
        let h = slice_subrange(s, 2, s.len());
        assert(h@ =~= s@.skip(2));
        parse_radix(h, 16, 0, u32::MAX as i128)
    } else if s.len() > 1 && s[0] == '0' {
        parse_radix(s, 8, 0, u32::MAX as i128)
    } else {
        parse_radix(s, 10, 0, u32::MAX as i128)
    };
    match v {
        Some(x) => Ok(x as u32),
        None => Err(Error::Parse),
    }
}


/* Laws */

/// Every character of `m` has `height` rows.
pub open spec fn all_height(m: Map<u32, Seq<Seq<char>>>, height: int) -> bool {
    forall|c: u32| #[trigger] m.contains_key(c) ==> m[c].len() == height
}

proof fn lemma_glyph_rows_height(
    lines: Seq<Seq<u8>>,
    pos: int,
    i: int,
    height: int,
    acc: Seq<Seq<char>>,
)
    requires
        0 <= i,
        acc.len() == i || i >= height && acc.len() == height,
        i <= height || acc.len() == height,
    ensures
        glyph_rows(lines, pos, i, height, acc) matches Ok(rows) ==> rows.len() == height,
    decreases height - i,
{
    if i < height {
        if !(0 <= pos + i < lines.len() && !valid_utf8(lines[pos + i])) {
            let text = if 0 <= pos + i < lines.len() {
                decode_utf8(lines[pos + i])
            } else {
                Seq::empty()
            };
            let t = trim_end(text);
            if t.len() > 0 {
                lemma_glyph_rows_height(
                    lines,
                    pos,
                    i + 1,
                    height,
                    acc.push(trim_end_char(t.drop_last(), t.last())),
                );
            }
        }
    }
}

proof fn lemma_required_height(
    lines: Seq<Seq<u8>>,
    pos: int,
    height: int,
    k: int,
    m: Map<u32, Seq<Seq<char>>>,
)
    requires
        height >= 0,
        all_height(m, height),
    ensures
        required_glyphs(lines, pos, height, k, m) matches Ok((m2, p)) ==> all_height(m2, height),
    decreases num_required() - k,
{
    if k < num_required() {
        lemma_glyph_rows_height(lines, pos, 0, height, Seq::empty());
        if let Ok(rows) = glyph_at(lines, pos, height) {
            let m1 = m.insert(required_code(k), rows);
            assert(all_height(m1, height));
            lemma_required_height(lines, advance(pos, height, lines.len() as int), height, k + 1, m1);
        }
    }
}

proof fn lemma_tagged_height(lines: Seq<Seq<u8>>, p: int, height: int, m: Map<u32, Seq<Seq<char>>>)
    requires
        height >= 0,
        all_height(m, height),
    ensures
        tagged_glyphs(lines, p, height, m) matches Ok(m2) ==> all_height(m2, height),
    decreases lines.len() - p,
{
    if 0 <= p < lines.len() && valid_utf8(lines[p]) {
        let w = split_ws(decode_utf8(lines[p]));
        if w.len() > 0 {
            lemma_glyph_rows_height(lines, p + 1, 0, height, Seq::empty());
            if let Ok(rows) = glyph_at(lines, p + 1, height) {
                if let Ok(c) = code_tag(w[0]) {
                    let m1 = m.insert(c, rows);
                    assert(all_height(m1, height));
                    lemma_tagged_height(lines, advance(p + 1, height, lines.len() as int), height, m1);
                }
            }
        }
    }
}

/// All the characters of a loaded font have as many rows as the font's height, the missing
/// character (code 0) and the space among them.
pub proof fn law_loaded_characters_have_font_height(data: Seq<u8>)
    ensures
        spec_font(data) matches Ok((h, g)) ==> all_height(g, h.height as int) && g.contains_key(0)
            && g.contains_key(32),
{
    let lines = lines_of(data);
    if let Ok((h, g)) = spec_font(data) {
        let first: Seq<char> = if lines.len() == 0 {
            Seq::empty()
        } else {
            decode_utf8(lines[0])
        };
        let start = advance(1, h.comment_lines as int, lines.len() as int);
        let m0 = map![0u32 => empty_rows(h.height as int)];
        assert(all_height(m0, h.height as int));
        lemma_required_height(lines, start, h.height as int, 0, m0);
        lemma_required_keys(lines, start, h.height as int, 0, m0);
        if let Ok((m, pos)) = required_glyphs(lines, start, h.height as int, 0, m0) {
            lemma_tagged_height(lines, pos, h.height as int, m);
            lemma_tagged_keys(lines, pos, h.height as int, m);
        }
    }
}

/// Every character of `m` has rows of one width.
pub open spec fn all_one_width(m: Map<u32, Seq<Seq<char>>>) -> bool {
    forall|c: u32| #[trigger] m.contains_key(c) ==> one_width(m[c])
}

proof fn lemma_required_one_width(
    lines: Seq<Seq<u8>>,
    pos: int,
    height: int,
    k: int,
    m: Map<u32, Seq<Seq<char>>>,
)
    requires
        all_one_width(m),
    ensures
        required_glyphs(lines, pos, height, k, m) matches Ok((m2, p)) ==> all_one_width(m2),
    decreases num_required() - k,
{
    if k < num_required() {
        if let Ok(rows) = glyph_at(lines, pos, height) {
            let m1 = m.insert(required_code(k), rows);
            assert(all_one_width(m1));
            lemma_required_one_width(lines, advance(pos, height, lines.len() as int), height, k + 1, m1);
        }
    }
}

proof fn lemma_tagged_one_width(lines: Seq<Seq<u8>>, p: int, height: int, m: Map<u32, Seq<Seq<char>>>)
    requires
        all_one_width(m),
    ensures
        tagged_glyphs(lines, p, height, m) matches Ok(m2) ==> all_one_width(m2),
    decreases lines.len() - p,
{
    if 0 <= p < lines.len() && valid_utf8(lines[p]) {
        let w = split_ws(decode_utf8(lines[p]));
        if w.len() > 0 {
            if let Ok(rows) = glyph_at(lines, p + 1, height) {
                if let Ok(c) = code_tag(w[0]) {
                    let m1 = m.insert(c, rows);
                    assert(all_one_width(m1));
                    lemma_tagged_one_width(lines, advance(p + 1, height, lines.len() as int), height, m1);
                }
            }
        }
    }
}

/// Every character of a loaded font has rows of one width: a font file with a character
/// whose rows differ in their number of characters is refused.
pub proof fn law_loaded_characters_have_one_width(data: Seq<u8>)
    ensures
        spec_font(data) matches Ok((h, g)) ==> all_one_width(g),
{
    let lines = lines_of(data);
    if let Ok((h, g)) = spec_font(data) {
        let start = advance(1, h.comment_lines as int, lines.len() as int);
        let m0 = map![0u32 => empty_rows(h.height as int)];
        assert(all_one_width(m0));
        lemma_required_one_width(lines, start, h.height as int, 0, m0);
        if let Ok((m, pos)) = required_glyphs(lines, start, h.height as int, 0, m0) {
            lemma_tagged_one_width(lines, pos, h.height as int, m);
        }
    }
}

/// The line where the `k`-th block of `height` lines begins, the first beginning at `pos`
/// (the end of the input once it runs out).
pub open spec fn block_start(pos: int, height: int, len: int, k: nat) -> int
    decreases k,
{
    if k == 0 {
        pos
    } else {
        block_start(advance(pos, height, len), height, len, (k - 1) as nat)
    }
}

proof fn lemma_required_codes_distinct(a: int, b: int)
    requires
        0 <= a < b < num_required(),
    ensures
        required_code(a) != required_code(b),
{
}

proof fn lemma_required_stored(
    lines: Seq<Seq<u8>>,
    pos: int,
    height: int,
    k: int,
    m: Map<u32, Seq<Seq<char>>>,
)
    requires
        0 <= k <= num_required(),
    ensures
        required_glyphs(lines, pos, height, k, m) matches Ok((m2, p)) ==> ({
            &&& forall|j: int|
                k <= j < num_required() ==> m2.contains_key(#[trigger] required_code(j)) && glyph_at(
                    lines,
                    block_start(pos, height, lines.len() as int, (j - k) as nat),
                    height,
                ) == Ok::<Seq<Seq<char>>, Error>(m2[required_code(j)])
            &&& forall|c: u32|
                #![trigger m.contains_key(c)]
                m.contains_key(c) && (forall|j: int| k <= j < num_required() ==> required_code(j) != c)
                    ==> m2.contains_key(c) && m2[c] == m[c]
        }),
    decreases num_required() - k,
{
    if k < num_required() {
        if let Ok(rows) = glyph_at(lines, pos, height) {
            let next = advance(pos, height, lines.len() as int);
            let m1 = m.insert(required_code(k), rows);
            lemma_required_stored(lines, next, height, k + 1, m1);
            if let Ok((m2, p)) = required_glyphs(lines, next, height, k + 1, m1) {
                assert forall|j: int| k <= j < num_required() implies m2.contains_key(
                    #[trigger] required_code(j),
                ) && glyph_at(lines, block_start(pos, height, lines.len() as int, (j - k) as nat), height)
                    == Ok::<Seq<Seq<char>>, Error>(m2[required_code(j)]) by {
                    if j == k {
                        assert forall|j2: int| k + 1 <= j2 < num_required() implies required_code(j2)
                            != required_code(k) by {
                            lemma_required_codes_distinct(k, j2);
                        }
                        assert(m1.contains_key(required_code(k)));
                    } else {
                        assert(block_start(pos, height, lines.len() as int, (j - k) as nat) == block_start(
                            next,
                            height,
                            lines.len() as int,
                            (j - (k + 1)) as nat,
                        ));
                    }
                }
                assert forall|c: u32|
                    #![trigger m.contains_key(c)]
                    m.contains_key(c) && (forall|j: int| k <= j < num_required() ==> required_code(j) != c)
                        implies m2.contains_key(c) && m2[c] == m[c] by {
                    assert(required_code(k) != c);
                    assert(m1.contains_key(c));
                }
            }
        }
    }
}

/// The required characters of a font file are stored in the file's order under the codes
/// 32 to 126, then Ä Ö Ü ä ö ü ß (196, 214, 220, 228, 246, 252, 223): the `k`-th block of
/// rows after the comments is the character with the `k`-th of these codes.
pub proof fn law_required_characters_in_file_order(
    lines: Seq<Seq<u8>>,
    pos: int,
    height: int,
    m: Map<u32, Seq<Seq<char>>>,
)
    ensures
        required_glyphs(lines, pos, height, 0, m) matches Ok((m2, p)) ==> ({
            &&& forall|k: int|
                0 <= k < 95 ==> glyph_at(lines, #[trigger] block_start(pos, height, lines.len() as int, k as nat), height)
                    == Ok::<Seq<Seq<char>>, Error>(m2[(32 + k) as u32])
            &&& forall|k: int|
                0 <= k < 7 ==> glyph_at(lines, #[trigger] block_start(pos, height, lines.len() as int, (95 + k) as nat), height)
                    == Ok::<Seq<Seq<char>>, Error>(m2[seq![196u32, 214u32, 220u32, 228u32, 246u32, 252u32, 223u32][k]])
        }),
{
    lemma_required_stored(lines, pos, height, 0, m);
    if let Ok((m2, p)) = required_glyphs(lines, pos, height, 0, m) {
        assert forall|k: int| 0 <= k < 95 implies glyph_at(lines, #[trigger] block_start(pos, height, lines.len() as int, k as nat), height)
            == Ok::<Seq<Seq<char>>, Error>(m2[(32 + k) as u32]) by {
            assert(required_code(k) == (32 + k) as u32);
            assert(m2.contains_key(required_code(k)));
        }
        assert forall|k: int| 0 <= k < 7 implies glyph_at(lines, #[trigger] block_start(pos, height, lines.len() as int, (95 + k) as nat), height)
            == Ok::<Seq<Seq<char>>, Error>(m2[seq![196u32, 214u32, 220u32, 228u32, 246u32, 252u32, 223u32][k]]) by {
            assert(required_code(95 + k) == seq![196u32, 214u32, 220u32, 228u32, 246u32, 252u32, 223u32][k]);
            assert(m2.contains_key(required_code(95 + k)));
        }
    }
}

/// A character the font lacks is drawn as the missing character (code 0); a tab lacking
/// is drawn as the space.
pub proof fn law_missing_characters_fall_back(g: Map<u32, Seq<Seq<char>>>, c: u32)
    requires
        !g.contains_key(c),
    ensures
        c == 9 && g.contains_key(32) ==> glyph_of(g, c) == g[32],
        c != 9 ==> glyph_of(g, c) == glyph_of(g, 0),
{
}

} // verus!
