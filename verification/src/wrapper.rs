use vstd::prelude::*;
use crate::Error;
use crate::figfont::string_views;
use crate::smusher::{
    codes_from_str, codes_of, initial_state, max_len, renders, replace_char, smush_all, smush_step,
    trim_rows, SmushConfig, SmushState, Smusher,
};
use crate::text::{chars_to_string, display_width, str_display_width, str_to_chars};

verus! {

/// Text alignment.
#[derive(Clone, Copy, Debug, PartialEq, Eq, Structural)]
pub enum Align {
    Left,
    Right,
    Center,
}

/// What a wrapper holds: the smusher's output, the codes rendered into it, and the
/// whitespace codes waiting for the next word.
pub struct WrapModel {
    pub st: SmushState,
    pub buffer: Seq<i32>,
    pub pending: Option<Seq<i32>>,
}

/// The codes of `codes` that are rendered, in order.
pub open spec fn rendered_of(cfg: SmushConfig, codes: Seq<i32>) -> Seq<i32>
    decreases codes.len(),
{
    if codes.len() == 0 {
        Seq::empty()
    } else if renders(cfg, codes.last()) {
        rendered_of(cfg, codes.drop_last()).push(codes.last())
    } else {
        rendered_of(cfg, codes.drop_last())
    }
}

/// The output that the codes `buffer` make from an empty output.
pub open spec fn replay(cfg: SmushConfig, buffer: Seq<i32>) -> SmushState {
    smush_all(cfg, initial_state(cfg), buffer)
}

/// Adding `codes`: if the output stays within `width` characters per row they are added (and the
/// rendered ones buffered); otherwise the output is rebuilt from the buffer and nothing is
/// added. The flag says whether they were added.
pub open spec fn push_codes_model(cfg: SmushConfig, width: int, m: WrapModel, codes: Seq<i32>) -> (
    WrapModel,
    bool,
) {
    let st1 = smush_all(cfg, m.st, codes);
    if max_len(st1.rows) > width {
        (WrapModel { st: replay(cfg, m.buffer), ..m }, false)
    } else {
        (WrapModel { st: st1, buffer: m.buffer + rendered_of(cfg, codes), ..m }, true)
    }
}

/// An empty wrapper.
pub open spec fn clear_model(cfg: SmushConfig) -> WrapModel {
    WrapModel { st: initial_state(cfg), buffer: Seq::empty(), pending: None }
}

/// `n` spaces.
pub open spec fn spaces(n: int) -> Seq<char> {
    Seq::new(n as nat, |i: int| ' ')
}

/// The number of columns that an alignment puts before a block `w` columns narrower than
/// the width.
pub open spec fn align_pad(align: Align, w: int) -> int {
    match align {
        Align::Left => 0,
        Align::Center => w / 2 + w % 2,
        Align::Right => w,
    }
}

/// The display width of the widest of `rows`, in columns (0 for none).
pub open spec fn max_width(rows: Seq<Seq<char>>) -> int
    decreases rows.len(),
{
    if rows.len() == 0 {
        0
    } else {
        let m = max_width(rows.drop_last());
        if display_width(rows.last()) > m {
            display_width(rows.last()) as int
        } else {
            m
        }
    }
}

/// The columns left over beside a block as wide as the widest of `rows`, within `width`.
pub open spec fn spare_columns(rows: Seq<Seq<char>>, width: int) -> int {
    let mw = max_width(rows);
    if width > mw {
        width - mw
    } else {
        0
    }
}

/// The lines of output for the rows `rows`: each padded with spaces to the display width of
/// the widest row, hardblanks turned into spaces, then shifted right as the alignment asks
/// within `width` columns.
pub open spec fn layout_lines(rows: Seq<Seq<char>>, hb: char, width: int, align: Align) -> Seq<
    Seq<char>,
> {
    let mw = max_width(rows);
    let pad = align_pad(align, spare_columns(rows, width));
    rows.map_values(|r: Seq<char>| spaces(pad) + replace_char(r + spaces(mw - display_width(r)), hb))
}

/// What the wrapper holds once the waiting whitespace has been added, where it fits.
pub open spec fn committed(cfg: SmushConfig, width: int, m: WrapModel) -> WrapModel {
    match m.pending {
        Some(sp) => push_codes_model(cfg, width, WrapModel { pending: None, ..m }, sp).0,
        None => m,
    }
}

/// The rows that taking the output lays out: those of the output with the waiting
/// whitespace added, cut to `width` characters if it is wider.
pub open spec fn got_rows(cfg: SmushConfig, width: int, m: WrapModel) -> Seq<Seq<char>> {
    let m1 = committed(cfg, width, m);
    if max_len(m1.st.rows) > width {
        trim_rows(m1.st.rows, width)
    } else {
        m1.st.rows
    }
}

/// Taking the output: the waiting whitespace is added first (if it fits), an output wider
/// than `width` is cut to it, and the lines are laid out.
pub open spec fn get_model(cfg: SmushConfig, width: int, align: Align, m: WrapModel) -> (
    WrapModel,
    Seq<Seq<char>>,
) {
    let m1 = committed(cfg, width, m);
    let rows = got_rows(cfg, width, m);
    (
        WrapModel { st: SmushState { rows, ..m1.st }, ..m1 },
        layout_lines(rows, cfg.hardblank, width, align),
    )
}

/// Flushing: the output is taken and the wrapper cleared.
pub open spec fn flush_model(cfg: SmushConfig, width: int, align: Align, m: WrapModel) -> (
    WrapModel,
    Seq<Seq<char>>,
) {
    (clear_model(cfg), get_model(cfg, width, align, m).1)
}

/// A horizontal whitespace code: space, tab, line tabulation, form feed or carriage return.
pub open spec fn is_space_code(code: i32) -> bool {
    code == 32 || code == 9 || (11 <= code <= 13)
}

/// Every code is horizontal whitespace.
pub open spec fn all_space(codes: Seq<i32>) -> bool {
    forall|i: int| 0 <= i < codes.len() ==> is_space_code(#[trigger] codes[i])
}

/// Adding codes one by one; when one does not fit, the output so far is flushed (if there
/// is any) and the code is added alone, whatever its width.
pub open spec fn wrap_word_model(cfg: SmushConfig, width: int, align: Align, m: WrapModel, codes: Seq<
    i32,
>) -> (WrapModel, Seq<Seq<Seq<char>>>)
    decreases codes.len(),
{
    if codes.len() == 0 {
        (m, Seq::empty())
    } else {
        let c = codes[0];
        let (m1, ok) = push_codes_model(cfg, width, m, seq![c]);
        if ok {
            wrap_word_model(cfg, width, align, m1, codes.drop_first())
        } else {
            let (m2, out) = if m1.buffer.len() > 0 {
                let (m3, lines) = flush_model(cfg, width, align, m1);
                (m3, seq![lines])
            } else {
                (m1, Seq::empty())
            };
            let m4 = WrapModel {
                st: smush_step(cfg, m2.st, c),
                buffer: m2.buffer + rendered_of(cfg, seq![c]),
                ..m2
            };
            let (m5, rest) = wrap_word_model(cfg, width, align, m4, codes.drop_first());
            (m5, out + rest)
        }
    }
}

/// Adding a word that does not fit after a flush: as a whole if it fits the empty line,
/// else code by code.
pub open spec fn place_word(cfg: SmushConfig, width: int, align: Align, m: WrapModel, codes: Seq<i32>) -> (
    WrapModel,
    Seq<Seq<Seq<char>>>,
) {
    let (m1, ok) = push_codes_model(cfg, width, m, codes);
    if ok {
        (m1, Seq::empty())
    } else {
        wrap_word_model(cfg, width, align, m1, codes)
    }
}

/// Adding a segment (no newline): whitespace at the start of a line is kept, whitespace
/// after a word waits for the next word; a word is added after the waiting whitespace if
/// both fit, else the line is flushed (without the whitespace) and the word begins the next
/// line, broken code by code if it is wider than a line.
pub open spec fn wrap_segment_model(cfg: SmushConfig, width: int, align: Align, m: WrapModel, codes: Seq<
    i32,
>) -> (WrapModel, Seq<Seq<Seq<char>>>) {
    if all_space(codes) {
        if m.buffer.len() == 0 {
            (push_codes_model(cfg, width, m, codes).0, Seq::empty())
        } else {
            let p = match m.pending {
                Some(p) => p + codes,
                None => codes,
            };
            (WrapModel { pending: Some(p), ..m }, Seq::empty())
        }
    } else {
        let m0 = WrapModel { pending: None, ..m };
        if m.pending is Some && m.buffer.len() > 0 {
            let (m1, ok1) = push_codes_model(cfg, width, m0, m.pending.unwrap());
            if !ok1 {
                let (m2, lines) = flush_model(cfg, width, align, m1);
                let (m3, rest) = place_word(cfg, width, align, m2, codes);
                (m3, seq![lines] + rest)
            } else {
                let (m2, ok2) = push_codes_model(cfg, width, m1, codes);
                if ok2 {
                    (m2, Seq::empty())
                } else {
                    let m3 = WrapModel { st: replay(cfg, m.buffer), buffer: m.buffer, ..m2 };
                    let (m4, lines) = flush_model(cfg, width, align, m3);
                    let (m5, rest) = place_word(cfg, width, align, m4, codes);
                    (m5, seq![lines] + rest)
                }
            }
        } else {
            let (m1, ok1) = push_codes_model(cfg, width, m0, codes);
            if ok1 {
                (m1, Seq::empty())
            } else if m1.buffer.len() > 0 {
                let (m2, lines) = flush_model(cfg, width, align, m1);
                let (m3, rest) = place_word(cfg, width, align, m2, codes);
                (m3, seq![lines] + rest)
            } else {
                place_word(cfg, width, align, m1, codes)
            }
        }
    }
}

/// Carriage returns become newlines: "\r\n" and a lone '\r' alike.
pub open spec fn normalize(codes: Seq<i32>) -> Seq<i32>
    decreases codes.len(),
{
    if codes.len() == 0 {
        Seq::empty()
    } else if codes[0] == 13 && codes.len() > 1 && codes[1] == 10 {
        seq![10i32] + normalize(codes.skip(2))
    } else if codes[0] == 13 {
        seq![10i32] + normalize(codes.drop_first())
    } else {
        seq![codes[0]] + normalize(codes.drop_first())
    }
}

/// The parts of `codes` between newlines, the part `cur` already begun (one more part than
/// there are newlines).
pub open spec fn split_from(codes: Seq<i32>, cur: Seq<i32>) -> Seq<Seq<i32>>
    decreases codes.len(),
{
    if codes.len() == 0 {
        seq![cur]
    } else if codes[0] == 10 {
        seq![cur] + split_from(codes.drop_first(), Seq::empty())
    } else {
        split_from(codes.drop_first(), cur.push(codes[0]))
    }
}

/// The parts of `codes` between newlines.
pub open spec fn split_lines_codes(codes: Seq<i32>) -> Seq<Seq<i32>> {
    split_from(codes, Seq::empty())
}

/// The parts after the first: each begins a new line, flushing the one before.
pub open spec fn wrap_parts_model(cfg: SmushConfig, width: int, align: Align, m: WrapModel, parts: Seq<
    Seq<i32>,
>) -> (WrapModel, Seq<Seq<Seq<char>>>)
    decreases parts.len(),
{
    if parts.len() == 0 {
        (m, Seq::empty())
    } else {
        let (m1, lines) = flush_model(cfg, width, align, m);
        let (m2, o2) = if parts[0].len() == 0 {
            (m1, Seq::empty())
        } else {
            wrap_segment_model(cfg, width, align, m1, parts[0])
        };
        let (m3, o3) = wrap_parts_model(cfg, width, align, m2, parts.drop_first());
        (m3, seq![lines] + o2 + o3)
    }
}

/// Adding codes with wrapping: newlines (after carriage returns become newlines) end lines.
pub open spec fn wrap_codes_model(cfg: SmushConfig, width: int, align: Align, m: WrapModel, codes: Seq<
    i32,
>) -> (WrapModel, Seq<Seq<Seq<char>>>) {
    let n = normalize(codes);
    if n.contains(10) {
        let parts = split_lines_codes(n);
        let (m1, o1) = wrap_segment_model(cfg, width, align, m, parts[0]);
        let (m2, o2) = wrap_parts_model(cfg, width, align, m1, parts.drop_first());
        (m2, o1 + o2)
    } else {
        wrap_segment_model(cfg, width, align, m, codes)
    }
}


/// The lines of each block of output.
pub open spec fn blocks(v: Seq<Vec<String>>) -> Seq<Seq<Seq<char>>> {
    v.map_values(|b: Vec<String>| string_views(b@))
}

/// Render smushed ASCII-art characters with word wrapping.
///
/// Wrapper receives string or character input and renders the corresponding
/// FIGcharacters if the output text fits inside the maximum width specified on
/// creation. The wrapper will flush the output buffer earlier if the line is
/// too long, thus producing multiple "lines" of output text.
#[derive(Debug)]
pub struct Wrapper<'a> {
    sm: Smusher<'a>,
    buffer: Vec<i32>,
    pending_space: Option<Vec<i32>>,
    width: usize,
    align: Align,
}

impl<'a> Wrapper<'a> {
    /// The smusher's output, the buffered codes and the waiting whitespace.
    pub closed spec fn model(&self) -> WrapModel {
        WrapModel {
            st: self.sm.state(),
            buffer: self.buffer@,
            pending: match self.pending_space {
                Some(v) => Some(v@),
                None => None,
            },
        }
    }

    /// The configuration of the smusher.
    pub closed spec fn config(&self) -> SmushConfig {
        self.sm.config()
    }

    /// The width limit.
    pub closed spec fn spec_width(&self) -> usize {
        self.width
    }

    /// The alignment.
    pub closed spec fn spec_align(&self) -> Align {
        self.align
    }

    /// The configuration, width and alignment of `other` are those of this wrapper.
    pub open spec fn same_setup(&self, other: &Self) -> bool {
        &&& other.config() == self.config()
        &&& other.spec_width() == self.spec_width()
        &&& other.spec_align() == self.spec_align()
    }

    /// Create a new wrapper using the specified Smusher, terminal width, and alignment.
    pub fn new(sm: Smusher<'a>, width: usize, align: Align) -> (w: Self)
        ensures
            w.config() == sm.config(),
            w.model() == (WrapModel { st: sm.state(), buffer: Seq::empty(), pending: None }),
            w.spec_width() == width,
            w.spec_align() == align,
    {
        Wrapper { sm, width, buffer: Vec::new(), align, pending_space: None }
    }

    /// Return the current alignment.
    pub fn align(&self) -> (a: Align)
        ensures
            a == self.spec_align(),
    {
        self.align
    }

    /// Return the width limit.
    pub fn width(&self) -> (w: usize)
        ensures
            w == self.spec_width(),
    {
        self.width
    }

    /// Clear the output buffer.
    pub fn clear(&mut self)
        ensures
            old(self).same_setup(final(self)),
            final(self).model() == clear_model(old(self).config()),
    {
        self.sm.clear();
        self.buffer.clear();
        self.pending_space = None;
    }

    /// Get the length in sub-characters of the current output buffer.
    pub fn len(&self) -> (n: usize)
        ensures
            n == max_len(self.model().st.rows),
    {
        self.sm.len()
    }

    /// Verify whether the output buffer is empty.
    pub fn is_empty(&self) -> (b: bool)
        ensures
            b == (max_len(self.model().st.rows) == 0),
    {
        self.sm.is_empty()
    }

    /// Rebuild the smusher's output from the buffered codes.
    fn rebuild(&mut self)
        ensures
            old(self).same_setup(final(self)),
            final(self).model() == (WrapModel {
                st: replay(old(self).config(), old(self).model().buffer),
                ..old(self).model()
            }),
    {
        self.sm.clear();
        let mut i: usize = 0;
        while i < self.buffer.len()
            invariant
                i <= self.buffer@.len(),
                self.sm.config() == old(self).config(),
                self.buffer@ == old(self).buffer@,
                self.pending_space == old(self).pending_space,
                self.width == old(self).width,
                self.align == old(self).align,
                self.sm.state() == smush_all(
                    self.sm.config(),
                    initial_state(self.sm.config()),
                    self.buffer@.take(i as int),
                ),
            decreases self.buffer@.len() - i,
        {
            let c = self.buffer[i];
            self.sm.push_code(c);
            assert(self.buffer@.take(i + 1).drop_last() =~= self.buffer@.take(i as int));
            i = i + 1;
        }
        assert(self.buffer@.take(i as int) =~= self.buffer@);
    }

    /// Add character codes to the output buffer.
    ///
    /// # Errors
    ///
    /// If adding the codes results in a row longer than the width (in characters),
    /// the codes are not added to the output buffer and a LineFull error is returned.
    pub fn push_codes(&mut self, codes: &[i32]) -> (r: Result<(), Error>)
        ensures
            old(self).same_setup(final(self)),
            (final(self).model(), r is Ok) == push_codes_model(
                old(self).config(),
                old(self).spec_width() as int,
                old(self).model(),
                codes@,
            ),
            r is Err ==> r == Err::<(), Error>(Error::LineFull),
    {
        let ghost m = self.model();
        let buf_len = self.buffer.len();
        let mut i: usize = 0;
        assert(codes@.take(0) =~= Seq::<i32>::empty());
        assert(m.buffer + rendered_of(self.config(), Seq::empty()) =~= m.buffer);
        while i < codes.len()
            invariant
                i <= codes@.len(),
                self.sm.config() == old(self).config(),
                self.pending_space == old(self).pending_space,
                self.width == old(self).width,
                self.align == old(self).align,
                m == old(self).model(),
                buf_len == m.buffer.len(),
                self.sm.state() == smush_all(self.sm.config(), m.st, codes@.take(i as int)),
                self.buffer@ == m.buffer + rendered_of(self.sm.config(), codes@.take(i as int)),
            decreases codes@.len() - i,
        {
            let code = codes[i];
            let rendered = self.sm.push_code(code);
            assert(codes@.take(i + 1).drop_last() =~= codes@.take(i as int));
            if rendered {
                self.buffer.push(code);
            }
            i = i + 1;
            assert(self.buffer@ =~= m.buffer + rendered_of(self.sm.config(), codes@.take(i as int)));
        }
        assert(codes@.take(i as int) =~= codes@);
        if self.sm.len() > self.width {
            self.buffer.truncate(buf_len);
            assert(self.buffer@ =~= m.buffer);
            self.rebuild();
            return Err(Error::LineFull);
        }
        Ok(())
    }

    /// Add a character code to the output buffer.
    ///
    /// # Errors
    ///
    /// If adding the code results in a row longer than the width (in characters),
    /// the code is not added to the output buffer and a LineFull error is returned.
    pub fn push_code(&mut self, code: i32) -> (r: Result<(), Error>)
        ensures
            old(self).same_setup(final(self)),
            (final(self).model(), r is Ok) == push_codes_model(
                old(self).config(),
                old(self).spec_width() as int,
                old(self).model(),
                seq![code],
            ),
            r is Err ==> r == Err::<(), Error>(Error::LineFull),
    {
        let codes = [code];
        assert(codes@ =~= seq![code]);
        self.push_codes(&codes)
    }

    /// Add a string to the output buffer.
    ///
    /// # Errors
    ///
    /// If adding the string results in a row longer than the width (in characters),
    /// the string is not added to the output buffer and a LineFull error is returned.
    pub fn push_str(&mut self, s: &str) -> (r: Result<(), Error>)
        ensures
            old(self).same_setup(final(self)),
            (final(self).model(), r is Ok) == push_codes_model(
                old(self).config(),
                old(self).spec_width() as int,
                old(self).model(),
                codes_of(s@),
            ),
            r is Err ==> r == Err::<(), Error>(Error::LineFull),
    {
        let codes = codes_from_str(s);
        self.push_codes(codes.as_slice())
    }

    /// Add a character to the output buffer.
    ///
    /// # Errors
    ///
    /// If adding the character results in a row longer than the width (in characters),
    /// the character is not added to the output buffer and a LineFull error is returned.
    pub fn push(&mut self, ch: char) -> (r: Result<(), Error>)
        ensures
            old(self).same_setup(final(self)),
            (final(self).model(), r is Ok) == push_codes_model(
                old(self).config(),
                old(self).spec_width() as int,
                old(self).model(),
                seq![ch as i32],
            ),
            r is Err ==> r == Err::<(), Error>(Error::LineFull),
    {
        self.push_code(ch as i32)
    }

    /// Retrieve the output buffer lines: the waiting whitespace is added first (if it fits),
    /// an output wider than the width is cut to it, and the lines are padded to the widest,
    /// their hardblanks turned into spaces, and aligned within the width.
    pub fn get(&mut self) -> (v: Vec<String>)
        ensures
            old(self).same_setup(final(self)),
            (final(self).model(), string_views(v@)) == get_model(
                old(self).config(),
                old(self).spec_width() as int,
                old(self).spec_align(),
                old(self).model(),
            ),
    {
        let ghost m = self.model();
        let ghost cfg = self.config();
        if let Some(sp) = self.pending_space.take() {
            let _ = self.push_codes(sp.as_slice());
        }
        if self.len() > self.width {
            self.sm.trim(self.width);
        }
        let v = self.sm.get_raw();
        let ghost rows = self.sm.state().rows;
        let mut widths: Vec<usize> = Vec::new();
        let mut max_w: usize = 0;
        let mut j: usize = 0;
        while j < v.len()
            invariant
                j <= v@.len(),
                string_views(v@) == rows,
                widths@.len() == j,
                forall|k: int| 0 <= k < j ==> #[trigger] widths@[k] == display_width(rows[k]),
                max_w == max_width(rows.take(j as int)),
            decreases v@.len() - j,
        {
            let wj = str_display_width(v[j].as_str());
            assert(string_views(v@)[j as int] == v@[j as int]@);
            assert(rows.take(j + 1).drop_last() =~= rows.take(j as int));
            if wj > max_w {
                max_w = wj;
            }
            widths.push(wj);
            j = j + 1;
        }
        assert(rows.take(j as int) =~= rows);
        let mut padded: Vec<String> = Vec::new();
        let mut i: usize = 0;
        while i < v.len()
            invariant
                i <= v@.len(),
                string_views(v@) == rows,
                widths@.len() == v@.len(),
                forall|k: int| 0 <= k < v@.len() ==> #[trigger] widths@[k] == display_width(rows[k]),
                max_w == max_width(rows),
                padded@.len() == i,
                forall|k: int| 0 <= k < i ==> (#[trigger] padded@[k])@ == rows[k] + spaces(
                    max_w - display_width(rows[k]),
                ),
            decreases v@.len() - i,
        {
            let mut cs = str_to_chars(v[i].as_str());
            assert(string_views(v@)[i as int] == cs@);
            proof {
                lemma_max_width_ge(rows, i as int);
            }
            let gap: usize = max_w - widths[i];
            let ghost base = cs@;
            let mut k: usize = 0;
            assert(cs@ =~= base + spaces(0));
            while k < gap
                invariant
                    k <= gap,
                    cs@ == base + spaces(k as int),
                decreases gap - k,
            {
                cs.push(' ');
                k = k + 1;
                assert(cs@ =~= base + spaces(k as int));
            }
            padded.push(chars_to_string(cs.as_slice()));
            i = i + 1;
        }
        self.sm.replace_hardblanks(&mut padded);
        let w: usize = if self.width > max_w {
            self.width - max_w
        } else {
            0
        };
        let pad = match self.align {
            Align::Left => 0,
            Align::Center => w / 2 + w % 2,
            Align::Right => w,
        };
        let r = add_pad(padded.as_slice(), pad);
        assert(string_views(r@) =~= layout_lines(rows, cfg.hardblank, self.width as int, self.align));
        r
    }

    /// Take the output, append it to `out`, and clear.
    fn flush_into(&mut self, out: &mut Vec<Vec<String>>)
        ensures
            old(self).same_setup(final(self)),
            final(self).model() == flush_model(
                old(self).config(),
                old(self).spec_width() as int,
                old(self).spec_align(),
                old(self).model(),
            ).0,
            blocks(final(out)@) == blocks(old(out)@).push(
                flush_model(
                    old(self).config(),
                    old(self).spec_width() as int,
                    old(self).spec_align(),
                    old(self).model(),
                ).1,
            ),
    {
        let lines = self.get();
        let ghost before = out@;
        out.push(lines);
        assert(blocks(out@) =~= blocks(before).push(string_views(lines@)));
        self.clear();
    }

    /// Add codes one by one; when one does not fit, flush the output (if any) and add the
    /// code alone, whatever its width.
    fn wrap_word(&mut self, codes: &[i32], out: &mut Vec<Vec<String>>)
        ensures
            old(self).same_setup(final(self)),
            final(self).model() == wrap_word_model(
                old(self).config(),
                old(self).spec_width() as int,
                old(self).spec_align(),
                old(self).model(),
                codes@,
            ).0,
            blocks(final(out)@) == blocks(old(out)@) + wrap_word_model(
                old(self).config(),
                old(self).spec_width() as int,
                old(self).spec_align(),
                old(self).model(),
                codes@,
            ).1,
    {
        let ghost cfg = self.config();
        let ghost w = self.spec_width() as int;
        let ghost a = self.spec_align();
        let ghost total = wrap_word_model(cfg, w, a, self.model(), codes@);
        let ghost out0 = blocks(out@);
        let mut i: usize = 0;
        assert(codes@.skip(0) =~= codes@);
        assert(out0 + total.1 =~= blocks(out@) + total.1);
        while i < codes.len()
            invariant
                i <= codes@.len(),
                old(self).same_setup(self),
                cfg == old(self).config(),
                w == old(self).spec_width() as int,
                a == old(self).spec_align(),
                total == wrap_word_model(cfg, w, a, old(self).model(), codes@),
                out0 == blocks(old(out)@),
                total.0 == wrap_word_model(cfg, w, a, self.model(), codes@.skip(i as int)).0,
                out0 + total.1 == blocks(out@) + wrap_word_model(
                    cfg,
                    w,
                    a,
                    self.model(),
                    codes@.skip(i as int),
                ).1,
            decreases codes@.len() - i,
        {
            let ghost rest = codes@.skip(i as int);
            assert(rest[0] == codes@[i as int]);
            assert(rest.drop_first() =~= codes@.skip(i + 1));
            let ghost m = self.model();
            let ghost o = blocks(out@);
            let code = codes[i];
            if self.push_code(code).is_err() {
                let ghost m1 = self.model();
                let ghost o2: Seq<Seq<Seq<char>>> = if m1.buffer.len() > 0 {
                    seq![flush_model(cfg, w, a, m1).1]
                } else {
                    Seq::empty()
                };
                if !self.buffer.is_empty() {
                    self.flush_into(out);
                }
                assert(blocks(out@) =~= o + o2);
                let ghost m2 = self.model();
                if self.sm.push_code(code) {
                    self.buffer.push(code);
                }
                assert(rendered_of(cfg, seq![code]) =~= (if renders(cfg, code) {
                    seq![code]
                } else {
                    Seq::empty()
                })) by {
                    assert(seq![code].drop_last() =~= Seq::<i32>::empty());
                    assert(seq![code].last() == code);
                    assert(rendered_of(cfg, Seq::<i32>::empty()) == Seq::<i32>::empty());
                }
                assert(self.model().buffer =~= m2.buffer + rendered_of(cfg, seq![code]));
                let ghost next = wrap_word_model(cfg, w, a, self.model(), codes@.skip(i + 1));
                assert(o + (o2 + next.1) =~= blocks(out@) + next.1);
            }
            i = i + 1;
        }
    }

    /// Add a word that did not fit: as a whole if it fits now, else code by code.
    fn place_word(&mut self, codes: &[i32], out: &mut Vec<Vec<String>>)
        ensures
            old(self).same_setup(final(self)),
            final(self).model() == place_word(
                old(self).config(),
                old(self).spec_width() as int,
                old(self).spec_align(),
                old(self).model(),
                codes@,
            ).0,
            blocks(final(out)@) == blocks(old(out)@) + place_word(
                old(self).config(),
                old(self).spec_width() as int,
                old(self).spec_align(),
                old(self).model(),
                codes@,
            ).1,
    {
        if self.push_codes(codes).is_err() {
            self.wrap_word(codes, out);
        } else {
            assert(blocks(out@) + Seq::<Seq<Seq<char>>>::empty() =~= blocks(out@));
        }
    }

    /// Add a segment of codes (no newline) with wrapping.
    fn wrap_segment(&mut self, codes: &[i32], out: &mut Vec<Vec<String>>)
        ensures
            old(self).same_setup(final(self)),
            final(self).model() == wrap_segment_model(
                old(self).config(),
                old(self).spec_width() as int,
                old(self).spec_align(),
                old(self).model(),
                codes@,
            ).0,
            blocks(final(out)@) == blocks(old(out)@) + wrap_segment_model(
                old(self).config(),
                old(self).spec_width() as int,
                old(self).spec_align(),
                old(self).model(),
                codes@,
            ).1,
    {
        let ghost m = self.model();
        let ghost o = blocks(out@);
        let ghost cfg = self.config();
        let ghost w = self.spec_width() as int;
        let ghost a = self.spec_align();
        assert(o + Seq::<Seq<Seq<char>>>::empty() =~= o);
        if all_space_of(codes) {
            if self.buffer.is_empty() {
                let _ = self.push_codes(codes);
                return;
            }
            let mut p: Vec<i32> = match self.pending_space.take() {
                Some(p) => p,
                None => Vec::new(),
            };
            let ghost p0 = p@;
            let mut i: usize = 0;
            while i < codes.len()
                invariant
                    i <= codes@.len(),
                    p@ == p0 + codes@.take(i as int),
                decreases codes@.len() - i,
            {
                p.push(codes[i]);
                i = i + 1;
                assert(p@ =~= p0 + codes@.take(i as int));
            }
            assert(codes@.take(i as int) =~= codes@);
            assert(Seq::<i32>::empty() + codes@ =~= codes@);
            self.pending_space = Some(p);
            return;
        }
        let space = self.pending_space.take();
        if space.is_some() && !self.buffer.is_empty() {
            let sp = space.unwrap();
            let pre_len = self.buffer.len();
            if self.push_codes(sp.as_slice()).is_err() {
                self.flush_into(out);
                let ghost o1 = blocks(out@);
                self.place_word(codes, out);
                let ghost pw = place_word(cfg, w, a, flush_model(cfg, w, a, push_codes_model(cfg, w, WrapModel { pending: None, ..m }, sp@).0).0, codes@);
                assert(o1 + pw.1 =~= o + (seq![flush_model(cfg, w, a, push_codes_model(cfg, w, WrapModel { pending: None, ..m }, sp@).0).1] + pw.1));
                return;
            }
            if self.push_codes(codes).is_err() {
                self.buffer.truncate(pre_len);
                assert(self.buffer@ =~= m.buffer);
                self.rebuild();
                let ghost m3 = self.model();
                self.flush_into(out);
                let ghost o1 = blocks(out@);
                self.place_word(codes, out);
                let ghost pw = place_word(cfg, w, a, flush_model(cfg, w, a, m3).0, codes@);
                assert(o1 + pw.1 =~= o + (seq![flush_model(cfg, w, a, m3).1] + pw.1));
            }
            return;
        }
        if self.push_codes(codes).is_err() {
            let ghost m1 = self.model();
            if !self.buffer.is_empty() {
                self.flush_into(out);
                let ghost o1 = blocks(out@);
                self.place_word(codes, out);
                let ghost pw = place_word(cfg, w, a, flush_model(cfg, w, a, m1).0, codes@);
                assert(o1 + pw.1 =~= o + (seq![flush_model(cfg, w, a, m1).1] + pw.1));
            } else {
                self.place_word(codes, out);
            }
        }
    }

    /// Add character codes to the output buffer, wrapping them if necessary, and return the
    /// blocks of lines flushed on the way, in order.
    ///
    /// If the new codes cause the output to be wider than the maximum width, the current
    /// buffer contents (if any) are flushed, the buffer is cleared, and the new codes are
    /// added to the buffer. If the codes are wider than the output buffer, they are wrapped
    /// at code level. Newline codes (10) end a line; carriage returns (13, alone or before a
    /// newline) count as newlines.
    pub fn wrap_codes(&mut self, codes: &[i32]) -> (flushed: Vec<Vec<String>>)
        ensures
            old(self).same_setup(final(self)),
            (final(self).model(), blocks(flushed@)) == wrap_codes_model(
                old(self).config(),
                old(self).spec_width() as int,
                old(self).spec_align(),
                old(self).model(),
                codes@,
            ),
    {
        let ghost m = self.model();
        let ghost cfg = self.config();
        let ghost w = self.spec_width() as int;
        let ghost a = self.spec_align();
        let mut out: Vec<Vec<String>> = Vec::new();
        assert(blocks(out@) =~= Seq::<Seq<Seq<char>>>::empty());
        let normalized = normalize_newlines(codes);
        if !contains_newline(normalized.as_slice()) {
            self.wrap_segment(codes, &mut out);
            assert(Seq::<Seq<Seq<char>>>::empty() + wrap_segment_model(cfg, w, a, m, codes@).1 =~= wrap_segment_model(cfg, w, a, m, codes@).1);
            return out;
        }
        let parts = split_newlines(normalized.as_slice());
        let ghost ps = split_lines_codes(normalized@);
        proof {
            lemma_split_nonempty(normalized@, Seq::empty());
        }
        assert(parts@[0]@ == ps[0]);
        self.wrap_segment(parts[0].as_slice(), &mut out);
        let ghost o1 = blocks(out@);
        let ghost m1 = self.model();
        assert(o1 =~= wrap_segment_model(cfg, w, a, m, ps[0]).1);
        let mut i: usize = 1;
        assert(ps.skip(1) =~= ps.drop_first());
        while i < parts.len()
            invariant
                1 <= i <= parts@.len(),
                parts@.len() == ps.len(),
                forall|k: int| 0 <= k < ps.len() ==> (#[trigger] parts@[k])@ == ps[k],
                old(self).same_setup(self),
                cfg == old(self).config(),
                w == old(self).spec_width() as int,
                a == old(self).spec_align(),
                wrap_parts_model(cfg, w, a, m1, ps.drop_first()).0 == wrap_parts_model(
                    cfg,
                    w,
                    a,
                    self.model(),
                    ps.skip(i as int),
                ).0,
                o1 + wrap_parts_model(cfg, w, a, m1, ps.drop_first()).1 == blocks(out@)
                    + wrap_parts_model(cfg, w, a, self.model(), ps.skip(i as int)).1,
            decreases parts@.len() - i,
        {
            let ghost rest = ps.skip(i as int);
            assert(rest[0] == ps[i as int]);
            assert(rest.drop_first() =~= ps.skip(i + 1));
            let ghost mi = self.model();
            let ghost oi = blocks(out@);
            self.flush_into(&mut out);
            let ghost mf = self.model();
            let ghost of = blocks(out@);
            if parts[i].len() > 0 {
                self.wrap_segment(parts[i].as_slice(), &mut out);
            }
            let ghost seg: (WrapModel, Seq<Seq<Seq<char>>>) = if ps[i as int].len() == 0 {
                (mf, Seq::empty())
            } else {
                wrap_segment_model(cfg, w, a, mf, ps[i as int])
            };
            assert(blocks(out@) =~= of + seg.1);
            let ghost next = wrap_parts_model(cfg, w, a, self.model(), ps.skip(i + 1));
            assert(oi + (seq![flush_model(cfg, w, a, mi).1] + seg.1 + next.1) =~= blocks(out@) + next.1);
            i = i + 1;
        }
        assert(ps.skip(i as int) =~= Seq::<Seq<i32>>::empty());
        assert(blocks(out@) + Seq::<Seq<Seq<char>>>::empty() =~= blocks(out@));
        out
    }

    /// Add a string to the output buffer, wrapping it if necessary, and return the blocks
    /// of lines flushed on the way (see `wrap_codes`).
    pub fn wrap_str(&mut self, s: &str) -> (flushed: Vec<Vec<String>>)
        ensures
            old(self).same_setup(final(self)),
            (final(self).model(), blocks(flushed@)) == wrap_codes_model(
                old(self).config(),
                old(self).spec_width() as int,
                old(self).spec_align(),
                old(self).model(),
                codes_of(s@),
            ),
    {
        let codes = codes_from_str(s);
        self.wrap_codes(codes.as_slice())
    }
}

/// Check whether a code represents a horizontal whitespace character
/// (space, tab, line tabulation, form feed or carriage return).
pub fn is_space(code: i32) -> (b: bool)
    ensures
        b == is_space_code(code),
{
    code == 32 || code == 9 || (11 <= code && code <= 13)
}

fn all_space_of(codes: &[i32]) -> (b: bool)
    ensures
        b == all_space(codes@),
{
    let mut i: usize = 0;
    while i < codes.len()
        invariant
            i <= codes@.len(),
            forall|k: int| 0 <= k < i ==> is_space_code(#[trigger] codes@[k]),
        decreases codes@.len() - i,
    {
        if !is_space(codes[i]) {
            return false;
        }
        i = i + 1;
    }
    true
}

fn contains_newline(codes: &[i32]) -> (b: bool)
    ensures
        b == codes@.contains(10),
{
    let mut i: usize = 0;
    while i < codes.len()
        invariant
            i <= codes@.len(),
            forall|k: int| 0 <= k < i ==> #[trigger] codes@[k] != 10,
        decreases codes@.len() - i,
    {
        if codes[i] == 10 {
            assert(codes@[i as int] == 10);
            return true;
        }
        i = i + 1;
    }
    false
}

/// Normalize carriage return codes to newline codes.
/// \r\n (13, 10) becomes \n (10), bare \r (13) becomes \n (10).
pub fn normalize_newlines(codes: &[i32]) -> (r: Vec<i32>)
    ensures
        r@ == normalize(codes@),
{
    let mut result: Vec<i32> = Vec::new();
    let mut i: usize = 0;
    assert(codes@.skip(0) =~= codes@);
    assert(result@ + normalize(codes@) =~= normalize(codes@));
    while i < codes.len()
        invariant
            i <= codes@.len(),
            result@ + normalize(codes@.skip(i as int)) == normalize(codes@),
        decreases codes@.len() - i,
    {
        let ghost rest = codes@.skip(i as int);
        let ghost before = result@;
        if codes[i] == 13 && i + 1 < codes.len() && codes[i + 1] == 10 {
            assert(rest[0] == 13 && rest.len() > 1 && rest[1] == 10);
            assert(rest.skip(2) =~= codes@.skip(i + 2));
            result.push(10);
            i = i + 2;
        } else if codes[i] == 13 {
            assert(rest[0] == 13);
            assert(rest.drop_first() =~= codes@.skip(i + 1));
            result.push(10);
            i = i + 1;
        } else {
            assert(rest[0] == codes@[i as int]);
            assert(rest.drop_first() =~= codes@.skip(i + 1));
            result.push(codes[i]);
            i = i + 1;
        }
        assert(before + normalize(rest) =~= result@ + normalize(codes@.skip(i as int)));
    }
    assert(normalize(codes@.skip(i as int)) =~= Seq::<i32>::empty());
    assert(result@ + Seq::<i32>::empty() =~= result@);
    result
}

/// The parts of `codes` between newline codes (one more than there are newlines).
fn split_newlines(codes: &[i32]) -> (parts: Vec<Vec<i32>>)
    ensures
        parts@.len() == split_lines_codes(codes@).len(),
        forall|k: int| 0 <= k < parts@.len() ==> (#[trigger] parts@[k])@ == split_lines_codes(codes@)[k],
{
    let mut parts: Vec<Vec<i32>> = Vec::new();
    let mut cur: Vec<i32> = Vec::new();
    let mut i: usize = 0;
    assert(codes@.skip(0) =~= codes@);
    while i < codes.len()
        invariant
            i <= codes@.len(),
            split_lines_codes(codes@) == int_views(parts@) + split_from(codes@.skip(i as int), cur@),
        decreases codes@.len() - i,
    {
        let ghost rest = codes@.skip(i as int);
        assert(rest[0] == codes@[i as int]);
        assert(rest.drop_first() =~= codes@.skip(i + 1));
        if codes[i] == 10 {
            let ghost before = int_views(parts@);
            let done = cur;
            parts.push(done);
            cur = Vec::new();
            assert(int_views(parts@) =~= before.push(done@));
            assert(before + (seq![done@] + split_from(rest.drop_first(), Seq::empty())) =~= int_views(parts@) + split_from(codes@.skip(i + 1), cur@));
        } else {
            cur.push(codes[i]);
        }
        i = i + 1;
    }
    let ghost before = int_views(parts@);
    let done = cur;
    parts.push(done);
    assert(int_views(parts@) =~= before.push(done@));
    assert(split_from(codes@.skip(i as int), done@) =~= seq![done@]);
    assert(split_lines_codes(codes@) =~= int_views(parts@));
    proof {
        assert forall|k: int| 0 <= k < parts@.len() implies (#[trigger] parts@[k])@ == split_lines_codes(codes@)[k] by {
            assert(int_views(parts@)[k] == parts@[k]@);
        }
    }
    parts
}

proof fn lemma_split_nonempty(codes: Seq<i32>, cur: Seq<i32>)
    ensures
        split_from(codes, cur).len() >= 1,
    decreases codes.len(),
{
    if codes.len() > 0 {
        if codes[0] == 10 {
            lemma_split_nonempty(codes.drop_first(), Seq::empty());
        } else {
            lemma_split_nonempty(codes.drop_first(), cur.push(codes[0]));
        }
    }
}

/// The contents of each vector of codes.
pub open spec fn int_views(v: Seq<Vec<i32>>) -> Seq<Seq<i32>> {
    v.map_values(|p: Vec<i32>| p@)
}

/// The widest row is at least as wide as each row.
proof fn lemma_max_width_ge(rows: Seq<Seq<char>>, i: int)
    requires
        0 <= i < rows.len(),
    ensures
        display_width(rows[i]) <= max_width(rows),
        max_width(rows) >= 0,
    decreases rows.len(),
{
    if i < rows.len() - 1 {
        lemma_max_width_ge(rows.drop_last(), i);
    } else if rows.len() > 1 {
        lemma_max_width_ge(rows.drop_last(), 0);
    }
}

proof fn lemma_max_width_nonneg(rows: Seq<Seq<char>>)
    ensures
        max_width(rows) >= 0,
    decreases rows.len(),
{
    if rows.len() > 0 {
        lemma_max_width_nonneg(rows.drop_last());
    }
}

proof fn lemma_max_len_ge(rows: Seq<Seq<char>>, i: int)
    requires
        0 <= i < rows.len(),
    ensures
        rows[i].len() <= max_len(rows),
        max_len(rows) >= 0,
    decreases rows.len(),
{
    if i < rows.len() - 1 {
        lemma_max_len_ge(rows.drop_last(), i);
    } else if rows.len() > 1 {
        lemma_max_len_ge(rows.drop_last(), 0);
    }
}

/// Each line preceded by `pad_size` spaces.
pub fn add_pad(v: &[String], pad_size: usize) -> (r: Vec<String>)
    ensures
        string_views(r@) == string_views(v@).map_values(|l: Seq<char>| spaces(pad_size as int) + l),
{
    let mut r: Vec<String> = Vec::new();
    let mut i: usize = 0;
    while i < v.len()
        invariant
            i <= v@.len(),
            r@.len() == i,
            forall|k: int| 0 <= k < i ==> (#[trigger] r@[k])@ == spaces(pad_size as int) + v@[k]@,
        decreases v@.len() - i,
    {
        let cs = str_to_chars(v[i].as_str());
        let mut line: Vec<char> = Vec::new();
        let mut k: usize = 0;
        while k < pad_size
            invariant
                k <= pad_size,
                line@ == spaces(k as int),
            decreases pad_size - k,
        {
            line.push(' ');
            k = k + 1;
            assert(line@ =~= spaces(k as int));
        }
        let ghost head = line@;
        let mut j: usize = 0;
        while j < cs.len()
            invariant
                j <= cs@.len(),
                line@ == head + cs@.take(j as int),
            decreases cs@.len() - j,
        {
            line.push(cs[j]);
            j = j + 1;
            assert(line@ =~= head + cs@.take(j as int));
        }
        assert(cs@.take(j as int) =~= cs@);
        r.push(chars_to_string(line.as_slice()));
        i = i + 1;
    }
    assert(string_views(r@) =~= string_views(v@).map_values(|l: Seq<char>| spaces(pad_size as int) + l));
    r
}


/* Laws */

/// Every row has at most `width` characters.
pub open spec fn rows_within(rows: Seq<Seq<char>>, width: int) -> bool {
    forall|i: int| 0 <= i < rows.len() ==> #[trigger] rows[i].len() <= width
}

/// The lines are rows of at most `width` characters laid out within `width` columns: each
/// row padded to the display width of the widest, its hardblanks turned into spaces, and
/// shifted by the alignment.
pub open spec fn laid_out_within(lines: Seq<Seq<char>>, width: int) -> bool {
    exists|rows: Seq<Seq<char>>, hb: char, align: Align|
        #![trigger layout_lines(rows, hb, width, align)]
        rows_within(rows, width) && lines == layout_lines(rows, hb, width, align)
}

/// Every block is rows of at most `width` characters laid out within `width` columns.
pub open spec fn blocks_laid_out_within(bs: Seq<Seq<Seq<char>>>, width: int) -> bool {
    forall|i: int| 0 <= i < bs.len() ==> laid_out_within(#[trigger] bs[i], width)
}

proof fn lemma_max_len_trimmed(rows: Seq<Seq<char>>, w: int)
    requires
        w >= 0,
    ensures
        max_len(trim_rows(rows, w)) <= w,
    decreases rows.len(),
{
    if rows.len() > 0 {
        assert(trim_rows(rows, w).drop_last() =~= trim_rows(rows.drop_last(), w));
        lemma_max_len_trimmed(rows.drop_last(), w);
    }
}

proof fn lemma_max_len_nonneg(rows: Seq<Seq<char>>)
    ensures
        max_len(rows) >= 0,
    decreases rows.len(),
{
    if rows.len() > 0 {
        lemma_max_len_nonneg(rows.drop_last());
    }
}

proof fn lemma_blocks_laid_out_within_add(a: Seq<Seq<Seq<char>>>, b: Seq<Seq<Seq<char>>>, width: int)
    requires
        blocks_laid_out_within(a, width),
        blocks_laid_out_within(b, width),
    ensures
        blocks_laid_out_within(a + b, width),
{
    assert forall|i: int| 0 <= i < (a + b).len() implies laid_out_within(#[trigger] (a + b)[i], width) by {
        if i < a.len() {
            assert((a + b)[i] == a[i]);
        } else {
            assert((a + b)[i] == b[i - a.len()]);
        }
    }
}

/// Taking the output lays out rows of at most `width` characters: a wider output is cut.
pub proof fn law_get_lays_out_cut_rows(cfg: SmushConfig, width: int, align: Align, m: WrapModel)
    requires
        width >= 0,
    ensures
        laid_out_within(get_model(cfg, width, align, m).1, width),
{
    let m1 = committed(cfg, width, m);
    let rows = got_rows(cfg, width, m);
    if max_len(m1.st.rows) > width {
        lemma_max_len_trimmed(m1.st.rows, width);
    }
    assert forall|i: int| 0 <= i < rows.len() implies #[trigger] rows[i].len() <= width by {
        lemma_max_len_ge(rows, i);
    }
    assert(rows_within(rows, width));
    assert(get_model(cfg, width, align, m).1 == layout_lines(rows, cfg.hardblank, width, align));
}

proof fn lemma_max_width_is_max_len(rows: Seq<Seq<char>>)
    requires
        forall|i: int| 0 <= i < rows.len() ==> display_width(#[trigger] rows[i]) == rows[i].len(),
    ensures
        max_width(rows) == max_len(rows),
    decreases rows.len(),
{
    if rows.len() > 0 {
        let r = rows.drop_last();
        assert forall|i: int| 0 <= i < r.len() implies display_width(#[trigger] r[i]) == r[i].len() by {
            assert(r[i] == rows[i]);
        }
        lemma_max_width_is_max_len(r);
        assert(display_width(rows[rows.len() - 1]) == rows.last().len());
    }
}

/// Rows of at most `width` characters, each as many columns wide as it has characters (as
/// plain ASCII art is), are laid out in lines of at most `width` characters.
pub proof fn law_plain_rows_fit_width(rows: Seq<Seq<char>>, hb: char, width: int, align: Align)
    requires
        width >= 0,
        rows_within(rows, width),
        forall|i: int| 0 <= i < rows.len() ==> display_width(#[trigger] rows[i]) == rows[i].len(),
    ensures
        forall|i: int| 0 <= i < rows.len() ==> (#[trigger] layout_lines(rows, hb, width, align)[i]).len()
            <= width,
{
    lemma_max_width_is_max_len(rows);
    lemma_max_len_nonneg(rows);
    lemma_max_len_within(rows, width);
    let mw = max_width(rows);
    let g = spare_columns(rows, width);
    assert(g == width - mw);
    let pad = align_pad(align, g);
    assert(0 <= pad <= g);
    assert forall|i: int| 0 <= i < rows.len() implies (#[trigger] layout_lines(rows, hb, width, align)[i]).len()
        <= width by {
        lemma_max_len_ge(rows, i);
        assert(display_width(rows[i]) == rows[i].len());
        assert(layout_lines(rows, hb, width, align)[i] == spaces(pad) + replace_char(
            rows[i] + spaces(mw - display_width(rows[i])),
            hb,
        ));
        let line = layout_lines(rows, hb, width, align)[i];
        assert(line.len() == pad + rows[i].len() + (mw - display_width(rows[i])));
    }
}

proof fn lemma_max_len_within(rows: Seq<Seq<char>>, width: int)
    requires
        width >= 0,
        rows_within(rows, width),
    ensures
        max_len(rows) <= width,
    decreases rows.len(),
{
    if rows.len() > 0 {
        let r = rows.drop_last();
        assert forall|i: int| 0 <= i < r.len() implies #[trigger] r[i].len() <= width by {
            assert(r[i] == rows[i]);
        }
        lemma_max_len_within(r, width);
        assert(rows[rows.len() - 1].len() <= width);
    }
}

/// The three alignments lay out the same lines and differ only in the spaces before them:
/// with `g` the columns to spare beside the widest line, centring puts `g / 2 + g % 2`
/// spaces before each left-aligned line and right alignment `g`; what taking the output
/// leaves in the wrapper does not depend on the alignment.
pub proof fn law_alignments_shift_left_layout(cfg: SmushConfig, width: int, m: WrapModel)
    ensures
        ({
            let l = get_model(cfg, width, Align::Left, m);
            let c = get_model(cfg, width, Align::Center, m);
            let r = get_model(cfg, width, Align::Right, m);
            let g = spare_columns(got_rows(cfg, width, m), width);
            &&& c.0 == l.0 && r.0 == l.0
            &&& c.1.len() == l.1.len() && r.1.len() == l.1.len()
            &&& forall|i: int| 0 <= i < l.1.len() ==> #[trigger] c.1[i] == spaces(g / 2 + g % 2) + l.1[i]
            &&& forall|i: int| 0 <= i < l.1.len() ==> #[trigger] r.1[i] == spaces(g) + l.1[i]
        }),
{
    let rows = got_rows(cfg, width, m);
    let g = spare_columns(rows, width);
    let mw = max_width(rows);
    let hb = cfg.hardblank;
    let l = layout_lines(rows, hb, width, Align::Left);
    let c = layout_lines(rows, hb, width, Align::Center);
    let r = layout_lines(rows, hb, width, Align::Right);
    assert forall|i: int| 0 <= i < l.len() implies #[trigger] c[i] == spaces(g / 2 + g % 2) + l[i] by {
        let body = replace_char(rows[i] + spaces(mw - display_width(rows[i])), hb);
        assert(l[i] == spaces(0) + body);
        assert(spaces(0) + body =~= body);
        assert(c[i] == spaces(g / 2 + g % 2) + body);
    }
    assert forall|i: int| 0 <= i < l.len() implies #[trigger] r[i] == spaces(g) + l[i] by {
        let body = replace_char(rows[i] + spaces(mw - display_width(rows[i])), hb);
        assert(l[i] == spaces(0) + body);
        assert(spaces(0) + body =~= body);
        assert(r[i] == spaces(g) + body);
    }
}

/// Taking the output twice gives the same lines and leaves the same wrapper as taking it
/// once: the waiting whitespace is added and the output cut only the first time.
pub proof fn law_get_is_idempotent(cfg: SmushConfig, width: int, align: Align, m: WrapModel)
    requires
        width >= 0,
    ensures
        get_model(cfg, width, align, get_model(cfg, width, align, m).0) == get_model(
            cfg,
            width,
            align,
            m,
        ),
{
    let m1 = committed(cfg, width, m);
    let rows = got_rows(cfg, width, m);
    let m2 = get_model(cfg, width, align, m).0;
    if max_len(m1.st.rows) > width {
        lemma_max_len_trimmed(m1.st.rows, width);
    }
    assert(m2.pending is None);
    assert(committed(cfg, width, m2) == m2);
    assert(got_rows(cfg, width, m2) == rows);
    assert(SmushState { rows, ..m2.st } == m2.st);
}

/// Flushing lays out rows of at most `width` characters.
pub proof fn law_flush_lays_out_cut_rows(cfg: SmushConfig, width: int, align: Align, m: WrapModel)
    requires
        width >= 0,
    ensures
        laid_out_within(flush_model(cfg, width, align, m).1, width),
{
    law_get_lays_out_cut_rows(cfg, width, align, m);
}

proof fn lemma_wrap_word_fits(cfg: SmushConfig, width: int, align: Align, m: WrapModel, codes: Seq<i32>)
    requires
        width >= 0,
    ensures
        blocks_laid_out_within(wrap_word_model(cfg, width, align, m, codes).1, width),
    decreases codes.len(),
{
    if codes.len() > 0 {
        let c = codes[0];
        let (m1, ok) = push_codes_model(cfg, width, m, seq![c]);
        if ok {
            lemma_wrap_word_fits(cfg, width, align, m1, codes.drop_first());
        } else {
            let (m2, out) = if m1.buffer.len() > 0 {
                let (m3, lines) = flush_model(cfg, width, align, m1);
                (m3, seq![lines])
            } else {
                (m1, Seq::empty())
            };
            law_flush_lays_out_cut_rows(cfg, width, align, m1);
            assert(blocks_laid_out_within(out, width));
            let m4 = WrapModel {
                st: smush_step(cfg, m2.st, c),
                buffer: m2.buffer + rendered_of(cfg, seq![c]),
                ..m2
            };
            lemma_wrap_word_fits(cfg, width, align, m4, codes.drop_first());
            lemma_blocks_laid_out_within_add(out, wrap_word_model(cfg, width, align, m4, codes.drop_first()).1, width);
        }
    }
}

proof fn lemma_place_word_fits(cfg: SmushConfig, width: int, align: Align, m: WrapModel, codes: Seq<i32>)
    requires
        width >= 0,
    ensures
        blocks_laid_out_within(place_word(cfg, width, align, m, codes).1, width),
{
    let (m1, ok) = push_codes_model(cfg, width, m, codes);
    if !ok {
        lemma_wrap_word_fits(cfg, width, align, m1, codes);
    }
}

proof fn lemma_flush_then_place_fits(cfg: SmushConfig, width: int, align: Align, m: WrapModel, codes: Seq<i32>)
    requires
        width >= 0,
    ensures
        blocks_laid_out_within(
            seq![flush_model(cfg, width, align, m).1] + place_word(
                cfg,
                width,
                align,
                flush_model(cfg, width, align, m).0,
                codes,
            ).1,
            width,
        ),
{
    law_flush_lays_out_cut_rows(cfg, width, align, m);
    lemma_place_word_fits(cfg, width, align, flush_model(cfg, width, align, m).0, codes);
    lemma_blocks_laid_out_within_add(
        seq![flush_model(cfg, width, align, m).1],
        place_word(cfg, width, align, flush_model(cfg, width, align, m).0, codes).1,
        width,
    );
}

proof fn lemma_wrap_segment_fits(cfg: SmushConfig, width: int, align: Align, m: WrapModel, codes: Seq<i32>)
    requires
        width >= 0,
    ensures
        blocks_laid_out_within(wrap_segment_model(cfg, width, align, m, codes).1, width),
{
    if !all_space(codes) {
        let m0 = WrapModel { pending: None, ..m };
        if m.pending is Some && m.buffer.len() > 0 {
            let (m1, ok1) = push_codes_model(cfg, width, m0, m.pending.unwrap());
            if !ok1 {
                lemma_flush_then_place_fits(cfg, width, align, m1, codes);
            } else {
                let (m2, ok2) = push_codes_model(cfg, width, m1, codes);
                if !ok2 {
                    let m3 = WrapModel { st: replay(cfg, m.buffer), buffer: m.buffer, ..m2 };
                    lemma_flush_then_place_fits(cfg, width, align, m3, codes);
                }
            }
        } else {
            let (m1, ok1) = push_codes_model(cfg, width, m0, codes);
            if !ok1 {
                if m1.buffer.len() > 0 {
                    lemma_flush_then_place_fits(cfg, width, align, m1, codes);
                } else {
                    lemma_place_word_fits(cfg, width, align, m1, codes);
                }
            }
        }
    }
}

proof fn lemma_wrap_parts_fits(
    cfg: SmushConfig,
    width: int,
    align: Align,
    m: WrapModel,
    parts: Seq<Seq<i32>>,
)
    requires
        width >= 0,
    ensures
        blocks_laid_out_within(wrap_parts_model(cfg, width, align, m, parts).1, width),
        wrap_parts_model(cfg, width, align, m, parts).1.len() >= parts.len(),
    decreases parts.len(),
{
    if parts.len() > 0 {
        let (m1, lines) = flush_model(cfg, width, align, m);
        let (m2, o2) = if parts[0].len() == 0 {
            (m1, Seq::empty())
        } else {
            wrap_segment_model(cfg, width, align, m1, parts[0])
        };
        law_flush_lays_out_cut_rows(cfg, width, align, m);
        if parts[0].len() > 0 {
            lemma_wrap_segment_fits(cfg, width, align, m1, parts[0]);
        }
        lemma_wrap_parts_fits(cfg, width, align, m2, parts.drop_first());
        let o3 = wrap_parts_model(cfg, width, align, m2, parts.drop_first()).1;
        lemma_blocks_laid_out_within_add(seq![lines], o2, width);
        lemma_blocks_laid_out_within_add(seq![lines] + o2, o3, width);
    }
}

/// Every block that wrapping flushes on the way lays out rows of at most `width` characters.
pub proof fn law_wrapped_blocks_lay_out_cut_rows(cfg: SmushConfig, width: int, align: Align, m: WrapModel, codes: Seq<i32>)
    requires
        width >= 0,
    ensures
        blocks_laid_out_within(wrap_codes_model(cfg, width, align, m, codes).1, width),
{
    let n = normalize(codes);
    if n.contains(10) {
        let parts = split_lines_codes(n);
        let (m1, o1) = wrap_segment_model(cfg, width, align, m, parts[0]);
        lemma_wrap_segment_fits(cfg, width, align, m, parts[0]);
        lemma_wrap_parts_fits(cfg, width, align, m1, parts.drop_first());
        lemma_blocks_laid_out_within_add(o1, wrap_parts_model(cfg, width, align, m1, parts.drop_first()).1, width);
    } else {
        lemma_wrap_segment_fits(cfg, width, align, m, codes);
    }
}


/// The number of times `c` occurs in `s`.
pub open spec fn count_of(s: Seq<i32>, c: i32) -> int
    decreases s.len(),
{
    if s.len() == 0 {
        0
    } else {
        count_of(s.drop_first(), c) + if s[0] == c {
            1int
        } else {
            0int
        }
    }
}

proof fn lemma_split_count(codes: Seq<i32>, cur: Seq<i32>)
    ensures
        split_from(codes, cur).len() == count_of(codes, 10) + 1,
    decreases codes.len(),
{
    if codes.len() > 0 {
        if codes[0] == 10 {
            lemma_split_count(codes.drop_first(), Seq::empty());
        } else {
            lemma_split_count(codes.drop_first(), cur.push(codes[0]));
        }
    }
}

proof fn lemma_count_zero(s: Seq<i32>, c: i32)
    requires
        !s.contains(c),
    ensures
        count_of(s, c) == 0,
    decreases s.len(),
{
    if s.len() > 0 {
        assert(s[0] != c) by {
            if s[0] == c {
                assert(s.contains(c));
            }
        }
        assert(!s.drop_first().contains(c)) by {
            if s.drop_first().contains(c) {
                let i = choose|i: int| 0 <= i < s.drop_first().len() && s.drop_first()[i] == c;
                assert(s[i + 1] == c);
            }
        }
        lemma_count_zero(s.drop_first(), c);
    }
}

/// Every newline ends a line: wrapping flushes at least one block per newline (after
/// carriage returns became newlines).
pub proof fn law_newline_flushes(cfg: SmushConfig, width: int, align: Align, m: WrapModel, codes: Seq<i32>)
    ensures
        wrap_codes_model(cfg, width, align, m, codes).1.len() >= count_of(normalize(codes), 10),
{
    let n = normalize(codes);
    if n.contains(10) {
        let parts = split_lines_codes(n);
        lemma_split_count(n, Seq::empty());
        let (m1, o1) = wrap_segment_model(cfg, width, align, m, parts[0]);
        lemma_wrap_parts_len(cfg, width, align, m1, parts.drop_first());
    } else {
        lemma_count_zero(n, 10);
    }
}

proof fn lemma_wrap_parts_len(
    cfg: SmushConfig,
    width: int,
    align: Align,
    m: WrapModel,
    parts: Seq<Seq<i32>>,
)
    ensures
        wrap_parts_model(cfg, width, align, m, parts).1.len() >= parts.len(),
    decreases parts.len(),
{
    if parts.len() > 0 {
        let (m1, lines) = flush_model(cfg, width, align, m);
        let (m2, o2) = if parts[0].len() == 0 {
            (m1, Seq::empty())
        } else {
            wrap_segment_model(cfg, width, align, m1, parts[0])
        };
        lemma_wrap_parts_len(cfg, width, align, m2, parts.drop_first());
    }
}

/// Normalizing leaves no carriage return.
pub proof fn law_normalize_removes_carriage_returns(codes: Seq<i32>)
    ensures
        !normalize(codes).contains(13),
    decreases codes.len(),
{
    if codes.len() > 0 {
        if codes[0] == 13 && codes.len() > 1 && codes[1] == 10 {
            law_normalize_removes_carriage_returns(codes.skip(2));
            lemma_not_contains_prepend(seq![10i32], normalize(codes.skip(2)), 13);
        } else if codes[0] == 13 {
            law_normalize_removes_carriage_returns(codes.drop_first());
            lemma_not_contains_prepend(seq![10i32], normalize(codes.drop_first()), 13);
        } else {
            law_normalize_removes_carriage_returns(codes.drop_first());
            lemma_not_contains_prepend(seq![codes[0]], normalize(codes.drop_first()), 13);
        }
    }
}

/// Codes without carriage returns are left as they are.
pub proof fn law_normalize_keeps_codes_without_carriage_returns(codes: Seq<i32>)
    requires
        !codes.contains(13),
    ensures
        normalize(codes) == codes,
    decreases codes.len(),
{
    if codes.len() > 0 {
        assert(codes[0] != 13) by {
            if codes[0] == 13 {
                assert(codes.contains(13));
            }
        }
        assert(!codes.drop_first().contains(13)) by {
            if codes.drop_first().contains(13) {
                let i = choose|i: int| 0 <= i < codes.drop_first().len() && codes.drop_first()[i] == 13;
                assert(codes[i + 1] == 13);
            }
        }
        law_normalize_keeps_codes_without_carriage_returns(codes.drop_first());
        assert(seq![codes[0]] + codes.drop_first() =~= codes);
    }
}

proof fn lemma_not_contains_prepend(a: Seq<i32>, b: Seq<i32>, c: i32)
    requires
        !a.contains(c),
        !b.contains(c),
    ensures
        !(a + b).contains(c),
{
    if (a + b).contains(c) {
        let i = choose|i: int| 0 <= i < (a + b).len() && (a + b)[i] == c;
        if i < a.len() {
            assert(a[i] == c);
        } else {
            assert(b[i - a.len()] == c);
        }
    }
}

/// The output is what the buffered codes render from an empty output.
pub open spec fn consistent(cfg: SmushConfig, m: WrapModel) -> bool {
    m.st == replay(cfg, m.buffer)
}

proof fn lemma_smush_all_add(cfg: SmushConfig, st: SmushState, a: Seq<i32>, b: Seq<i32>)
    ensures
        smush_all(cfg, smush_all(cfg, st, a), b) == smush_all(cfg, st, a + b),
    decreases b.len(),
{
    if b.len() == 0 {
        assert(a + b =~= a);
    } else {
        lemma_smush_all_add(cfg, st, a, b.drop_last());
        assert((a + b).drop_last() =~= a + b.drop_last());
        assert((a + b).last() == b.last());
    }
}

proof fn lemma_smush_all_rendered(cfg: SmushConfig, st: SmushState, codes: Seq<i32>)
    ensures
        smush_all(cfg, st, codes) == smush_all(cfg, st, rendered_of(cfg, codes)),
    decreases codes.len(),
{
    if codes.len() > 0 {
        lemma_smush_all_rendered(cfg, st, codes.drop_last());
        let r = rendered_of(cfg, codes.drop_last());
        if renders(cfg, codes.last()) {
            assert(r.push(codes.last()).drop_last() =~= r);
        }
    }
}

/// A refused push changes nothing: when the output is what the buffer renders, codes that
/// would make it wider than the width leave output and buffer as they were.
pub proof fn law_refused_push_changes_nothing(cfg: SmushConfig, width: int, m: WrapModel, codes: Seq<i32>)
    requires
        consistent(cfg, m),
        !push_codes_model(cfg, width, m, codes).1,
    ensures
        push_codes_model(cfg, width, m, codes).0 == m,
{
}

/// An accepted push keeps the output within the width.
pub proof fn law_accepted_push_fits(cfg: SmushConfig, width: int, m: WrapModel, codes: Seq<i32>)
    requires
        push_codes_model(cfg, width, m, codes).1,
    ensures
        max_len(push_codes_model(cfg, width, m, codes).0.st.rows) <= width,
{
}

/// Pushing keeps the output what the buffer renders, whether the codes are accepted or not.
pub proof fn law_push_keeps_consistency(cfg: SmushConfig, width: int, m: WrapModel, codes: Seq<i32>)
    requires
        consistent(cfg, m),
    ensures
        consistent(cfg, push_codes_model(cfg, width, m, codes).0),
{
    lemma_smush_all_add(cfg, initial_state(cfg), m.buffer, codes);
    lemma_smush_all_add(cfg, initial_state(cfg), m.buffer, rendered_of(cfg, codes));
    lemma_smush_all_rendered(cfg, m.st, codes);
}

/// A cleared wrapper is empty and its output is what its (empty) buffer renders.
pub proof fn law_clear_is_consistent(cfg: SmushConfig)
    ensures
        consistent(cfg, clear_model(cfg)),
        clear_model(cfg).buffer.len() == 0,
{
}

} // verus!
