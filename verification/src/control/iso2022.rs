use vstd::prelude::*;

verus! {

/// The largest base code a G-register holds: a designating byte times 65536, plus 0x80.
pub open spec fn max_base() -> int {
    0xFF0080
}

/// The decoder state, as plain values: the position of the next byte, the base code and
/// double-byte flag of each G-register, the registers invoked into GL and GR, and a
/// pending single shift.
pub struct IsoModel {
    pub pos: int,
    pub gn: Seq<i32>,
    pub gndbl: Seq<bool>,
    pub gl: int,
    pub gr: int,
    pub single_shift: Option<int>,
}

/// A model the decoder can be in: four registers, each base in range, GL and GR naming one.
pub open spec fn model_wf(m: IsoModel) -> bool {
    &&& m.gn.len() == 4
    &&& m.gndbl.len() == 4
    &&& forall|i: int| 0 <= i < 4 ==> 0 <= #[trigger] m.gn[i] <= max_base()
    &&& 0 <= m.gl < 4
    &&& 0 <= m.gr < 4
    &&& (m.single_shift matches Some(k) ==> 0 <= k < 4)
}

/// Read one byte: the byte, or 0 without moving at the end of the input.
pub open spec fn model_read(b: Seq<u8>, m: IsoModel) -> (u8, IsoModel) {
    if 0 <= m.pos < b.len() {
        (b[m.pos], IsoModel { pos: m.pos + 1, ..m })
    } else {
        (0, m)
    }
}

/// Designate register `reg` from the next byte: `kind` is 94, 96 or 9999 (94x94).
/// The final byte 'B' (94-sets) or 'A' (96-sets and 94x94-sets) stands for the default set 0.
pub open spec fn model_designate(b: Seq<u8>, m: IsoModel, reg: int, kind: int) -> IsoModel {
    let (d0, m1) = model_read(b, m);
    let d: int = if (kind == 94 && d0 == 66) || ((kind == 96 || kind == 9999) && d0 == 65) {
        0
    } else {
        d0 as int
    };
    if kind == 9999 {
        IsoModel { gn: m1.gn.update(reg, (d * 65536) as i32), gndbl: m1.gndbl.update(reg, true), ..m1 }
    } else if kind == 96 {
        IsoModel {
            gn: m1.gn.update(reg, (d * 65536 + 0x80) as i32),
            gndbl: m1.gndbl.update(reg, false),
            ..m1
        }
    } else {
        IsoModel { gn: m1.gn.update(reg, (d * 65536) as i32), gndbl: m1.gndbl.update(reg, false), ..m1 }
    }
}

/// The code of a graphic byte `ch` (already consumed) in model `m`.
pub open spec fn model_decode_char(b: Seq<u8>, ch: u8, m: IsoModel) -> (Option<i32>, IsoModel) {
    if 0x21 <= ch <= 0x7E {
        let g = match m.single_shift {
            Some(k) => k,
            None => m.gl,
        };
        let m1 = IsoModel { single_shift: None, ..m };
        if m1.gndbl[g] {
            let (ch2, m2) = model_read(b, m1);
            (Some((m1.gn[g] + ch * 256 + ch2) as i32), m2)
        } else {
            (Some((m1.gn[g] + ch) as i32), m1)
        }
    } else if 0xA0 <= ch {
        if m.gndbl[m.gr] {
            let (ch2, m2) = model_read(b, m);
            (Some((m.gn[m.gr] + ch * 256 + ch2) as i32), m2)
        } else {
            (Some((m.gn[m.gr] + ch - 0x80) as i32), m)
        }
    } else {
        (Some(ch as i32), m)
    }
}

/// The rest of an escape sequence, after ESC and the byte `second` that follows it
/// (0 at the end of the input): the designation or shift it makes, then the next code.
pub open spec fn model_escape(b: Seq<u8>, second: u8, m2: IsoModel) -> (Option<i32>, IsoModel)
    decreases b.len() - m2.pos + 1, 0int,
{
    if !(0 <= m2.pos <= b.len()) {
        (None, m2)
    } else {
        if second == 36 {
            // ESC $ F: a 94x94 set
            let (c, m3) = model_read(b, m2);
            if c == 40 {
                model_next(b, model_designate(b, m3, 0, 9999))
            } else if c == 41 {
                model_next(b, model_designate(b, m3, 1, 9999))
            } else if c == 42 {
                model_next(b, model_designate(b, m3, 2, 9999))
            } else if c == 43 {
                model_next(b, model_designate(b, m3, 3, 9999))
            } else {
                // Deprecated ESC $ F without the parenthesis: G0 becomes a 94x94 set
                model_next(
                    b,
                    IsoModel {
                        gn: m3.gn.update(0, (c * 65536) as i32),
                        gndbl: m3.gndbl.update(0, true),
                        ..m3
                    },
                )
            }
        } else if second == 78 {
            model_next(b, IsoModel { single_shift: Some(2), ..m2 })
        } else if second == 79 {
            model_next(b, IsoModel { single_shift: Some(3), ..m2 })
        } else if second == 110 {
            model_next(b, IsoModel { gl: 2, ..m2 })
        } else if second == 111 {
            model_next(b, IsoModel { gl: 3, ..m2 })
        } else if second == 126 {
            model_next(b, IsoModel { gr: 1, ..m2 })
        } else if second == 125 {
            model_next(b, IsoModel { gr: 2, ..m2 })
        } else if second == 124 {
            model_next(b, IsoModel { gr: 3, ..m2 })
        } else if second == 40 {
            model_next(b, model_designate(b, m2, 0, 94))
        } else if second == 41 {
            model_next(b, model_designate(b, m2, 1, 94))
        } else if second == 42 {
            model_next(b, model_designate(b, m2, 2, 94))
        } else if second == 43 {
            model_next(b, model_designate(b, m2, 3, 94))
        } else if second == 45 {
            model_next(b, model_designate(b, m2, 1, 96))
        } else if second == 46 {
            model_next(b, model_designate(b, m2, 2, 96))
        } else if second == 47 {
            model_next(b, model_designate(b, m2, 3, 96))
        } else {
            // Other escape sequences are dropped
            model_next(b, m2)
        }
    }
}

/// The next code of the input `b` from model `m`, and the model after it. Shift codes
/// (SO, SI, SS2, SS3) and escape sequences change the model and yield no code of their own.
pub open spec fn model_next(b: Seq<u8>, m: IsoModel) -> (Option<i32>, IsoModel)
    decreases b.len() - m.pos, 1int,
{
    if m.pos < 0 || m.pos >= b.len() {
        (None, m)
    } else {
        let ch = b[m.pos];
        let m1 = IsoModel { pos: m.pos + 1, ..m };
        if ch == 0x0E {
            model_next(b, IsoModel { single_shift: None, gl: 1, ..m1 })
        } else if ch == 0x0F {
            model_next(b, IsoModel { single_shift: None, gl: 0, ..m1 })
        } else if ch == 0x8E {
            model_next(b, IsoModel { single_shift: Some(2), ..m1 })
        } else if ch == 0x8F {
            model_next(b, IsoModel { single_shift: Some(3), ..m1 })
        } else if ch == 27 {
            let (second, m2) = model_read(b, IsoModel { single_shift: None, ..m1 });
            model_escape(b, second, m2)
        } else {
            model_decode_char(b, ch, m1)
        }
    }
}

/// The model of a fresh decoder with the default settings: G0 is ASCII, G1 the upper
/// half of Latin-1, G0 in GL and G1 in GR.
pub open spec fn default_model() -> IsoModel {
    IsoModel {
        pos: 0,
        gn: seq![0i32, 0x80i32, 0i32, 0i32],
        gndbl: seq![false, false, false, false],
        gl: 0,
        gr: 1,
        single_shift: None,
    }
}


/// Every code that decoding the input `b` from model `m` yields, in order.
pub open spec fn model_decode_from(b: Seq<u8>, m: IsoModel) -> Seq<i32>
    decreases b.len() - m.pos,
{
    let (r, m1) = model_next(b, m);
    match r {
        None => Seq::empty(),
        Some(c) => if m.pos < m1.pos <= b.len() {
            seq![c] + model_decode_from(b, m1)
        } else {
            seq![c]
        },
    }
}

/// Decoding moves forward within the input: a yielded code comes after at least one byte.
pub proof fn lemma_model_next_progress(b: Seq<u8>, m: IsoModel)
    requires
        0 <= m.pos,
    ensures
        ({
            let (r, m1) = model_next(b, m);
            &&& m.pos <= m1.pos
            &&& (m.pos <= b.len() ==> m1.pos <= b.len())
            &&& (r is Some ==> m.pos < m1.pos <= b.len())
        }),
    decreases b.len() - m.pos, 1int,
{
    if 0 <= m.pos < b.len() {
        let ch = b[m.pos];
        let m1 = IsoModel { pos: m.pos + 1, ..m };
        if ch == 0x0E {
            lemma_model_next_progress(b, IsoModel { single_shift: None, gl: 1, ..m1 });
        } else if ch == 0x0F {
            lemma_model_next_progress(b, IsoModel { single_shift: None, gl: 0, ..m1 });
        } else if ch == 0x8E {
            lemma_model_next_progress(b, IsoModel { single_shift: Some(2), ..m1 });
        } else if ch == 0x8F {
            lemma_model_next_progress(b, IsoModel { single_shift: Some(3), ..m1 });
        } else if ch == 27 {
            let (second, m2) = model_read(b, IsoModel { single_shift: None, ..m1 });
            lemma_model_escape_progress(b, second, m2);
        }
    }
}

/// The same for the rest of an escape sequence.
pub proof fn lemma_model_escape_progress(b: Seq<u8>, second: u8, m2: IsoModel)
    requires
        1 <= m2.pos,
    ensures
        ({
            let (r, m1) = model_escape(b, second, m2);
            &&& m2.pos <= m1.pos
            &&& (m2.pos <= b.len() ==> m1.pos <= b.len())
            &&& (r is Some ==> m2.pos - 1 < m1.pos <= b.len())
        }),
    decreases b.len() - m2.pos + 1, 0int,
{
    if 0 <= m2.pos <= b.len() {
        if second == 36 {
            let (c, m3) = model_read(b, m2);
            if 40 <= c <= 43 {
                lemma_model_next_progress(b, model_designate(b, m3, (c - 40) as int, 9999));
            } else {
                lemma_model_next_progress(
                    b,
                    IsoModel {
                        gn: m3.gn.update(0, (c * 65536) as i32),
                        gndbl: m3.gndbl.update(0, true),
                        ..m3
                    },
                );
            }
        } else if second == 78 {
            lemma_model_next_progress(b, IsoModel { single_shift: Some(2), ..m2 });
        } else if second == 79 {
            lemma_model_next_progress(b, IsoModel { single_shift: Some(3), ..m2 });
        } else if second == 110 {
            lemma_model_next_progress(b, IsoModel { gl: 2, ..m2 });
        } else if second == 111 {
            lemma_model_next_progress(b, IsoModel { gl: 3, ..m2 });
        } else if second == 126 {
            lemma_model_next_progress(b, IsoModel { gr: 1, ..m2 });
        } else if second == 125 {
            lemma_model_next_progress(b, IsoModel { gr: 2, ..m2 });
        } else if second == 124 {
            lemma_model_next_progress(b, IsoModel { gr: 3, ..m2 });
        } else if 40 <= second <= 43 {
            lemma_model_next_progress(b, model_designate(b, m2, (second - 40) as int, 94));
        } else if 45 <= second <= 47 {
            lemma_model_next_progress(b, model_designate(b, m2, (second - 44) as int, 96));
        } else {
            lemma_model_next_progress(b, m2);
        }
    }
}

/// ESC $ F without a parenthesis (the older form of ISO-2022-JP) makes G0 a 94x94 set with
/// final byte F: with G0 in GL, the two graphic bytes that follow are one character, whose
/// code is F * 65536 + b1 * 256 + b2, and decoding goes on after them.
pub proof fn law_escape_dollar_designates_double_byte_g0(b: Seq<u8>, m: IsoModel)
    requires
        model_wf(m),
        m.gl == 0,
        0 <= m.pos,
        m.pos + 5 <= b.len(),
        b[m.pos] == 27,
        b[m.pos + 1] == 36,
        !(40 <= b[m.pos + 2] <= 43),
        0x21 <= b[m.pos + 3] <= 0x7E,
        0x21 <= b[m.pos + 4] <= 0x7E,
    ensures
        model_next(b, m).0 == Some(
            (b[m.pos + 2] * 65536 + b[m.pos + 3] * 256 + b[m.pos + 4]) as i32,
        ),
        model_next(b, m).1.pos == m.pos + 5,
        model_next(b, m).1.gndbl[0],
{
    let p = m.pos;
    let m1 = IsoModel { pos: p + 1, ..m };
    let m2 = IsoModel { pos: p + 2, single_shift: None, ..m };
    assert(model_read(b, IsoModel { single_shift: None, ..m1 }) == (36u8, m2));
    assert(model_next(b, m) == model_escape(b, 36, m2));
    let c = b[p + 2];
    let m3 = IsoModel { pos: p + 3, ..m2 };
    assert(model_read(b, m2) == (c, m3));
    let m4 = IsoModel { gn: m3.gn.update(0, (c * 65536) as i32), gndbl: m3.gndbl.update(0, true), ..m3 };
    assert(model_escape(b, 36, m2) == model_next(b, m4));
    let b1 = b[p + 3];
    let m5 = IsoModel { pos: p + 4, ..m4 };
    assert(model_next(b, m4) == model_decode_char(b, b1, m5));
    let m6 = IsoModel { single_shift: None, ..m5 };
    assert(m6 == m5);
    assert(m5.gndbl[0]);
    assert(m5.gn[0] == (c * 65536) as i32);
    assert(model_read(b, m5) == (b[p + 4], IsoModel { pos: p + 5, ..m5 }));
}

/// A byte that neither shifts (SO, SI, SS2, SS3) nor escapes (ESC).
pub open spec fn is_plain_byte(x: u8) -> bool {
    x != 0x0E && x != 0x0F && x != 0x8E && x != 0x8F && x != 27
}

/// With the default settings, a byte that neither shifts nor escapes is its own code:
/// graphic ASCII from G0, the upper half of Latin-1 from G1, controls as they are.
pub proof fn law_default_plain_bytes_pass_through(b: Seq<u8>)
    requires
        forall|i: int| 0 <= i < b.len() ==> is_plain_byte(#[trigger] b[i]),
    ensures
        model_decode_from(b, default_model()) == b.map_values(|x: u8| x as i32),
{
    lemma_default_from(b, 0);
    assert(b.subrange(0, b.len() as int) =~= b);
}

proof fn lemma_default_from(b: Seq<u8>, pos: int)
    requires
        0 <= pos <= b.len(),
        forall|i: int| 0 <= i < b.len() ==> is_plain_byte(#[trigger] b[i]),
    ensures
        model_decode_from(b, IsoModel { pos, ..default_model() }) == b.subrange(
            pos,
            b.len() as int,
        ).map_values(|x: u8| x as i32),
    decreases b.len() - pos,
{
    let m = IsoModel { pos, ..default_model() };
    if pos < b.len() {
        let x = b[pos];
        assert(is_plain_byte(x));
        let (r, m1) = model_next(b, m);
        assert(r == Some(x as i32));
        assert(m1 == IsoModel { pos: pos + 1, ..default_model() });
        lemma_default_from(b, pos + 1);
        assert(b.subrange(pos, b.len() as int).map_values(|x: u8| x as i32) =~= seq![x as i32]
            + b.subrange(pos + 1, b.len() as int).map_values(|x: u8| x as i32));
    } else {
        assert(b.subrange(pos, b.len() as int).map_values(|x: u8| x as i32) =~= Seq::<i32>::empty());
    }
}

/// A single shift lasts one character: the graphic byte after SS2 or SS3 decodes from
/// the shifted register, and the shift is then gone while GL stays as it was.
pub proof fn law_single_shift_lasts_one_char(b: Seq<u8>, ch: u8, m: IsoModel, k: int)
    requires
        model_wf(m),
        0x21 <= ch <= 0x7E,
        m.single_shift == Some(k),
        !m.gndbl[k],
    ensures
        ({
            let (r, m1) = model_decode_char(b, ch, m);
            &&& r == Some((m.gn[k] + ch) as i32)
            &&& m1.single_shift is None
            &&& m1.gl == m.gl
            &&& m1.pos == m.pos
        }),
{
}

/// A G-register's character set: its base code and whether its characters take two bytes.
#[derive(Debug, Clone, Copy)]
pub struct Iso2022GSet {
    pub(super) base_code: i32,
    pub(super) double_byte: bool,
}

/// ISO 2022 character set state, accumulated from "g" commands in control files.
#[derive(Debug)]
pub struct Iso2022Settings {
    pub(super) g_sets: [Option<Iso2022GSet>; 4],
    pub(super) left_half: usize,
    pub(super) right_half: usize,
}

impl Iso2022Settings {
    #[verifier::type_invariant]
    spec fn inv(self) -> bool {
        &&& self.left_half < 4
        &&& self.right_half < 4
        &&& forall|i: int|
            0 <= i < 4 ==> (#[trigger] self.g_sets@[i] matches Some(g) ==> 0 <= g.base_code
                <= max_base())
    }

    /// The model of a fresh decoder built from these settings: a register with no set
    /// has base 0 and single bytes.
    pub closed spec fn initial_model(&self) -> IsoModel {
        IsoModel {
            pos: 0,
            gn: Seq::new(
                4,
                |i: int|
                    match self.g_sets@[i] {
                        Some(g) => g.base_code,
                        None => 0i32,
                    },
            ),
            gndbl: Seq::new(
                4,
                |i: int|
                    match self.g_sets@[i] {
                        Some(g) => g.double_byte,
                        None => false,
                    },
            ),
            gl: self.left_half as int,
            gr: self.right_half as int,
            single_shift: None,
        }
    }

    /// Build a decoder over no input with these settings.
    pub fn build_decoder(&self) -> (d: Iso2022Decoder<'_>)
        ensures
            d.input() == Seq::<u8>::empty(),
            d.model() == self.initial_model(),
    {
        proof { use_type_invariant(self); }
        let mut gn = [0i32; 4];
        let mut gndbl = [false; 4];
        let mut i: usize = 0;
        while i < 4
            invariant
                0 <= i <= 4,
                forall|j: int| 0 <= j < i ==> gn@[j] == (match #[trigger] self.g_sets@[j] {
                    Some(g) => g.base_code,
                    None => 0i32,
                }),
                forall|j: int| 0 <= j < i ==> gndbl@[j] == (match #[trigger] self.g_sets@[j] {
                    Some(g) => g.double_byte,
                    None => false,
                }),
                forall|j: int| i <= j < 4 ==> gn@[j] == 0 && !gndbl@[j],
                forall|j: int|
                    0 <= j < 4 ==> (#[trigger] self.g_sets@[j] matches Some(g) ==> 0 <= g.base_code
                        <= max_base()),
            decreases 4 - i,
        {
            if let Some(gs) = &self.g_sets[i] {
                gn[i] = gs.base_code;
                gndbl[i] = gs.double_byte;
            }
            i = i + 1;
        }
        assert forall|j: int| 0 <= j < 4 implies 0 <= #[trigger] gn@[j] <= max_base() by {
            if let Some(g) = self.g_sets@[j] {
            }
        }
        let d = Iso2022Decoder {
            bytes: &[],
            pos: 0,
            gn,
            gndbl,
            gl: self.left_half,
            gr: self.right_half,
            single_shift: None,
        };
        assert(d.model().gn =~= self.initial_model().gn);
        assert(d.model().gndbl =~= self.initial_model().gndbl);
        d
    }
}

impl Clone for Iso2022Settings {
    fn clone(&self) -> (r: Self)
        ensures
            r == *self,
    {
        proof { use_type_invariant(self); }
        Iso2022Settings { g_sets: self.g_sets, left_half: self.left_half, right_half: self.right_half }
    }
}

impl Default for Iso2022Settings {
    fn default() -> (s: Self)
        ensures
            s.initial_model() == default_model(),
    {
        let s = Self {
            g_sets: [
                Some(Iso2022GSet { base_code: 0, double_byte: false }),
                Some(Iso2022GSet { base_code: 0x80, double_byte: false }),
                None,
                None,
            ],
            left_half: 0,
            right_half: 1,
        };
        assert(s.initial_model().gn =~= default_model().gn);
        assert(s.initial_model().gndbl =~= default_model().gndbl);
        s
    }
}

/// ISO 2022 stream-level decoder.
///
/// Consumes raw bytes, intercepts ESC sequences to switch G-registers,
/// and yields one `i32` character code per call.
pub struct Iso2022Decoder<'a> {
    bytes: &'a [u8],
    pos: usize,
    gn: [i32; 4],
    gndbl: [bool; 4],
    gl: usize,
    gr: usize,
    single_shift: Option<usize>,
}

impl<'a> Iso2022Decoder<'a> {
    #[verifier::type_invariant]
    spec fn inv(self) -> bool {
        &&& self.pos <= self.bytes@.len()
        &&& model_wf(self.model())
    }

    /// The bytes being decoded.
    pub closed spec fn input(&self) -> Seq<u8> {
        self.bytes@
    }

    /// The codes that the remaining calls of `next` will yield.
    pub open spec fn remaining(&self) -> Seq<i32> {
        model_decode_from(self.input(), self.model())
    }

    /// The decoder's state as plain values.
    pub closed spec fn model(&self) -> IsoModel {
        IsoModel {
            pos: self.pos as int,
            gn: self.gn@,
            gndbl: self.gndbl@,
            gl: self.gl as int,
            gr: self.gr as int,
            single_shift: match self.single_shift {
                Some(k) => Some(k as int),
                None => None,
            },
        }
    }
}

impl<'a> Iso2022Decoder<'a> {
    /// Start decoding `bytes` from their first byte, keeping the register state.
    pub fn set_input(&mut self, bytes: &'a [u8])
        ensures
            final(self).input() == bytes@,
            final(self).model() == (IsoModel { pos: 0, ..old(self).model() }),
    {
        proof { use_type_invariant(&*self); }
        self.pos = 0;
        self.bytes = bytes;
    }

    /// Return the next character code from the input stream.
    pub fn next(&mut self) -> (r: Option<i32>)
        ensures
            final(self).input() == old(self).input(),
            (r, final(self).model()) == model_next(old(self).input(), old(self).model()),
            match r {
                Some(c) => old(self).remaining() == seq![c] + final(self).remaining(),
                None => old(self).remaining() == Seq::<i32>::empty(),
            },
        decreases old(self).input().len() - old(self).model().pos, 1int,
    {
        proof {
            use_type_invariant(&*self);
            lemma_model_next_progress(self.bytes@, self.model());
        }
        if self.pos >= self.bytes.len() {
            return None;
        }
        let ch = self.read_byte().unwrap_or(0);
        if ch == 0x0E {
            // SO: invoke G1 into GL
            self.single_shift = None;
            self.gl = 1;
            self.next()
        } else if ch == 0x0F {
            // SI: invoke G0 into GL
            self.single_shift = None;
            self.gl = 0;
            self.next()
        } else if ch == 0x8E {
            // SS2 (8-bit): invoke G2 into GL for next char only
            self.single_shift = Some(2);
            self.next()
        } else if ch == 0x8F {
            // SS3 (8-bit): invoke G3 into GL for next char only
            self.single_shift = Some(3);
            self.next()
        } else if ch == 27 {
            // ESC sequence
            self.single_shift = None;
            let second = self.read_byte().unwrap_or(0);
            self.handle_escape(second)
        } else {
            self.decode_char(ch)
        }
    }

    fn read_byte(&mut self) -> (r: Option<u8>)
        ensures
            final(self).input() == old(self).input(),
            r is Some <==> old(self).model().pos < old(self).input().len(),
            (match r {
                Some(x) => x,
                None => 0u8,
            }, final(self).model()) == model_read(old(self).input(), old(self).model()),
    {
        proof { use_type_invariant(&*self); }
        if self.pos >= self.bytes.len() {
            None
        } else {
            let b = self.bytes[self.pos];
            self.pos = self.pos + 1;
            Some(b)
        }
    }

    /// Handle an ESC sequence. The `second` byte is the byte immediately after ESC.
    fn handle_escape(&mut self, second: u8) -> (r: Option<i32>)
        ensures
            final(self).input() == old(self).input(),
            (r, final(self).model()) == model_escape(old(self).input(), second, old(self).model()),
        decreases old(self).input().len() - old(self).model().pos + 1, 0int,
    {
        proof { use_type_invariant(&*self); }
        if second == 36 {
            let c = self.read_byte().unwrap_or(0);
            if c == 40 {
                self.designate(0, 9999);
            } else if c == 41 {
                self.designate(1, 9999);
            } else if c == 42 {
                self.designate(2, 9999);
            } else if c == 43 {
                self.designate(3, 9999);
            } else {
                // Deprecated: ESC $ x (paren-less)
                self.gn[0] = (c as i32) * 65536;
                self.gndbl[0] = true;
            }
            return self.next();
        }
        if second == 78 {
            // SS2: invoke G2 into GL for next char only (ESC N)
            self.single_shift = Some(2);
        } else if second == 79 {
            // SS3: invoke G3 into GL for next char only (ESC O)
            self.single_shift = Some(3);
        } else if second == 110 {
            // LS2: invoke G2 into GL
            self.gl = 2;
        } else if second == 111 {
            // LS3: invoke G3 into GL
            self.gl = 3;
        } else if second == 126 {
            self.gr = 1;
        } else if second == 125 {
            self.gr = 2;
        } else if second == 124 {
            self.gr = 3;
        } else if second == 40 {
            self.designate(0, 94);
        } else if second == 41 {
            self.designate(1, 94);
        } else if second == 42 {
            self.designate(2, 94);
        } else if second == 43 {
            self.designate(3, 94);
        } else if second == 45 {
            self.designate(1, 96);
        } else if second == 46 {
            self.designate(2, 96);
        } else if second == 47 {
            self.designate(3, 96);
        }
        // Other sequences (ACS, CZD, C1D) are not needed for FIGfont and are dropped.
        self.next()
    }

    fn designate(&mut self, reg: usize, kind: i32)
        requires
            reg < 4,
            kind == 94 || kind == 96 || kind == 9999,
        ensures
            final(self).input() == old(self).input(),
            final(self).model() == model_designate(
                old(self).input(),
                old(self).model(),
                reg as int,
                kind as int,
            ),
    {
        proof { use_type_invariant(&*self); }
        let mut d = self.read_byte().unwrap_or(0) as i32;
        if (kind == 94 && d == 66) || ((kind == 96 || kind == 9999) && d == 65) {
            d = 0;
        }
        if kind == 9999 {
            self.gn[reg] = d * 65536;
            self.gndbl[reg] = true;
        } else if kind == 96 {
            // 0x80 marks 96-char sets in output codes
            self.gn[reg] = d * 65536 + 0x80;
            self.gndbl[reg] = false;
        } else {
            self.gn[reg] = d * 65536;
            self.gndbl[reg] = false;
        }
    }

    fn decode_char(&mut self, ch: u8) -> (r: Option<i32>)
        ensures
            final(self).input() == old(self).input(),
            (r, final(self).model()) == model_decode_char(old(self).input(), ch, old(self).model()),
    {
        proof { use_type_invariant(&*self); }
        if 0x21 <= ch && ch <= 0x7E {
            let gl = match self.single_shift {
                Some(k) => k,
                None => self.gl,
            };
            self.single_shift = None;
            if self.gndbl[gl] {
                let ch2 = self.read_byte().unwrap_or(0) as i32;
                Some(self.gn[gl] + (ch as i32) * 256 + ch2)
            } else {
                Some(self.gn[gl] + (ch as i32))
            }
        } else if 0xA0 <= ch {
            let gr = self.gr;
            if self.gndbl[gr] {
                let ch2 = self.read_byte().unwrap_or(0) as i32;
                Some(self.gn[gr] + (ch as i32) * 256 + ch2)
            } else {
                Some(self.gn[gr] + (ch as i32) - 0x80)
            }
        } else {
            Some(ch as i32)
        }
    }
}

impl Default for Iso2022Decoder<'_> {
    fn default() -> (d: Self)
        ensures
            d.input() == Seq::<u8>::empty(),
            d.model() == default_model(),
    {
        let d = Self {
            bytes: &[],
            pos: 0,
            gn: [0, 0x80, 0, 0],
            gndbl: [false; 4],
            gl: 0,
            gr: 1,
            single_shift: None,
        };
        assert(d.model().gn =~= default_model().gn);
        assert(d.model().gndbl =~= default_model().gndbl);
        d
    }
}

} // verus!
