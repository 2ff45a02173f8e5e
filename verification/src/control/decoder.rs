use vstd::prelude::*;
use crate::flc::InputEncoding;
use vstd::utf8::{
    decode_first_scalar, decode_utf8, length_of_first_scalar, pop_first_scalar, valid_first_scalar,
    valid_utf8,
};

verus! {

/// A UTF-8 continuation byte (10xxxxxx).
pub open spec fn is_cont(b: u8) -> bool {
    0x80 <= b < 0xC0
}

/// The code decoded from the UTF-8 bytes at the start of `r`, and how many
/// bytes it takes. A malformed sequence is the code 128 and takes one byte.
pub open spec fn utf8_decode_one(r: Seq<u8>) -> (i32, int)
    recommends
        r.len() > 0,
{
    let b0 = r[0];
    if b0 < 0x80 {
        (b0 as i32, 1)
    } else if b0 < 0xC0 {
        (128, 1)
    } else if b0 < 0xE0 {
        if r.len() >= 2 && is_cont(r[1]) {
            let cp = (b0 % 32) * 64 + r[1] % 64;
            if cp >= 0x80 {
                (cp as i32, 2)
            } else {
                (128, 1)
            }
        } else {
            (128, 1)
        }
    } else if b0 < 0xF0 {
        if r.len() >= 3 && is_cont(r[1]) && is_cont(r[2]) {
            let cp = (b0 % 16) * 4096 + (r[1] % 64) * 64 + r[2] % 64;
            if cp >= 0x800 && (cp < 0xD800 || cp > 0xDFFF) {
                (cp as i32, 3)
            } else {
                (128, 1)
            }
        } else {
            (128, 1)
        }
    } else if b0 < 0xF8 {
        if r.len() >= 4 && is_cont(r[1]) && is_cont(r[2]) && is_cont(r[3]) {
            let cp = (b0 % 8) * 262144 + (r[1] % 64) * 4096 + (r[2] % 64) * 64 + r[3] % 64;
            if 0x10000 <= cp <= 0x10FFFF {
                (cp as i32, 4)
            } else {
                (128, 1)
            }
        } else {
            (128, 1)
        }
    } else {
        (128, 1)
    }
}

/// A lead byte of a two-byte Shift-JIS character.
pub open spec fn is_sjis_lead(b: u8) -> bool {
    (0x80 <= b <= 0x9F) || (0xE0 <= b <= 0xEF)
}

/// One step of HZ decoding from position `pos` in mode `two` (two-byte mode):
/// the code produced (if any), the next position and the next mode.
pub open spec fn hz_step(b: Seq<u8>, pos: int, two: bool) -> (Option<i32>, int, bool)
    decreases b.len() - pos,
{
    if pos < 0 || pos >= b.len() {
        (None, pos, two)
    } else if b[pos] == 126 {
        if pos + 1 >= b.len() {
            (None, pos + 1, two)
        } else if b[pos + 1] == 123 {
            hz_step(b, pos + 2, true)
        } else if b[pos + 1] == 125 {
            hz_step(b, pos + 2, false)
        } else if b[pos + 1] == 126 {
            (Some(126), pos + 2, two)
        } else {
            hz_step(b, pos + 2, false)
        }
    } else if two {
        if pos + 1 < b.len() {
            (Some((b[pos] * 256 + b[pos + 1]) as i32), pos + 2, true)
        } else {
            (Some(b[pos] as i32), pos + 1, false)
        }
    } else {
        (Some(b[pos] as i32), pos + 1, false)
    }
}

/// One step of decoding `b` from position `pos` (with HZ mode `two`) in the
/// given encoding: the code produced (if any), the next position and mode.
pub open spec fn decode_step(enc: InputEncoding, b: Seq<u8>, pos: int, two: bool) -> (
    Option<i32>,
    int,
    bool,
) {
    match enc {
        InputEncoding::HZ => hz_step(b, pos, two),
        _ => if pos < 0 || pos >= b.len() {
            (None, pos, two)
        } else {
            match enc {
                InputEncoding::UTF8 => {
                    let (c, n) = utf8_decode_one(b.subrange(pos, b.len() as int));
                    (Some(c), pos + n, two)
                },
                InputEncoding::Dbcs => if b[pos] >= 0x80 && pos + 1 < b.len() {
                    (Some((b[pos] * 256 + b[pos + 1]) as i32), pos + 2, two)
                } else {
                    (Some(b[pos] as i32), pos + 1, two)
                },
                InputEncoding::ShiftJIS => if is_sjis_lead(b[pos]) && pos + 1 < b.len() {
                    (Some((b[pos] * 256 + b[pos + 1]) as i32), pos + 2, two)
                } else {
                    (Some(b[pos] as i32), pos + 1, two)
                },
                _ => (Some(b[pos] as i32), pos + 1, two),
            }
        },
    }
}

/// All the codes that decoding `b` from position `pos` (HZ mode `two`) produces.
pub open spec fn decode_from(enc: InputEncoding, b: Seq<u8>, pos: int, two: bool) -> Seq<i32>
    decreases b.len() - pos,
{
    let (r, p, t) = decode_step(enc, b, pos, two);
    match r {
        None => Seq::empty(),
        Some(c) => if pos < p <= b.len() {
            seq![c] + decode_from(enc, b, p, t)
        } else {
            seq![c]
        },
    }
}

/// All the codes that decoding the whole of `b` produces.
pub open spec fn decode_all(enc: InputEncoding, b: Seq<u8>) -> Seq<i32> {
    decode_from(enc, b, 0, false)
}


/// Each step either produces nothing or moves forward within the input.
pub proof fn lemma_hz_step_progress(b: Seq<u8>, pos: int, two: bool)
    requires
        0 <= pos,
    ensures
        ({
            let (r, p, t) = hz_step(b, pos, two);
            r is Some ==> pos < p <= b.len()
        }),
    decreases b.len() - pos,
{
    if pos < b.len() && b[pos] == 126 && pos + 1 < b.len() {
        lemma_hz_step_progress(b, pos + 2, true);
        lemma_hz_step_progress(b, pos + 2, false);
    }
}

/// A step that produces a code consumes at least one byte and stays within the input.
pub proof fn lemma_decode_step_progress(enc: InputEncoding, b: Seq<u8>, pos: int, two: bool)
    requires
        0 <= pos,
    ensures
        ({
            let (r, p, t) = decode_step(enc, b, pos, two);
            r is Some ==> pos < p <= b.len()
        }),
{
    if enc == InputEncoding::HZ {
        lemma_hz_step_progress(b, pos, two);
    }
}

/// In the default (Latin-1) encoding every byte is one code, its own value.
pub proof fn law_latin1_is_identity(b: Seq<u8>)
    ensures
        decode_all(InputEncoding::Default, b) == b.map_values(|x: u8| x as i32),
{
    lemma_latin1_from(b, 0);
    assert(b.subrange(0, b.len() as int) =~= b);
}

proof fn lemma_latin1_from(b: Seq<u8>, pos: int)
    requires
        0 <= pos <= b.len(),
    ensures
        decode_from(InputEncoding::Default, b, pos, false) == b.subrange(pos, b.len() as int).map_values(
            |x: u8| x as i32,
        ),
    decreases b.len() - pos,
{
    if pos < b.len() {
        lemma_latin1_from(b, pos + 1);
        assert(b.subrange(pos, b.len() as int).map_values(|x: u8| x as i32) =~= seq![b[pos] as i32]
            + b.subrange(pos + 1, b.len() as int).map_values(|x: u8| x as i32));
    } else {
        assert(b.subrange(pos, b.len() as int).map_values(|x: u8| x as i32) =~= Seq::<i32>::empty());
    }
}

/// Plain ASCII, free of the HZ escape `~`.
pub open spec fn is_plain_ascii(b: Seq<u8>) -> bool {
    forall|i: int| 0 <= i < b.len() ==> #[trigger] b[i] < 0x80 && b[i] != 126
}

/// Every encoding reads plain ASCII byte for byte: each byte is one code, its own value.
pub proof fn law_ascii_passthrough(enc: InputEncoding, b: Seq<u8>)
    requires
        is_plain_ascii(b),
    ensures
        decode_all(enc, b) == b.map_values(|x: u8| x as i32),
{
    lemma_ascii_from(enc, b, 0);
    assert(b.subrange(0, b.len() as int) =~= b);
}

proof fn lemma_ascii_from(enc: InputEncoding, b: Seq<u8>, pos: int)
    requires
        0 <= pos <= b.len(),
        is_plain_ascii(b),
    ensures
        decode_from(enc, b, pos, false) == b.subrange(pos, b.len() as int).map_values(
            |x: u8| x as i32,
        ),
    decreases b.len() - pos,
{
    if pos < b.len() {
        assert(b[pos] < 0x80 && b[pos] != 126);
        let sub = b.subrange(pos, b.len() as int);
        assert(sub[0] == b[pos]);
        lemma_ascii_from(enc, b, pos + 1);
        assert(b.subrange(pos, b.len() as int).map_values(|x: u8| x as i32) =~= seq![b[pos] as i32]
            + b.subrange(pos + 1, b.len() as int).map_values(|x: u8| x as i32));
    } else {
        assert(b.subrange(pos, b.len() as int).map_values(|x: u8| x as i32) =~= Seq::<i32>::empty());
    }
}

/// A Unicode scalar value: at most 0x10FFFF and not a surrogate.
pub open spec fn is_scalar_value(c: int) -> bool {
    0 <= c <= 0x10FFFF && !(0xD800 <= c <= 0xDFFF)
}

/// The UTF-8 encoding of the scalar value `c`.
pub open spec fn utf8_encode(c: int) -> Seq<u8> {
    if c < 0x80 {
        seq![c as u8]
    } else if c < 0x800 {
        seq![(0xC0 + c / 64) as u8, (0x80 + c % 64) as u8]
    } else if c < 0x10000 {
        seq![(0xE0 + c / 4096) as u8, (0x80 + (c / 64) % 64) as u8, (0x80 + c % 64) as u8]
    } else {
        seq![
            (0xF0 + c / 262144) as u8,
            (0x80 + (c / 4096) % 64) as u8,
            (0x80 + (c / 64) % 64) as u8,
            (0x80 + c % 64) as u8,
        ]
    }
}

/// The UTF-8 decoder reads back every scalar value from its encoding, whatever follows it.
pub proof fn law_utf8_roundtrip(c: int, rest: Seq<u8>)
    requires
        is_scalar_value(c),
    ensures
        utf8_decode_one(utf8_encode(c) + rest) == (c as i32, utf8_encode(c).len() as int),
{
    let e = utf8_encode(c);
    let s = e + rest;
    assert(s[0] == e[0]);
    if c < 0x80 {
    } else if c < 0x800 {
        assert(s[1] == e[1]);
        assert(c == (c / 64) * 64 + c % 64) by (nonlinear_arith);
        assert(c / 64 < 32) by (nonlinear_arith) requires c < 0x800;
        assert(c / 64 >= 2) by (nonlinear_arith) requires c >= 0x80;
    } else if c < 0x10000 {
        assert(s[1] == e[1] && s[2] == e[2]);
        assert(c == (c / 4096) * 4096 + ((c / 64) % 64) * 64 + c % 64) by (nonlinear_arith);
        assert(c / 4096 < 16) by (nonlinear_arith) requires c < 0x10000;
    } else {
        assert(s[1] == e[1] && s[2] == e[2] && s[3] == e[3]);
        assert(c == (c / 262144) * 262144 + ((c / 4096) % 64) * 4096 + ((c / 64) % 64) * 64 + c % 64)
            by (nonlinear_arith);
        assert(c / 262144 < 8) by (nonlinear_arith) requires c <= 0x10FFFF;
    }
}

/// On bytes that begin with a well-formed UTF-8 scalar the decoder reads that scalar and
/// takes its length.
proof fn lemma_utf8_first_scalar(s: Seq<u8>)
    requires
        valid_first_scalar(s),
    ensures
        utf8_decode_one(s) == (decode_first_scalar(s) as i32, length_of_first_scalar(s)),
        decode_first_scalar(s) <= 0x10FFFF,
        !(0xD800 <= decode_first_scalar(s) <= 0xDFFF),
{
    let b0 = s[0];
    if b0 <= 0x7f {
        assert(((b0 & 0x7F) as u32) == b0 as u32) by (bit_vector)
            requires
                b0 <= 0x7f,
        ;
    } else if 0xc0 <= b0 <= 0xdf {
        let b1 = s[1];
        assert((((b0 & 0x1F) as u32) << 6) | ((b1 & 0x3F) as u32) == ((b0 % 32) as u32) * 64 + (
        b1 % 64) as u32) by (bit_vector);
    } else if 0xe0 <= b0 <= 0xef {
        let b1 = s[1];
        let b2 = s[2];
        assert((((b0 & 0x0F) as u32) << 12) | (((b1 & 0x3F) as u32) << 6) | ((b2 & 0x3F) as u32)
            == ((b0 % 16) as u32) * 4096 + ((b1 % 64) as u32) * 64 + (b2 % 64) as u32)
            by (bit_vector);
    } else {
        let b1 = s[1];
        let b2 = s[2];
        let b3 = s[3];
        assert((((b0 & 0x07) as u32) << 18) | (((b1 & 0x3F) as u32) << 12) | (((b2 & 0x3F) as u32)
            << 6) | ((b3 & 0x3F) as u32) == ((b0 % 8) as u32) * 262144 + ((b1 % 64) as u32) * 4096
            + ((b2 % 64) as u32) * 64 + (b3 % 64) as u32) by (bit_vector);
    }
}

proof fn lemma_utf8_from(b: Seq<u8>, pos: int)
    requires
        0 <= pos <= b.len(),
        valid_utf8(b.subrange(pos, b.len() as int)),
    ensures
        decode_from(InputEncoding::UTF8, b, pos, false) == decode_utf8(
            b.subrange(pos, b.len() as int),
        ).map_values(|c: char| c as i32),
    decreases b.len() - pos,
{
    let s = b.subrange(pos, b.len() as int);
    if pos == b.len() {
        assert(s.len() == 0);
        assert(decode_utf8(s).map_values(|c: char| c as i32) =~= Seq::<i32>::empty());
    } else {
        lemma_utf8_first_scalar(s);
        let n = length_of_first_scalar(s);
        let x = decode_first_scalar(s);
        assert(1 <= n <= s.len());
        assert(pop_first_scalar(s) =~= b.subrange(pos + n, b.len() as int));
        lemma_utf8_from(b, pos + n);
        assert(x <= 0x10FFFF && !(0xD800 <= x <= 0xDFFF));
        assert((x as char) as i32 == x as i32);
        let rest = decode_utf8(pop_first_scalar(s));
        assert(decode_utf8(s) == seq![x as char] + rest);
        assert((seq![x as char] + rest).map_values(|c: char| c as i32) =~= seq![x as i32]
            + rest.map_values(|c: char| c as i32));
    }
}

/// Decoding valid UTF-8 text yields the code of each of its characters, in order.
pub proof fn law_utf8_valid(b: Seq<u8>)
    requires
        valid_utf8(b),
    ensures
        decode_all(InputEncoding::UTF8, b) == decode_utf8(b).map_values(|c: char| c as i32),
{
    assert(b.subrange(0, b.len() as int) =~= b);
    lemma_utf8_from(b, 0);
}

/// Iterator-like decoder of raw bytes into character codes according to the given encoding.
/// Yields one `i32` code per `next()` call.
pub struct EncodingDecoder<'a> {
    bytes: &'a [u8],
    encoding: InputEncoding,
    pos: usize,
    /// For HZ encoding: are we currently in two-byte mode?
    hz_two_byte: bool,
}

impl<'a> EncodingDecoder<'a> {
    #[verifier::type_invariant]
    spec fn inv(self) -> bool {
        self.pos <= self.bytes@.len()
    }

    /// The bytes being decoded.
    pub closed spec fn input(&self) -> Seq<u8> {
        self.bytes@
    }

    /// The encoding the bytes are decoded in.
    pub closed spec fn input_encoding(&self) -> InputEncoding {
        self.encoding
    }

    /// The position of the next byte to decode.
    pub closed spec fn position(&self) -> int {
        self.pos as int
    }

    /// Whether HZ decoding is in two-byte mode.
    pub closed spec fn two_byte_mode(&self) -> bool {
        self.hz_two_byte
    }

    /// The codes that the remaining calls of `next` will yield.
    pub open spec fn remaining(&self) -> Seq<i32> {
        decode_from(self.input_encoding(), self.input(), self.position(), self.two_byte_mode())
    }

    /// A decoder at the start of `bytes`, reading them in `encoding`.
    pub fn new(bytes: &'a [u8], encoding: InputEncoding) -> (d: Self)
        ensures
            d.input() == bytes@,
            d.input_encoding() == encoding,
            d.position() == 0,
            !d.two_byte_mode(),
            d.remaining() == decode_all(encoding, bytes@),
    {
        Self { bytes, encoding, pos: 0, hz_two_byte: false }
    }
}


impl<'a> EncodingDecoder<'a> {
    /// Return the next character code, or `None` once the input is used up.
    pub fn next(&mut self) -> (r: Option<i32>)
        ensures
            final(self).input() == old(self).input(),
            final(self).input_encoding() == old(self).input_encoding(),
            (r, final(self).position(), final(self).two_byte_mode()) == decode_step(
                old(self).input_encoding(),
                old(self).input(),
                old(self).position(),
                old(self).two_byte_mode(),
            ),
            match r {
                Some(c) => old(self).remaining() == seq![c] + final(self).remaining(),
                None => old(self).remaining() == Seq::<i32>::empty(),
            },
    {
        proof {
            use_type_invariant(&*self);
            lemma_decode_step_progress(self.encoding, self.bytes@, self.pos as int, self.hz_two_byte);
        }
        match self.encoding {
            InputEncoding::Default => self.next_latin1(),
            InputEncoding::UTF8 => self.next_utf8(),
            InputEncoding::Dbcs => self.next_dbcs(),
            InputEncoding::ShiftJIS => self.next_shiftjis(),
            InputEncoding::HZ => self.next_hz(),
        }
    }

    fn next_latin1(&mut self) -> (r: Option<i32>)
        ensures
            final(self).input() == old(self).input(),
            final(self).input_encoding() == old(self).input_encoding(),
            (r, final(self).position(), final(self).two_byte_mode()) == decode_step(
                InputEncoding::Default,
                old(self).input(),
                old(self).position(),
                old(self).two_byte_mode(),
            ),
    {
        proof { use_type_invariant(&*self); }
        if self.pos >= self.bytes.len() {
            return None;
        }
        let b = self.bytes[self.pos];
        self.pos = self.pos + 1;
        Some(b as i32)
    }

    fn next_utf8(&mut self) -> (r: Option<i32>)
        ensures
            final(self).input() == old(self).input(),
            final(self).input_encoding() == old(self).input_encoding(),
            (r, final(self).position(), final(self).two_byte_mode()) == decode_step(
                InputEncoding::UTF8,
                old(self).input(),
                old(self).position(),
                old(self).two_byte_mode(),
            ),
    {
        proof { use_type_invariant(&*self); }
        let len = self.bytes.len();
        let p = self.pos;
        if p >= len {
            return None;
        }
        let ghost r = self.bytes@.subrange(p as int, len as int);
        let first = self.bytes[p];
        let n = len - p;
        assert(r[0] == first);
        let (code, consumed): (i32, usize) = if first < 0x80 {
            (first as i32, 1)
        } else if first < 0xC0 {
            (128, 1)
        } else if first < 0xE0 {
            if n >= 2 && 0x80 <= self.bytes[p + 1] && self.bytes[p + 1] < 0xC0 {
                assert(r[1] == self.bytes@[p + 1]);
                let cp: i32 = (first % 32) as i32 * 64 + (self.bytes[p + 1] % 64) as i32;
                if cp >= 0x80 {
                    (cp, 2)
                } else {
                    (128, 1)
                }
            } else {
                (128, 1)
            }
        } else if first < 0xF0 {
            if n >= 3 && 0x80 <= self.bytes[p + 1] && self.bytes[p + 1] < 0xC0 && 0x80
                <= self.bytes[p + 2] && self.bytes[p + 2] < 0xC0 {
                assert(r[1] == self.bytes@[p + 1] && r[2] == self.bytes@[p + 2]);
                let cp: i32 = (first % 16) as i32 * 4096 + (self.bytes[p + 1] % 64) as i32 * 64 + (
                self.bytes[p + 2] % 64) as i32;
                if cp >= 0x800 && (cp < 0xD800 || cp > 0xDFFF) {
                    (cp, 3)
                } else {
                    (128, 1)
                }
            } else {
                (128, 1)
            }
        } else if first < 0xF8 {
            if n >= 4 && 0x80 <= self.bytes[p + 1] && self.bytes[p + 1] < 0xC0 && 0x80
                <= self.bytes[p + 2] && self.bytes[p + 2] < 0xC0 && 0x80 <= self.bytes[p + 3]
                && self.bytes[p + 3] < 0xC0 {
                assert(r[1] == self.bytes@[p + 1] && r[2] == self.bytes@[p + 2] && r[3]
                    == self.bytes@[p + 3]);
                let cp: i32 = (first % 8) as i32 * 262144 + (self.bytes[p + 1] % 64) as i32 * 4096
                    + (self.bytes[p + 2] % 64) as i32 * 64 + (self.bytes[p + 3] % 64) as i32;
                if 0x10000 <= cp && cp <= 0x10FFFF {
                    (cp, 4)
                } else {
                    (128, 1)
                }
            } else {
                (128, 1)
            }
        } else {
            (128, 1)
        };
        self.pos = p + consumed;
        Some(code)
    }

    fn next_dbcs(&mut self) -> (r: Option<i32>)
        ensures
            final(self).input() == old(self).input(),
            final(self).input_encoding() == old(self).input_encoding(),
            (r, final(self).position(), final(self).two_byte_mode()) == decode_step(
                InputEncoding::Dbcs,
                old(self).input(),
                old(self).position(),
                old(self).two_byte_mode(),
            ),
    {
        proof { use_type_invariant(&*self); }
        if self.pos >= self.bytes.len() {
            return None;
        }
        let b = self.bytes[self.pos];
        if b < 0x80 {
            self.pos = self.pos + 1;
            Some(b as i32)
        } else if self.pos + 1 < self.bytes.len() {
            let lo = self.bytes[self.pos + 1];
            self.pos = self.pos + 2;
            Some((b as i32) * 256 + (lo as i32))
        } else {
            self.pos = self.pos + 1;
            Some(b as i32)
        }
    }

    fn next_shiftjis(&mut self) -> (r: Option<i32>)
        ensures
            final(self).input() == old(self).input(),
            final(self).input_encoding() == old(self).input_encoding(),
            (r, final(self).position(), final(self).two_byte_mode()) == decode_step(
                InputEncoding::ShiftJIS,
                old(self).input(),
                old(self).position(),
                old(self).two_byte_mode(),
            ),
    {
        proof { use_type_invariant(&*self); }
        if self.pos >= self.bytes.len() {
            return None;
        }
        let b = self.bytes[self.pos];
        let is_high_byte = (b >= 0x80 && b <= 0x9F) || (b >= 0xE0 && b <= 0xEF);
        if is_high_byte && self.pos + 1 < self.bytes.len() {
            let lo = self.bytes[self.pos + 1];
            self.pos = self.pos + 2;
            Some((b as i32) * 256 + (lo as i32))
        } else {
            self.pos = self.pos + 1;
            Some(b as i32)
        }
    }

    fn next_hz(&mut self) -> (r: Option<i32>)
        ensures
            final(self).input() == old(self).input(),
            final(self).input_encoding() == old(self).input_encoding(),
            (r, final(self).position(), final(self).two_byte_mode()) == hz_step(
                old(self).input(),
                old(self).position(),
                old(self).two_byte_mode(),
            ),
    {
        proof { use_type_invariant(&*self); }
        let ghost start = (old(self).position(), old(self).two_byte_mode());
        let mut result: Option<i32> = None;
        loop
            invariant_except_break
                result is None,
                self.bytes@ == old(self).input(),
                self.encoding == old(self).input_encoding(),
                self.pos <= self.bytes@.len(),
                hz_step(self.bytes@, self.pos as int, self.hz_two_byte) == hz_step(
                    self.bytes@,
                    start.0,
                    start.1,
                ),
            ensures
                self.bytes@ == old(self).input(),
                self.encoding == old(self).input_encoding(),
                (result, self.pos as int, self.hz_two_byte) == hz_step(
                    self.bytes@,
                    start.0,
                    start.1,
                ),
            decreases self.bytes@.len() - self.pos,
        {
            let len = self.bytes.len();
            if self.pos >= len {
                break;
            }
            if self.bytes[self.pos] == 126 {
                self.pos = self.pos + 1;
                if self.pos >= len {
                    // Lone tilde at end of input: consume silently
                    continue;
                }
                let next = self.bytes[self.pos];
                if next == 123 {
                    self.pos = self.pos + 1;
                    self.hz_two_byte = true;
                    continue;
                } else if next == 125 {
                    self.pos = self.pos + 1;
                    self.hz_two_byte = false;
                    continue;
                } else if next == 126 {
                    self.pos = self.pos + 1;
                    result = Some(126);
                    break;
                } else {
                    // All other ~X sequences are removed from input
                    self.pos = self.pos + 1;
                    self.hz_two_byte = false;
                    continue;
                }
            }
            if self.hz_two_byte {
                if self.pos + 1 < len {
                    let hi = self.bytes[self.pos];
                    let lo = self.bytes[self.pos + 1];
                    self.pos = self.pos + 2;
                    result = Some((hi as i32) * 256 + (lo as i32));
                } else {
                    let b = self.bytes[self.pos];
                    self.pos = self.pos + 1;
                    self.hz_two_byte = false;
                    result = Some(b as i32);
                }
            } else {
                let b = self.bytes[self.pos];
                self.pos = self.pos + 1;
                result = Some(b as i32);
            }
            break;
        }
        result
    }
}


/// All the codes that decoding `bytes` in `encoding` yields.
pub fn decode_bytes(bytes: &[u8], encoding: InputEncoding) -> (codes: Vec<i32>)
    ensures
        codes@ == decode_all(encoding, bytes@),
{
    let mut d = EncodingDecoder::new(bytes, encoding);
    let mut out: Vec<i32> = Vec::new();
    assert(out@ + d.remaining() =~= decode_all(encoding, bytes@));
    loop
        invariant
            d.input() == bytes@,
            d.input_encoding() == encoding,
            out@ + d.remaining() == decode_all(encoding, bytes@),
        decreases bytes@.len() - d.pos,
    {
        proof {
            use_type_invariant(&d);
            lemma_decode_step_progress(encoding, bytes@, d.pos as int, d.hz_two_byte);
        }
        match d.next() {
            Some(c) => {
                let ghost before = out@;
                out.push(c);
                assert(before + (seq![c] + d.remaining()) =~= out@ + d.remaining());
            },
            None => {
                assert(out@ + Seq::<i32>::empty() =~= out@);
                return out;
            },
        }
    }
}

} // verus!
