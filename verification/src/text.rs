use vstd::prelude::*;
use vstd::std_specs::iter::IteratorSpec;
use vstd::utf8::{decode_utf8, valid_utf8};
use crate::control::decoder::is_scalar_value;

verus! {

/// Unicode White_Space, as `char::is_whitespace` decides it.
pub open spec fn is_ws(c: char) -> bool {
    ||| c == '\t' || c == '\n' || c == '\u{B}' || c == '\u{C}' || c == '\r' || c == ' '
    ||| c == '\u{85}' || c == '\u{A0}' || c == '\u{1680}'
    ||| ('\u{2000}' <= c && c <= '\u{200A}')
    ||| c == '\u{2028}' || c == '\u{2029}' || c == '\u{202F}' || c == '\u{205F}' || c == '\u{3000}'
}

pub fn is_whitespace(c: char) -> (r: bool)
    ensures
        r == is_ws(c),
{
    c == '\t' || c == '\n' || c == '\u{B}' || c == '\u{C}' || c == '\r' || c == ' ' || c == '\u{85}'
        || c == '\u{A0}' || c == '\u{1680}' || ('\u{2000}' <= c && c <= '\u{200A}') || c
        == '\u{2028}' || c == '\u{2029}' || c == '\u{202F}' || c == '\u{205F}' || c == '\u{3000}'
}

/// The characters of a string slice, in order.
pub(crate) fn str_to_chars(s: &str) -> (v: Vec<char>)
    ensures
        v@ == s@,
{
    broadcast use vstd::string::axiom_spec_iter, vstd::string::next_postcondition;

    let mut v: Vec<char> = Vec::new();
    let mut it = s.chars();
    loop
        invariant
            v@ + it.remaining() == s@,
            it.decrease() is Some,
        ensures
            v@ == s@,
        decreases it.decrease()->0,
    {
        match it.next() {
            Some(c) => {
                v.push(c);
            },
            None => {
                assert(v@ =~= s@);
                break;
            },
        }
    }
    v
}

/// The string made of the given characters, in order.
#[verifier::external_body]
pub(crate) fn chars_to_string(v: &[char]) -> (s: String)
    ensures
        s@ == v@,
{
    v.iter().collect()
}

/// The characters that `b` encodes, if it is valid UTF-8 (`std::str::from_utf8`).
#[verifier::external_body]
pub(crate) fn utf8_to_chars(b: &[u8]) -> (r: Option<Vec<char>>)
    ensures
        match r {
            Some(v) => valid_utf8(b@) && v@ == decode_utf8(b@),
            None => !valid_utf8(b@),
        },
{
    match std::str::from_utf8(b) {
        Ok(s) => Some(s.chars().collect()),
        Err(_) => None,
    }
}

/// `s` without its trailing whitespace.
pub open spec fn trim_end(s: Seq<char>) -> Seq<char>
    decreases s.len(),
{
    if s.len() > 0 && is_ws(s.last()) {
        trim_end(s.drop_last())
    } else {
        s
    }
}

/// `s` without its leading whitespace.
pub open spec fn trim_start(s: Seq<char>) -> Seq<char>
    decreases s.len(),
{
    if s.len() > 0 && is_ws(s[0]) {
        trim_start(s.drop_first())
    } else {
        s
    }
}

/// `s` without the trailing repetitions of `m`.
pub open spec fn trim_end_char(s: Seq<char>, m: char) -> Seq<char>
    decreases s.len(),
{
    if s.len() > 0 && s.last() == m {
        trim_end_char(s.drop_last(), m)
    } else {
        s
    }
}

proof fn lemma_trim_end_prefix(s: Seq<char>, n: int)
    requires
        0 <= n <= s.len(),
        forall|i: int| n <= i < s.len() ==> is_ws(#[trigger] s[i]),
    ensures
        trim_end(s) == trim_end(s.take(n)),
    decreases s.len() - n,
{
    if n < s.len() {
        assert(s.drop_last() =~= s.take(s.len() - 1));
        assert(s.take(s.len() - 1).take(n) =~= s.take(n));
        lemma_trim_end_prefix(s.drop_last(), n);
    } else {
        assert(s.take(n) =~= s);
    }
}

/// The length of `s` once its trailing whitespace is gone.
pub fn trim_end_len(s: &[char]) -> (n: usize)
    ensures
        n <= s@.len(),
        s@.take(n as int) == trim_end(s@),
{
    let mut n = s.len();
    while n > 0 && is_whitespace(s[n - 1])
        invariant
            n <= s@.len(),
            forall|i: int| n <= i < s@.len() ==> is_ws(#[trigger] s@[i]),
        decreases n,
    {
        n = n - 1;
    }
    proof {
        lemma_trim_end_prefix(s@, n as int);
        let t = s@.take(n as int);
        if n > 0 {
            assert(t.last() == s@[n - 1]);
        }
    }
    n
}

proof fn lemma_trim_end_char_prefix(s: Seq<char>, m: char, n: int)
    requires
        0 <= n <= s.len(),
        forall|i: int| n <= i < s.len() ==> #[trigger] s[i] == m,
    ensures
        trim_end_char(s, m) == trim_end_char(s.take(n), m),
    decreases s.len() - n,
{
    if n < s.len() {
        assert(s.drop_last() =~= s.take(s.len() - 1));
        assert(s.take(s.len() - 1).take(n) =~= s.take(n));
        lemma_trim_end_char_prefix(s.drop_last(), m, n);
    } else {
        assert(s.take(n) =~= s);
    }
}

/// The length of `s` once the trailing repetitions of `m` are gone.
pub fn trim_end_char_len(s: &[char], m: char) -> (n: usize)
    ensures
        n <= s@.len(),
        s@.take(n as int) == trim_end_char(s@, m),
{
    let mut n = s.len();
    while n > 0 && s[n - 1] == m
        invariant
            n <= s@.len(),
            forall|i: int| n <= i < s@.len() ==> #[trigger] s@[i] == m,
        decreases n,
    {
        n = n - 1;
    }
    proof {
        lemma_trim_end_char_prefix(s@, m, n as int);
        let t = s@.take(n as int);
        if n > 0 {
            assert(t.last() == s@[n - 1]);
        }
    }
    n
}

proof fn lemma_trim_start_skip(s: Seq<char>, n: int)
    requires
        0 <= n <= s.len(),
        forall|i: int| 0 <= i < n ==> is_ws(#[trigger] s[i]),
    ensures
        trim_start(s) == trim_start(s.skip(n)),
    decreases n,
{
    if n > 0 {
        assert(s.drop_first().skip(n - 1) =~= s.skip(n));
        lemma_trim_start_skip(s.drop_first(), n - 1);
    } else {
        assert(s.skip(0) =~= s);
    }
}

/// The position of the first character of `s` that is not whitespace (or its length).
pub fn trim_start_pos(s: &[char]) -> (n: usize)
    ensures
        n <= s@.len(),
        s@.skip(n as int) == trim_start(s@),
{
    let mut n: usize = 0;
    while n < s.len() && is_whitespace(s[n])
        invariant
            n <= s@.len(),
            forall|i: int| 0 <= i < n ==> is_ws(#[trigger] s@[i]),
        decreases s@.len() - n,
    {
        n = n + 1;
    }
    proof {
        lemma_trim_start_skip(s@, n as int);
        let t = s@.skip(n as int);
        if n < s@.len() {
            assert(t[0] == s@[n as int]);
        }
    }
    n
}

/// `s` split at runs of whitespace into its words, given the word `cur` already begun.
pub open spec fn split_ws_from(s: Seq<char>, cur: Seq<char>) -> Seq<Seq<char>>
    decreases s.len(),
{
    if s.len() == 0 {
        if cur.len() > 0 {
            seq![cur]
        } else {
            Seq::empty()
        }
    } else if is_ws(s[0]) {
        if cur.len() > 0 {
            seq![cur] + split_ws_from(s.drop_first(), Seq::empty())
        } else {
            split_ws_from(s.drop_first(), Seq::empty())
        }
    } else {
        split_ws_from(s.drop_first(), cur.push(s[0]))
    }
}

/// The words of `s`: its maximal runs of characters that are not whitespace, in order.
pub open spec fn split_ws(s: Seq<char>) -> Seq<Seq<char>> {
    split_ws_from(s, Seq::empty())
}

/// The contents of each vector of characters.
pub open spec fn views(v: Seq<Vec<char>>) -> Seq<Seq<char>> {
    v.map_values(|w: Vec<char>| w@)
}

/// The words of `s`, as `str::split_whitespace` gives them.
pub fn split_whitespace(s: &[char]) -> (words: Vec<Vec<char>>)
    ensures
        views(words@) == split_ws(s@),
{
    let mut words: Vec<Vec<char>> = Vec::new();
    let mut cur: Vec<char> = Vec::new();
    let mut i: usize = 0;
    assert(s@.skip(0) =~= s@);
    while i < s.len()
        invariant
            i <= s@.len(),
            split_ws(s@) == views(words@) + split_ws_from(s@.skip(i as int), cur@),
        decreases s@.len() - i,
    {
        let ghost rest = s@.skip(i as int);
        assert(rest.drop_first() =~= s@.skip(i + 1));
        assert(rest[0] == s@[i as int]);
        let c = s[i];
        assert(split_ws_from(rest, cur@) == if is_ws(c) {
            if cur@.len() > 0 {
                seq![cur@] + split_ws_from(rest.drop_first(), Seq::empty())
            } else {
                split_ws_from(rest.drop_first(), Seq::empty())
            }
        } else {
            split_ws_from(rest.drop_first(), cur@.push(c))
        });
        if is_whitespace(c) {
            if cur.len() > 0 {
                let ghost before = views(words@);
                let w = cur;
                words.push(w);
                cur = Vec::new();
                assert(views(words@) =~= before + seq![w@]);
                assert(views(words@) + split_ws_from(rest.drop_first(), Seq::empty()) =~= before + (
                seq![w@] + split_ws_from(rest.drop_first(), Seq::empty())));
            } else {
                assert(cur@ =~= Seq::<char>::empty());
            }
        } else {
            cur.push(c);
        }
        i = i + 1;
    }
    if cur.len() > 0 {
        let ghost before = views(words@);
        let w = cur;
        words.push(w);
        assert(views(words@) =~= before + seq![w@]);
    } else {
        assert(views(words@) + Seq::<Seq<char>>::empty() =~= views(words@));
    }
    words
}

/// The value of a digit in bases up to 36 (letters in either case), 99 for any other character.
pub open spec fn digit_val(c: char) -> int {
    if '0' <= c && c <= '9' {
        c as int - '0' as int
    } else if 'a' <= c && c <= 'z' {
        c as int - 'a' as int + 10
    } else if 'A' <= c && c <= 'Z' {
        c as int - 'A' as int + 10
    } else {
        99
    }
}

/// The value of the digits `s` in base `radix`, if every character is such a digit.
pub open spec fn digits_value(s: Seq<char>, radix: int) -> Option<int>
    decreases s.len(),
{
    if s.len() == 0 {
        Some(0)
    } else {
        match digits_value(s.drop_last(), radix) {
            None => None,
            Some(v) => if digit_val(s.last()) < radix {
                Some(v * radix + digit_val(s.last()))
            } else {
                None
            },
        }
    }
}

/// The integer that `from_str_radix` reads from `s` for a type ranging over `min..=max`:
/// an optional sign ('-' only for signed types), at least one digit, and a value in range.
pub open spec fn parse_int(s: Seq<char>, radix: int, min: int, max: int) -> Option<int> {
    if s.len() == 0 {
        None
    } else {
        let neg = s[0] == '-' && min < 0;
        let body = if s[0] == '+' || neg {
            s.drop_first()
        } else {
            s
        };
        if body.len() == 0 {
            None
        } else {
            match digits_value(body, radix) {
                None => None,
                Some(v) => {
                    let x = if neg {
                        -v
                    } else {
                        v
                    };
                    if min <= x <= max {
                        Some(x)
                    } else {
                        None
                    }
                },
            }
        }
    }
}

proof fn lemma_digits_value_nonneg(s: Seq<char>, radix: int)
    requires
        radix >= 2,
    ensures
        digits_value(s, radix) matches Some(v) ==> v >= 0,
    decreases s.len(),
{
    if s.len() > 0 {
        lemma_digits_value_nonneg(s.drop_last(), radix);
        if let Some(v) = digits_value(s.drop_last(), radix) {
            assert(v * radix >= 0) by (nonlinear_arith)
                requires
                    v >= 0,
                    radix >= 2,
            ;
        }
    }
}

/// Once the digits read so far exceed `cap`, no more digits bring the value back under it.
proof fn lemma_digits_value_grows(s: Seq<char>, radix: int, k: int, cap: int)
    requires
        radix >= 2,
        0 <= k <= s.len(),
        digits_value(s.take(k), radix) matches Some(v) && v > cap,
        cap >= 0,
    ensures
        digits_value(s, radix) matches Some(w) ==> w > cap,
    decreases s.len() - k,
{
    if k < s.len() {
        assert(s.drop_last().take(k) =~= s.take(k));
        if s.len() - 1 > k {
            lemma_digits_value_grows(s.drop_last(), radix, k, cap);
        } else {
            assert(s.drop_last() =~= s.take(k));
        }
        if let Some(v) = digits_value(s.drop_last(), radix) {
            assert(v * radix >= v) by (nonlinear_arith)
                requires
                    v >= 0,
                    radix >= 2,
            ;
        }
    } else {
        assert(s.take(k) =~= s);
    }
}

/// `from_str_radix` for an integer type ranging over `min..=max`.
pub fn parse_radix(s: &[char], radix: u32, min: i128, max: i128) -> (r: Option<i128>)
    requires
        2 <= radix <= 36,
        -0x1_0000_0000_0000_0000 <= min <= 0 <= max <= 0x1_0000_0000_0000_0000,
    ensures
        r == (match parse_int(s@, radix as int, min as int, max as int) {
            Some(v) => Some(v as i128),
            None => None,
        }),
{
    if s.len() == 0 {
        return None;
    }
    let neg = s[0] == '-' && min < 0;
    let start: usize = if s[0] == '+' || neg {
        1
    } else {
        0
    };
    if s.len() == start {
        proof {
            if start == 1 {
                assert(s@.drop_first().len() == 0);
            }
        }
        return None;
    }
    let ghost body = if s@[0] == '+' || neg {
        s@.drop_first()
    } else {
        s@
    };
    assert(body =~= s@.skip(start as int));
    let cap: u128 = if neg {
        (-min) as u128
    } else {
        max as u128
    };
    let mut acc: u128 = 0;
    let mut i: usize = start;
    assert(body.take(0) =~= Seq::<char>::empty());
    while i < s.len()
        invariant
            start <= i <= s@.len(),
            body == s@.skip(start as int),
            2 <= radix <= 36,
            cap <= 0x1_0000_0000_0000_0000,
            digits_value(body.take(i - start), radix as int) == Some(acc as int),
            acc <= cap,
            neg == (s@[0] == '-' && min < 0),
            start == (if s@[0] == '+' || neg { 1int } else { 0int }),
            cap as int == (if neg { -min } else { max as int }),
        decreases s@.len() - i,
    {
        let c = s[i];
        let d: u32 = if '0' <= c && c <= '9' {
            (c as u32) - ('0' as u32)
        } else if 'a' <= c && c <= 'z' {
            (c as u32) - ('a' as u32) + 10
        } else if 'A' <= c && c <= 'Z' {
            (c as u32) - ('A' as u32) + 10
        } else {
            99
        };
        let ghost pre = body.take(i - start);
        let ghost next = body.take(i + 1 - start);
        assert(next.drop_last() =~= pre);
        assert(next.last() == c);
        assert(digit_val(c) == d as int);
        if d >= radix {
            proof {
                assert(digits_value(next, radix as int) is None);
                lemma_digits_none_extends(body, radix as int, i + 1 - start);
                assert(digits_value(body, radix as int) is None);
                assert(body.len() > 0);
                let pb = if s@[0] == '+' || (s@[0] == '-' && min < 0) { s@.drop_first() } else { s@ };
                assert(pb == body);
            }
            return None;
        }
        assert((acc as int) * (radix as int) <= 0x1_0000_0000_0000_0000 * 36) by (nonlinear_arith)
            requires
                acc <= 0x1_0000_0000_0000_0000,
                radix <= 36,
        ;
        assert(digit_val(c) == d as int);
        acc = acc * (radix as u128) + (d as u128);
        if acc > cap {
            proof {
                lemma_digits_value_grows(body, radix as int, i + 1 - start, cap as int);
                assert(body.take(body.len() as int) =~= body);
                let pb = if s@[0] == '+' || (s@[0] == '-' && min < 0) { s@.drop_first() } else { s@ };
                assert(pb == body);
                lemma_digits_value_nonneg(body, radix as int);
            }
            return None;
        }
        i = i + 1;
    }
    assert(body.take(i - start) =~= body);
    let v: i128 = if neg {
        -(acc as i128)
    } else {
        acc as i128
    };
    if min <= v && v <= max {
        Some(v)
    } else {
        None
    }
}

proof fn lemma_digits_none_extends(s: Seq<char>, radix: int, k: int)
    requires
        0 <= k <= s.len(),
        digits_value(s.take(k), radix) is None,
    ensures
        digits_value(s, radix) is None,
    decreases s.len() - k,
{
    if k < s.len() {
        assert(s.drop_last().take(k) =~= s.take(k));
        if s.len() - 1 > k {
            lemma_digits_none_extends(s.drop_last(), radix, k);
        } else {
            assert(s.drop_last() =~= s.take(k));
        }
    } else {
        assert(s.take(k) =~= s);
    }
}


/// The index of the first newline of `b` at or after `i`, or the length of `b`.
pub open spec fn next_newline(b: Seq<u8>, i: int) -> int
    decreases b.len() - i,
{
    if i < 0 || i >= b.len() {
        b.len() as int
    } else if b[i] == 10 {
        i
    } else {
        next_newline(b, i + 1)
    }
}

/// The next newline lies between `i` and the end of `b`.
pub proof fn lemma_next_newline_bounds(b: Seq<u8>, i: int)
    requires
        0 <= i <= b.len(),
    ensures
        i <= next_newline(b, i) <= b.len(),
    decreases b.len() - i,
{
    if i < b.len() && b[i] != 10 {
        lemma_next_newline_bounds(b, i + 1);
    }
}

/// The lines of `b` from position `i`: the runs of bytes between newlines; a newline at the
/// very end does not begin another line.
pub open spec fn lines_from(b: Seq<u8>, i: int) -> Seq<Seq<u8>>
    decreases b.len() - i,
{
    if i < 0 || i >= b.len() {
        Seq::empty()
    } else {
        let j = next_newline(b, i);
        if j >= b.len() {
            seq![b.subrange(i, b.len() as int)]
        } else {
            proof {
                lemma_next_newline_bounds(b, i);
            }
            seq![b.subrange(i, j)] + lines_from(b, j + 1)
        }
    }
}

/// The lines of `b`, as `BufRead::lines` reads them (before the carriage returns go, which
/// trimming removes anyway).
pub open spec fn lines_of(b: Seq<u8>) -> Seq<Seq<u8>> {
    lines_from(b, 0)
}

/// The views of byte vectors.
pub open spec fn byte_views(v: Seq<Vec<u8>>) -> Seq<Seq<u8>> {
    v.map_values(|b: Vec<u8>| b@)
}

/// The lines of `data`, as `BufRead::lines` reads them.
pub fn split_lines(data: &[u8]) -> (r: Vec<Vec<u8>>)
    ensures
        byte_views(r@) == lines_of(data@),
{
    let mut r: Vec<Vec<u8>> = Vec::new();
    let mut i: usize = 0;
    assert(byte_views(r@) =~= Seq::<Seq<u8>>::empty());
    while i < data.len()
        invariant
            i <= data@.len(),
            lines_of(data@) == byte_views(r@) + lines_from(data@, i as int),
        decreases data@.len() - i,
    {
        let mut line: Vec<u8> = Vec::new();
        let mut j = i;
        while j < data.len() && data[j] != 10
            invariant
                i <= j <= data@.len(),
                next_newline(data@, i as int) == next_newline(data@, j as int),
                line@ == data@.subrange(i as int, j as int),
            decreases data@.len() - j,
        {
            line.push(data[j]);
            j = j + 1;
            assert(line@ =~= data@.subrange(i as int, j as int));
        }
        let ghost rest = if j < data@.len() {
            lines_from(data@, j + 1)
        } else {
            Seq::empty()
        };
        assert(lines_from(data@, i as int) =~= seq![line@] + rest);
        let ghost before = byte_views(r@);
        r.push(line);
        assert(byte_views(r@) =~= before.push(line@));
        assert(before + (seq![line@] + rest) =~= byte_views(r@) + rest);
        if j < data.len() {
            i = j + 1;
        } else {
            i = j;
        }
    }
    assert(byte_views(r@) + lines_from(data@, i as int) =~= byte_views(r@));
    r
}


/// The character whose code is `v`, if `v` is a Unicode scalar value (`char::from_u32`).
#[verifier::external_body]
pub(crate) fn char_from_code(v: u32) -> (r: Option<char>)
    ensures
        match r {
            Some(c) => is_scalar_value(v as int) && c as u32 == v,
            None => !is_scalar_value(v as int),
        },
{
    char::from_u32(v)
}

/// The display width of a text in terminal columns, as `unicode-width` measures it.
pub uninterp spec fn display_width(s: Seq<char>) -> nat;

/// The display width of `s`: `unicode_width::UnicodeWidthStr::width`. The crate's rules
/// (East Asian widths, zero-width marks, emoji and other sequences) are not stated; the
/// contract claims only that the result is a function of the text, named `display_width`.
#[verifier::external_body]
pub(crate) fn str_display_width(s: &str) -> (w: usize)
    ensures
        w == display_width(s@),
{
    unicode_width::UnicodeWidthStr::width(s)
}

} // verus!
