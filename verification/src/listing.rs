use vstd::prelude::*;
use vstd::seq_lib::to_multiset_build;
use vstd::seq_lib::to_multiset_insert;
use crate::figfont::string_views;
use crate::program::{font_base_name, has_suffix};
use crate::text::{chars_to_string, str_to_chars};

verus! {

/// `a` comes no later than `b` in the order of strings: character by character, by code
/// point, a prefix before what extends it.
pub open spec fn str_le(a: Seq<char>, b: Seq<char>) -> bool
    decreases a.len(),
{
    if a.len() == 0 {
        true
    } else if b.len() == 0 {
        false
    } else if a[0] != b[0] {
        (a[0] as int) < (b[0] as int)
    } else {
        str_le(a.drop_first(), b.drop_first())
    }
}

proof fn lemma_str_le_total(a: Seq<char>, b: Seq<char>)
    ensures
        str_le(a, b) || str_le(b, a),
    decreases a.len(),
{
    if a.len() > 0 && b.len() > 0 {
        if a[0] == b[0] {
            lemma_str_le_total(a.drop_first(), b.drop_first());
        } else {
            assert((a[0] as int) != (b[0] as int));
        }
    }
}

proof fn lemma_str_le_transitive(a: Seq<char>, b: Seq<char>, c: Seq<char>)
    requires
        str_le(a, b),
        str_le(b, c),
    ensures
        str_le(a, c),
    decreases a.len(),
{
    if a.len() > 0 && b.len() > 0 && c.len() > 0 && a[0] == b[0] && b[0] == c[0] {
        lemma_str_le_transitive(a.drop_first(), b.drop_first(), c.drop_first());
    }
}

/// Names in the order of strings.
pub open spec fn names_sorted(s: Seq<Seq<char>>) -> bool {
    forall|i: int, j: int| 0 <= i < j < s.len() ==> str_le(#[trigger] s[i], #[trigger] s[j])
}

/// The name of a font file: it ends with ".flf" or ".tlf".
pub open spec fn is_font_file(n: Seq<char>) -> bool {
    has_suffix(n, seq!['.', 'f', 'l', 'f']) || has_suffix(n, seq!['.', 't', 'l', 'f'])
}

/// The name of a control file: it ends with ".flc".
pub open spec fn is_control_file(n: Seq<char>) -> bool {
    has_suffix(n, seq!['.', 'f', 'l', 'c'])
}

/// A control file's name without its ".flc" suffix, taken off as often as it repeats.
pub open spec fn control_base_name(n: Seq<char>) -> Seq<char>
    decreases n.len(),
{
    if is_control_file(n) {
        control_base_name(n.take(n.len() - 4))
    } else {
        n
    }
}

/// The fonts among directory entry names, without their suffixes, in the entries' order.
pub open spec fn font_names(names: Seq<Seq<char>>) -> Seq<Seq<char>>
    decreases names.len(),
{
    if names.len() == 0 {
        Seq::empty()
    } else if is_font_file(names.last()) {
        font_names(names.drop_last()).push(font_base_name(names.last()))
    } else {
        font_names(names.drop_last())
    }
}

/// The control files among directory entry names that are no fonts, without their suffix,
/// in the entries' order.
pub open spec fn control_names(names: Seq<Seq<char>>) -> Seq<Seq<char>>
    decreases names.len(),
{
    if names.len() == 0 {
        Seq::empty()
    } else if !is_font_file(names.last()) && is_control_file(names.last()) {
        control_names(names.drop_last()).push(control_base_name(names.last()))
    } else {
        control_names(names.drop_last())
    }
}

/// The default font to report: "standard" where there is one, else the first of the fonts
/// in order, else "N/A".
pub open spec fn default_font_name(fonts: Seq<Seq<char>>) -> Seq<char> {
    if fonts.contains(seq!['s', 't', 'a', 'n', 'd', 'a', 'r', 'd']) {
        seq!['s', 't', 'a', 'n', 'd', 'a', 'r', 'd']
    } else if fonts.len() > 0 {
        fonts[0]
    } else {
        seq!['N', '/', 'A']
    }
}

fn str_le_exec(a: &[char], b: &[char]) -> (r: bool)
    ensures
        r == str_le(a@, b@),
{
    let mut i: usize = 0;
    assert(a@.skip(0) =~= a@);
    assert(b@.skip(0) =~= b@);
    while i < a.len() && i < b.len() && a[i] == b[i]
        invariant
            i <= a@.len(),
            i <= b@.len(),
            str_le(a@, b@) == str_le(a@.skip(i as int), b@.skip(i as int)),
        decreases a@.len() - i,
    {
        assert(a@.skip(i as int).drop_first() =~= a@.skip(i + 1));
        assert(b@.skip(i as int).drop_first() =~= b@.skip(i + 1));
        i = i + 1;
    }
    if i == a.len() {
        true
    } else if i == b.len() {
        false
    } else {
        a[i] < b[i]
    }
}

fn has_suffix_exec(cs: &[char], suffix: [char; 4]) -> (b: bool)
    ensures
        b == has_suffix(cs@, suffix@),
{
    let n = cs.len();
    if n >= 4 && cs[n - 4] == suffix[0] && cs[n - 3] == suffix[1] && cs[n - 2] == suffix[2]
        && cs[n - 1] == suffix[3] {
        assert(cs@.skip(n - 4) =~= suffix@);
        true
    } else {
        assert(n >= 4 ==> cs@.skip(n - 4)[0] == cs@[n - 4] && cs@.skip(n - 4)[1] == cs@[n - 3]
            && cs@.skip(n - 4)[2] == cs@[n - 2] && cs@.skip(n - 4)[3] == cs@[n - 1]);
        false
    }
}

/// `x` put into the ordered names `out` after those before it: the result is in order and
/// holds what `out` held and `x`.
fn insert_sorted(out: &mut Vec<Vec<char>>, x: Vec<char>)
    requires
        names_sorted(char_views(old(out)@)),
    ensures
        names_sorted(char_views(final(out)@)),
        char_views(final(out)@).to_multiset() == char_views(old(out)@).to_multiset().insert(x@),
{
    let ghost s = char_views(out@);
    let mut p: usize = 0;
    while p < out.len() && !str_le_exec(x.as_slice(), out[p].as_slice())
        invariant
            p <= out@.len(),
            s == char_views(out@),
            forall|k: int| 0 <= k < p ==> !str_le(x@, #[trigger] s[k]),
        decreases out@.len() - p,
    {
        p = p + 1;
    }
    let ghost xv = x@;
    out.insert(p, x);
    let ghost t = char_views(out@);
    assert(t =~= s.insert(p as int, xv));
    proof {
        to_multiset_insert(s, p as int, xv);
        assert forall|i: int, j: int| 0 <= i < j < t.len() implies str_le(
            #[trigger] t[i],
            #[trigger] t[j],
        ) by {
            if i < p && j < p {
                assert(t[i] == s[i] && t[j] == s[j]);
            } else if i < p && j == p {
                lemma_str_le_total(xv, s[i]);
            } else if i < p {
                assert(t[i] == s[i] && t[j] == s[j - 1]);
            } else if i == p {
                assert(p < s.len());
                assert(str_le(xv, s[p as int]));
                if j - 1 > p {
                    assert(str_le(s[p as int], s[j - 1]));
                    lemma_str_le_transitive(xv, s[p as int], s[j - 1]);
                }
            } else {
                assert(t[i] == s[i - 1] && t[j] == s[j - 1]);
            }
        }
    }
}

/// The contents of each list of characters.
pub open spec fn char_views(v: Seq<Vec<char>>) -> Seq<Seq<char>> {
    v.map_values(|c: Vec<char>| c@)
}

fn to_strings(v: &Vec<Vec<char>>) -> (r: Vec<String>)
    ensures
        string_views(r@) == char_views(v@),
{
    let mut r: Vec<String> = Vec::new();
    let mut i: usize = 0;
    while i < v.len()
        invariant
            i <= v@.len(),
            string_views(r@) == char_views(v@).take(i as int),
        decreases v@.len() - i,
    {
        let ghost before = r@;
        let s = chars_to_string(v[i].as_slice());
        r.push(s);
        assert(string_views(r@) =~= string_views(before).push(s@));
        assert(char_views(v@).take(i + 1) =~= char_views(v@).take(i as int).push(v@[i as int]@));
        i = i + 1;
    }
    assert(char_views(v@).take(i as int) =~= char_views(v@));
    r
}

/// The entries of a font directory, by name, sorted into the fonts and the control files
/// that they hold (without suffixes, each list in the order of strings), and the default font
/// to report for it.
pub fn classify_names(names: &Vec<String>) -> (r: (Vec<String>, Vec<String>, String))
    ensures
        names_sorted(string_views(r.0@)),
        string_views(r.0@).to_multiset() == font_names(string_views(names@)).to_multiset(),
        names_sorted(string_views(r.1@)),
        string_views(r.1@).to_multiset() == control_names(string_views(names@)).to_multiset(),
        r.2@ == default_font_name(string_views(r.0@)),
{
    let mut fonts: Vec<Vec<char>> = Vec::new();
    let mut controls: Vec<Vec<char>> = Vec::new();
    let mut i: usize = 0;
    assert(char_views(fonts@) =~= Seq::<Seq<char>>::empty());
    assert(char_views(controls@) =~= Seq::<Seq<char>>::empty());
    assert(string_views(names@).take(0) =~= Seq::<Seq<char>>::empty());
    assert(font_names(Seq::<Seq<char>>::empty()) == Seq::<Seq<char>>::empty());
    assert(control_names(Seq::<Seq<char>>::empty()) == Seq::<Seq<char>>::empty());
    while i < names.len()
        invariant
            i <= names@.len(),
            names_sorted(char_views(fonts@)),
            names_sorted(char_views(controls@)),
            char_views(fonts@).to_multiset() == font_names(string_views(names@).take(i as int)).to_multiset(),
            char_views(controls@).to_multiset() == control_names(
                string_views(names@).take(i as int),
            ).to_multiset(),
        decreases names@.len() - i,
    {
        let ghost pre = string_views(names@).take(i as int);
        let ghost now = string_views(names@).take(i + 1);
        assert(now.drop_last() =~= pre);
        assert(now.last() == names@[i as int]@);
        let cs = str_to_chars(names[i].as_str());
        let font = has_suffix_exec(cs.as_slice(), ['.', 'f', 'l', 'f'])
            || has_suffix_exec(cs.as_slice(), ['.', 't', 'l', 'f']);
        proof {
            assert(['.', 'f', 'l', 'f']@ =~= seq!['.', 'f', 'l', 'f']);
            assert(['.', 't', 'l', 'f']@ =~= seq!['.', 't', 'l', 'f']);
            assert(['.', 'f', 'l', 'c']@ =~= seq!['.', 'f', 'l', 'c']);
        }
        if font {
            let n = cs.len() - 4;
            let base = vstd::slice::slice_to_vec(vstd::slice::slice_subrange(cs.as_slice(), 0, n));
            assert(base@ =~= font_base_name(cs@));
            proof {
                to_multiset_build(font_names(pre), base@);
            }
            insert_sorted(&mut fonts, base);
        } else if has_suffix_exec(cs.as_slice(), ['.', 'f', 'l', 'c']) {
            let mut n = cs.len();
            assert(cs@.take(n as int) =~= cs@);
            while n >= 4 && cs[n - 4] == '.' && cs[n - 3] == 'f' && cs[n - 2] == 'l' && cs[n - 1]
                == 'c'
                invariant
                    n <= cs@.len(),
                    control_base_name(cs@) == control_base_name(cs@.take(n as int)),
                decreases n,
            {
                let ghost m = cs@.take(n as int);
                assert(m.skip(n - 4) =~= seq!['.', 'f', 'l', 'c']);
                assert(m.take(n - 4) =~= cs@.take(n - 4));
                n = n - 4;
            }
            proof {
                let m = cs@.take(n as int);
                if n >= 4 {
                    assert(m.skip(n - 4)[0] == cs@[n - 4] && m.skip(n - 4)[1] == cs@[n - 3]
                        && m.skip(n - 4)[2] == cs@[n - 2] && m.skip(n - 4)[3] == cs@[n - 1]);
                }
                assert(!is_control_file(m));
            }
            let base = vstd::slice::slice_to_vec(vstd::slice::slice_subrange(cs.as_slice(), 0, n));
            assert(base@ =~= control_base_name(cs@));
            proof {
                to_multiset_build(control_names(pre), base@);
            }
            insert_sorted(&mut controls, base);
        }
        i = i + 1;
    }
    assert(string_views(names@).take(i as int) =~= string_views(names@));
    let standard: [char; 8] = ['s', 't', 'a', 'n', 'd', 'a', 'r', 'd'];
    assert(standard@ =~= seq!['s', 't', 'a', 'n', 'd', 'a', 'r', 'd']);
    let mut k: usize = 0;
    let mut found = false;
    while k < fonts.len() && !found
        invariant
            k <= fonts@.len(),
            found ==> char_views(fonts@).contains(standard@),
            !found ==> forall|q: int| 0 <= q < k ==> #[trigger] char_views(fonts@)[q] != standard@,
        decreases fonts@.len() - k,
    {
        if fonts[k].len() == 8 && str_le_exec(fonts[k].as_slice(), standard.as_slice())
            && str_le_exec(standard.as_slice(), fonts[k].as_slice()) {
            proof {
                lemma_str_le_antisymmetric(fonts@[k as int]@, standard@);
                assert(char_views(fonts@)[k as int] == standard@);
            }
            found = true;
        } else {
            proof {
                if fonts@[k as int]@ == standard@ {
                    lemma_str_le_reflexive(standard@);
                }
            }
        }
        k = k + 1;
    }
    let default_chars: Vec<char> = if found {
        vstd::slice::slice_to_vec(standard.as_slice())
    } else if fonts.len() > 0 {
        vstd::slice::slice_to_vec(fonts[0].as_slice())
    } else {
        let na: [char; 3] = ['N', '/', 'A'];
        assert(na@ =~= seq!['N', '/', 'A']);
        vstd::slice::slice_to_vec(na.as_slice())
    };
    let out_fonts = to_strings(&fonts);
    let out_controls = to_strings(&controls);
    let default_name = chars_to_string(default_chars.as_slice());
    (out_fonts, out_controls, default_name)
}

proof fn lemma_str_le_reflexive(a: Seq<char>)
    ensures
        str_le(a, a),
    decreases a.len(),
{
    if a.len() > 0 {
        lemma_str_le_reflexive(a.drop_first());
    }
}

proof fn lemma_str_le_antisymmetric(a: Seq<char>, b: Seq<char>)
    requires
        str_le(a, b),
        str_le(b, a),
    ensures
        a == b,
    decreases a.len(),
{
    if a.len() > 0 && b.len() > 0 {
        lemma_str_le_antisymmetric(a.drop_first(), b.drop_first());
        assert(a =~= seq![a[0]] + a.drop_first());
        assert(b =~= seq![b[0]] + b.drop_first());
    }
}

} // verus!
