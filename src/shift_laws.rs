//! How the lines of a text follow it when part of it moves. Indentation is
//! checked line by line: moving a single line by a number of spaces that is
//! not a multiple of four breaks the canonical layout, while a trailing comma
//! before a line terminator changes nothing.
use vstd::prelude::*;
use crate::format_parser::{
    close_eol_end, close_line_spec, digits_end, format_ok, key_end, lemma_indents_are_multiples_of_four,
    lemma_indents_ok_multiples, line_spec, lines_from, mantissa_end, newline_end, number_end,
    open_line_spec, quote_pos, skip_sign, spaces_end, string_end, value_end, word_end, LineSpec,
    Token,
};
use crate::layout_laws::{
    agree, content_line_to, is_eol_char, lemma_trailing_comma, lemma_digits_bounds, lemma_line_prefix, lemma_quote_pos_bounds, lemma_spaces_bounds,
    lemma_value_bounds,
};

verus! {

/// `t1` from `p1` and `t2` from `p2` hold the same characters to their ends.
pub open spec fn same_tail(t1: Seq<char>, p1: int, t2: Seq<char>, p2: int) -> bool {
    &&& 0 <= p1 <= t1.len()
    &&& 0 <= p2 <= t2.len()
    &&& t1.len() - p1 == t2.len() - p2
    &&& t1.skip(p1) == t2.skip(p2)
}

/// Moves a position found in `t1` from `p1` to the matching one in `t2` from `p2`.
pub open spec fn moved(r: Option<int>, p1: int, p2: int) -> Option<int> {
    match r {
        Some(q) => Some(q - p1 + p2),
        None => None,
    }
}

proof fn lemma_tail_step(t1: Seq<char>, p1: int, t2: Seq<char>, p2: int)
    requires
        same_tail(t1, p1, t2, p2),
        p1 < t1.len(),
    ensures
        same_tail(t1, p1 + 1, t2, p2 + 1),
        t1[p1] == t2[p2],
{
    assert(t1.skip(p1)[0] == t2.skip(p2)[0]);
    assert(t1.skip(p1 + 1) =~= t1.skip(p1).drop_first());
    assert(t2.skip(p2 + 1) =~= t2.skip(p2).drop_first());
}

proof fn lemma_tail_at(t1: Seq<char>, p1: int, t2: Seq<char>, p2: int, j: int)
    requires
        same_tail(t1, p1, t2, p2),
        0 <= j < t1.len() - p1,
    ensures
        t1[p1 + j] == t2[p2 + j],
{
    assert(t1.skip(p1)[j] == t2.skip(p2)[j]);
}

proof fn lemma_spaces_tail(t1: Seq<char>, p1: int, t2: Seq<char>, p2: int)
    requires
        same_tail(t1, p1, t2, p2),
    ensures
        spaces_end(t1, p1) - p1 == spaces_end(t2, p2) - p2,
    decreases t1.len() - p1,
{
    if p1 < t1.len() {
        lemma_tail_step(t1, p1, t2, p2);
        lemma_spaces_tail(t1, p1 + 1, t2, p2 + 1);
    }
}

proof fn lemma_quote_tail(t1: Seq<char>, p1: int, t2: Seq<char>, p2: int)
    requires
        same_tail(t1, p1, t2, p2),
    ensures
        quote_pos(t1, p1) - p1 == quote_pos(t2, p2) - p2,
    decreases t1.len() - p1,
{
    if p1 < t1.len() {
        lemma_tail_step(t1, p1, t2, p2);
        if p1 + 1 < t1.len() {
            lemma_tail_step(t1, p1 + 1, t2, p2 + 1);
            lemma_quote_tail(t1, p1 + 2, t2, p2 + 2);
        }
        lemma_quote_tail(t1, p1 + 1, t2, p2 + 1);
    }
}

proof fn lemma_digits_tail(t1: Seq<char>, p1: int, t2: Seq<char>, p2: int)
    requires
        same_tail(t1, p1, t2, p2),
    ensures
        digits_end(t1, p1) - p1 == digits_end(t2, p2) - p2,
    decreases t1.len() - p1,
{
    if p1 < t1.len() {
        lemma_tail_step(t1, p1, t2, p2);
        lemma_digits_tail(t1, p1 + 1, t2, p2 + 1);
    }
}


proof fn lemma_tail_advance(t1: Seq<char>, p1: int, t2: Seq<char>, p2: int, d: int)
    requires
        same_tail(t1, p1, t2, p2),
        0 <= d <= t1.len() - p1,
    ensures
        same_tail(t1, p1 + d, t2, p2 + d),
{
    assert(t1.skip(p1 + d) =~= t1.skip(p1).skip(d));
    assert(t2.skip(p2 + d) =~= t2.skip(p2).skip(d));
}

proof fn lemma_string_tail(t1: Seq<char>, p1: int, t2: Seq<char>, p2: int)
    requires
        same_tail(t1, p1, t2, p2),
    ensures
        string_end(t2, p2) == moved(string_end(t1, p1), p1, p2),
{
    if p1 < t1.len() {
        lemma_tail_at(t1, p1, t2, p2, 0);
        lemma_tail_advance(t1, p1, t2, p2, 1);
        lemma_quote_tail(t1, p1 + 1, t2, p2 + 1);
    }
}

proof fn lemma_key_tail(t1: Seq<char>, p1: int, t2: Seq<char>, p2: int)
    requires
        same_tail(t1, p1, t2, p2),
    ensures
        key_end(t2, p2) == moved(key_end(t1, p1), p1, p2),
{
    lemma_string_tail(t1, p1, t2, p2);
    if p1 < t1.len() {
        lemma_quote_pos_bounds(t1, p1 + 1);
    }
    if let Some(q) = string_end(t1, p1) {
        if q + 1 < t1.len() {
            lemma_tail_at(t1, p1, t2, p2, q - p1);
            lemma_tail_at(t1, p1, t2, p2, q + 1 - p1);
        }
    }
}

proof fn lemma_newline_tail(t1: Seq<char>, p1: int, t2: Seq<char>, p2: int)
    requires
        same_tail(t1, p1, t2, p2),
    ensures
        newline_end(t2, p2) == moved(newline_end(t1, p1), p1, p2),
        close_eol_end(t2, p2) == moved(close_eol_end(t1, p1), p1, p2),
{
    if p1 < t1.len() {
        lemma_tail_at(t1, p1, t2, p2, 0);
        if p1 + 1 < t1.len() {
            lemma_tail_at(t1, p1, t2, p2, 1);
        }
        if p1 + 2 < t1.len() {
            lemma_tail_at(t1, p1, t2, p2, 2);
        }
    }
}

#[verifier::rlimit(100)]
proof fn lemma_number_tail(t1: Seq<char>, p1: int, t2: Seq<char>, p2: int)
    requires
        same_tail(t1, p1, t2, p2),
    ensures
        number_end(t2, p2) == moved(number_end(t1, p1), p1, p2),
{
    if p1 < t1.len() {
        lemma_tail_at(t1, p1, t2, p2, 0);
    }
    let a = skip_sign(t1, p1);
    lemma_tail_advance(t1, p1, t2, p2, a - p1);
    lemma_digits_tail(t1, a, t2, a - p1 + p2);
    let d = digits_end(t1, a);
    lemma_digits_bounds(t1, a);
    lemma_tail_advance(t1, p1, t2, p2, d - p1);
    if d < t1.len() {
        lemma_tail_at(t1, p1, t2, p2, d - p1);
        lemma_tail_advance(t1, p1, t2, p2, d + 1 - p1);
        lemma_digits_tail(t1, d + 1, t2, d + 1 - p1 + p2);
    }
    if a < t1.len() {
        lemma_tail_at(t1, p1, t2, p2, a - p1);
        lemma_tail_advance(t1, p1, t2, p2, a + 1 - p1);
        lemma_digits_tail(t1, a + 1, t2, a + 1 - p1 + p2);
    }
    assert(skip_sign(t2, p2) == a - p1 + p2);
    assert(mantissa_end(t2, a - p1 + p2) == moved(mantissa_end(t1, a), p1, p2));
    if let Some(m) = mantissa_end(t1, a) {
        assert(p1 <= m <= t1.len()) by {
            if a + 1 <= t1.len() {
                lemma_digits_bounds(t1, a + 1);
            }
            if d + 1 <= t1.len() {
                lemma_digits_bounds(t1, d + 1);
            }
        }
        if 0 <= m < t1.len() {
            lemma_tail_at(t1, p1, t2, p2, m - p1);
            if m + 1 < t1.len() {
                lemma_tail_at(t1, p1, t2, p2, m + 1 - p1);
            }
            let x = skip_sign(t1, m + 1);
            lemma_tail_advance(t1, p1, t2, p2, x - p1);
            lemma_digits_tail(t1, x, t2, x - p1 + p2);
        }
    }
}

proof fn lemma_word_tail(t1: Seq<char>, p1: int, t2: Seq<char>, p2: int, w: Seq<char>)
    requires
        same_tail(t1, p1, t2, p2),
    ensures
        word_end(t2, p2, w) == moved(word_end(t1, p1, w), p1, p2),
{
    if p1 + w.len() <= t1.len() {
        assert(t1.subrange(p1, p1 + w.len()) =~= t2.subrange(p2, p2 + w.len())) by {
            assert forall|j: int| 0 <= j < w.len() implies #[trigger] t1.subrange(p1, p1 + w.len())[j]
                == t2.subrange(p2, p2 + w.len())[j] by {
                lemma_tail_at(t1, p1, t2, p2, j);
            }
        }
    }
}

proof fn lemma_value_tail(t1: Seq<char>, p1: int, t2: Seq<char>, p2: int)
    requires
        same_tail(t1, p1, t2, p2),
    ensures
        value_end(t2, p2) == moved(value_end(t1, p1), p1, p2),
{
    lemma_string_tail(t1, p1, t2, p2);
    lemma_number_tail(t1, p1, t2, p2);
    lemma_word_tail(t1, p1, t2, p2, seq!['n', 'u', 'l', 'l']);
    lemma_word_tail(t1, p1, t2, p2, seq!['t', 'r', 'u', 'e']);
    lemma_word_tail(t1, p1, t2, p2, seq!['f', 'a', 'l', 's', 'e']);
    lemma_word_tail(t1, p1, t2, p2, seq!['{', '}']);
    lemma_word_tail(t1, p1, t2, p2, seq!['[', ']']);
}


/// The line at `p2` in `t2`, where the text after its indentation is the
/// text after the indentation of the line at `p1` in `t1`.
pub open spec fn relined(l: Option<LineSpec>, i1: int, p2: int, i2: int) -> Option<LineSpec> {
    match l {
        Some(l) => Some(LineSpec { indent: (i2 - p2) as nat, token: l.token, end: l.end - i1 + i2 }),
        None => None,
    }
}

#[verifier::rlimit(100)]
proof fn lemma_line_tail(t1: Seq<char>, p1: int, t2: Seq<char>, p2: int)
    requires
        0 <= p1 <= t1.len(),
        0 <= p2 <= t2.len(),
        same_tail(t1, spaces_end(t1, p1), t2, spaces_end(t2, p2)),
    ensures
        line_spec(t2, p2) == relined(line_spec(t1, p1), spaces_end(t1, p1), p2, spaces_end(t2, p2)),
{
    let i1 = spaces_end(t1, p1);
    let i2 = spaces_end(t2, p2);
    lemma_spaces_bounds(t1, p1);
    lemma_spaces_bounds(t2, p2);
    lemma_key_tail(t1, i1, t2, i2);
    if i1 < t1.len() {
        lemma_tail_at(t1, i1, t2, i2, 0);
        lemma_tail_advance(t1, i1, t2, i2, 1);
        lemma_newline_tail(t1, i1 + 1, t2, i2 + 1);
    }
    let k1 = match key_end(t1, i1) {
        Some(k) => k,
        None => i1,
    };
    assert(i1 <= k1 <= t1.len()) by {
        lemma_quote_pos_bounds(t1, i1 + 1);
    }
    lemma_tail_advance(t1, i1, t2, i2, k1 - i1);
    lemma_value_tail(t1, k1, t2, k1 - i1 + i2);
    if let Some(v) = value_end(t1, k1) {
        assert(k1 <= v <= t1.len()) by {
            lemma_value_bounds(t1, k1);
        }
        lemma_tail_advance(t1, i1, t2, i2, v - i1);
        lemma_newline_tail(t1, v, t2, v - i1 + i2);
    }
    if k1 < t1.len() {
        lemma_tail_at(t1, i1, t2, i2, k1 - i1);
        lemma_tail_advance(t1, i1, t2, i2, k1 + 1 - i1);
        lemma_newline_tail(t1, k1 + 1, t2, k1 + 1 - i1 + i2);
    }
}


/// The lines of `t` from `q` up to `p`, where the lines from `q` reach `p`
/// exactly.
pub open spec fn lines_upto(t: Seq<char>, q: int, p: int) -> Option<Seq<(nat, Token)>>
    decreases p - q,
{
    if q == p {
        Some(Seq::empty())
    } else if q < p {
        match line_spec(t, q) {
            Some(l) => if q < l.end <= p {
                match lines_upto(t, l.end, p) {
                    Some(rest) => Some(seq![(l.indent, l.token)] + rest),
                    None => None,
                }
            } else {
                None
            },
            None => None,
        }
    } else {
        None
    }
}

#[verifier::rlimit(100)]
proof fn lemma_lines_split(t: Seq<char>, q: int, p: int)
    requires
        0 <= q,
        p < t.len(),
        lines_upto(t, q, p) is Some,
    ensures
        lines_from(t, q) == (match lines_from(t, p) {
            Some(rest) => Some(lines_upto(t, q, p)->0 + rest),
            None => None,
        }),
    decreases p - q,
{
    if q < p {
        let l = line_spec(t, q)->0;
        lemma_lines_split(t, l.end, p);
        let pre = lines_upto(t, l.end, p)->0;
        if let Some(rest) = lines_from(t, p) {
            assert(seq![(l.indent, l.token)] + pre + rest =~= seq![(l.indent, l.token)] + (pre
                + rest));
        }
    } else {
        if let Some(rest) = lines_from(t, p) {
            assert(Seq::<(nat, Token)>::empty() + rest =~= rest);
        }
    }
}

proof fn lemma_newline_last(t: Seq<char>, p: int)
    requires
        newline_end(t, p) is Some,
    ensures
        t[newline_end(t, p)->0 - 1] == '\n',
{
}

#[verifier::rlimit(100)]
proof fn lemma_lines_upto_agree(t1: Seq<char>, t2: Seq<char>, q: int, p: int)
    requires
        0 <= q,
        agree(t1, t2, 0, p),
        p < t1.len(),
        lines_upto(t1, q, p) is Some,
    ensures
        lines_upto(t2, q, p) == lines_upto(t1, q, p),
    decreases p - q,
{
    if q < p {
        let l = line_spec(t1, q)->0;
        assert(t1[l.end - 1] == '\n') by {
            let i = spaces_end(t1, q);
            if open_line_spec(t1, q) is Some {
                let k = match key_end(t1, i) {
                    Some(k) => k,
                    None => i,
                };
                lemma_newline_last(t1, k + 1);
            } else if close_line_spec(t1, q) is Some {
                if close_eol_end(t1, i + 1) is Some {
                    if t1[i + 1] == ',' {
                        lemma_newline_last(t1, i + 2);
                    } else {
                        lemma_newline_last(t1, i + 1);
                    }
                }
            } else {
                let k = match key_end(t1, i) {
                    Some(k) => k,
                    None => i,
                };
                let v = value_end(t1, k)->0;
                if t1[v] == ',' {
                    lemma_newline_last(t1, v + 1);
                } else {
                    lemma_newline_last(t1, v);
                }
            }
        }
        lemma_line_prefix(t1, t2, q, l.end);
        lemma_lines_upto_agree(t1, t2, l.end, p);
    }
}

#[verifier::rlimit(100)]
proof fn lemma_lines_tail(t1: Seq<char>, p1: int, t2: Seq<char>, p2: int)
    requires
        same_tail(t1, p1, t2, p2),
    ensures
        lines_from(t2, p2) == lines_from(t1, p1),
    decreases t1.len() - p1,
{
    if p1 < t1.len() {
        lemma_spaces_tail(t1, p1, t2, p2);
        let i1 = spaces_end(t1, p1);
        lemma_spaces_bounds(t1, p1);
        lemma_tail_advance(t1, p1, t2, p2, i1 - p1);
        lemma_line_tail(t1, p1, t2, p2);
        if let Some(l) = line_spec(t1, p1) {
            if l.end > p1 && l.end <= t1.len() {
                lemma_tail_advance(t1, p1, t2, p2, l.end - p1);
                lemma_lines_tail(t1, l.end, t2, l.end - p1 + p2);
            }
        }
    }
}


/// `n` spaces.
pub open spec fn spaces(n: nat) -> Seq<char> {
    Seq::new(n, |j: int| ' ')
}

proof fn lemma_spaces_walk(t: Seq<char>, p: int, n: int)
    requires
        0 <= p,
        0 <= n,
        p + n <= t.len(),
        forall|j: int| p <= j < p + n ==> t[j] == ' ',
    ensures
        spaces_end(t, p) == spaces_end(t, p + n),
    decreases n,
{
    if n > 0 {
        lemma_spaces_walk(t, p + 1, n - 1);
    }
}

proof fn lemma_line_bounds(t: Seq<char>, p: int)
    requires
        0 <= p <= t.len(),
        line_spec(t, p) is Some,
    ensures
        spaces_end(t, p) < line_spec(t, p)->0.end <= t.len(),
{
    let i = spaces_end(t, p);
    lemma_spaces_bounds(t, p);
    if i < t.len() {
        lemma_quote_pos_bounds(t, i + 1);
    }
    let k = match key_end(t, i) {
        Some(k) => k,
        None => i,
    };
    if k <= t.len() && value_end(t, k) is Some {
        lemma_value_bounds(t, k);
    }
}

/// Where `t1` from `p + n1` and `t2` from `p + n2` are the same text, and
/// both hold only spaces before that, the lines from `p` are the same but for
/// the first one's indentation.
#[verifier::rlimit(100)]
proof fn lemma_shifted_suffix(t1: Seq<char>, t2: Seq<char>, p: int, n1: int, n2: int)
    requires
        0 <= p,
        0 <= n1,
        0 <= n2,
        p + n1 < t1.len(),
        same_tail(t1, p + n1, t2, p + n2),
        forall|j: int| p <= j < p + n1 ==> t1[j] == ' ',
        forall|j: int| p <= j < p + n2 ==> t2[j] == ' ',
        lines_from(t1, p) is Some,
    ensures
        lines_from(t2, p) is Some,
        lines_from(t2, p)->0.len() == lines_from(t1, p)->0.len() > 0,
        lines_from(t2, p)->0[0].0 == lines_from(t1, p)->0[0].0 - n1 + n2,
{
    lemma_spaces_walk(t1, p, n1);
    lemma_spaces_walk(t2, p, n2);
    lemma_spaces_tail(t1, p + n1, t2, p + n2);
    let i1 = spaces_end(t1, p);
    let i2 = spaces_end(t2, p);
    lemma_spaces_bounds(t1, p + n1);
    lemma_tail_advance(t1, p + n1, t2, p + n2, i1 - (p + n1));
    lemma_line_tail(t1, p, t2, p);
    let l = line_spec(t1, p)->0;
    lemma_line_bounds(t1, p);
    lemma_tail_advance(t1, i1, t2, i2, l.end - i1);
    lemma_lines_tail(t1, l.end, t2, l.end - i1 + i2);
}

/// With `n1` spaces turned into `n2` at the start of the line after `x`, the
/// lines are the same but for that line's indentation.
#[verifier::rlimit(100)]
proof fn lemma_shifted_document(x: Seq<char>, n1: nat, n2: nat, z: Seq<char>)
    requires
        lines_upto(x + spaces(n1) + z, 0, x.len() as int) is Some,
        lines_from(x + spaces(n1) + z, 0) is Some,
        z.len() > 0,
    ensures
        ({
            let lines1 = lines_from(x + spaces(n1) + z, 0)->0;
            let lines2 = lines_from(x + spaces(n2) + z, 0)->0;
            let k = lines_upto(x + spaces(n1) + z, 0, x.len() as int)->0.len() as int;
            &&& lines_from(x + spaces(n2) + z, 0) is Some
            &&& k < lines1.len()
            &&& lines2.len() == lines1.len()
            &&& lines2[k].0 == lines1[k].0 - n1 + n2
        }),
{
    let t1 = x + spaces(n1) + z;
    let t2 = x + spaces(n2) + z;
    let p = x.len() as int;
    assert(agree(t1, t2, 0, p)) by {
        assert forall|j: int| 0 <= j < p implies t1[j] == t2[j] by {
            assert(t1[j] == x[j] && t2[j] == x[j]);
        }
    }
    lemma_lines_upto_agree(t1, t2, 0, p);
    lemma_lines_split(t1, 0, p);
    lemma_lines_split(t2, 0, p);
    let pre = lines_upto(t1, 0, p)->0;
    assert(same_tail(t1, p + n1, t2, p + n2)) by {
        assert(t1.skip(p + n1) =~= z);
        assert(t2.skip(p + n2) =~= z);
    }
    assert forall|j: int| p <= j < p + n1 implies t1[j] == ' ' by {
        assert(t1[j] == spaces(n1)[j - p]);
    }
    assert forall|j: int| p <= j < p + n2 implies t2[j] == ' ' by {
        assert(t2[j] == spaces(n2)[j - p]);
    }
    lemma_shifted_suffix(t1, t2, p, n1 as int, n2 as int);
    let rest1 = lines_from(t1, p)->0;
    let rest2 = lines_from(t2, p)->0;
    assert((pre + rest1)[pre.len() as int] == rest1[0]);
    assert((pre + rest2)[pre.len() as int] == rest2[0]);
}

/// Moving one line of a text in the canonical layout by a number of spaces
/// that is not a multiple of four puts the text out of it: `x` is the lines
/// before that line, whose indentation starts with `n1` spaces and becomes
/// `n2`, and `z` is the rest of the text from there.
pub proof fn lemma_indentation_sensitivity(x: Seq<char>, n1: nat, n2: nat, z: Seq<char>)
    requires
        format_ok(x + spaces(n1) + z),
        lines_upto(x + spaces(n1) + z, 0, x.len() as int) is Some,
        z.len() > 0,
        (n1 - n2) % 4 != 0,
    ensures
        !format_ok(x + spaces(n2) + z),
{
    let t1 = x + spaces(n1) + z;
    let t2 = x + spaces(n2) + z;
    lemma_shifted_document(x, n1, n2, z);
    let lines1 = lines_from(t1, 0)->0;
    let lines2 = lines_from(t2, 0)->0;
    let k = lines_upto(t1, 0, x.len() as int)->0.len() as int;
    lemma_indents_ok_multiples(lines1, 0);
    assert(lines1[k].0 % 4 == 0);
    assert(lines2[k].0 % 4 != 0);
    lemma_indents_are_multiples_of_four(t2, k);
}


/// The line at the end of `x` in `x + u` is the first line of `u`, moved.
proof fn lemma_line_after(x: Seq<char>, u: Seq<char>)
    ensures
        line_spec(x + u, x.len() as int) == (match line_spec(u, 0) {
            Some(l) => Some(LineSpec { indent: l.indent, token: l.token, end: l.end + x.len() }),
            None => None,
        }),
{
    let t = x + u;
    let p = x.len() as int;
    assert(same_tail(u, 0, t, p)) by {
        assert(t.skip(p) =~= u);
        assert(u.skip(0) =~= u);
    }
    lemma_spaces_tail(u, 0, t, p);
    lemma_spaces_bounds(u, 0);
    let i = spaces_end(u, 0);
    lemma_tail_advance(u, 0, t, p, i);
    lemma_line_tail(u, 0, t, p);
}

/// Where the lines after `x` in `x + u` start with one ending at `e` in `u`,
/// the lines from there on are that line and the lines of `u` after it.
proof fn lemma_lines_after(x: Seq<char>, u: Seq<char>)
    requires
        line_spec(u, 0) is Some,
        line_spec(u, 0)->0.end > 0,
    ensures
        lines_from(x + u, x.len() as int) == (match lines_from(u, line_spec(u, 0)->0.end) {
            Some(rest) => Some(seq![(line_spec(u, 0)->0.indent, line_spec(u, 0)->0.token)] + rest),
            None => None,
        }),
{
    let t = x + u;
    let p = x.len() as int;
    let l = line_spec(u, 0)->0;
    lemma_line_after(x, u);
    lemma_line_bounds(u, 0);
    assert(same_tail(u, l.end, t, p + l.end)) by {
        assert(t.skip(p + l.end) =~= u.skip(l.end));
    }
    lemma_lines_tail(u, l.end, t, p + l.end);
}

/// The comma before the terminator of a closing line or a member line leaves
/// the verdict on the whole text unchanged: `x` is the lines before that line,
/// `a` its content, `e` its terminator and `z` the text after it.
#[verifier::rlimit(100)]
pub proof fn lemma_trailing_comma_document(
    x: Seq<char>,
    a: Seq<char>,
    e: Seq<char>,
    z: Seq<char>,
)
    requires
        e == seq!['\n'] || e == seq!['\r', '\n'],
        a.len() > 0,
        !is_eol_char(a.last()),
        lines_upto(x + (a + e + z), 0, x.len() as int) is Some,
        content_line_to(a + e + z, (a.len() + e.len()) as int),
    ensures
        format_ok(x + (a + seq![','] + e + z)) == format_ok(x + (a + e + z)),
{
    let u1 = a + e + z;
    let u2 = a + seq![','] + e + z;
    let t1 = x + u1;
    let t2 = x + u2;
    let p = x.len() as int;
    assert(agree(t1, t2, 0, p)) by {
        assert forall|j: int| 0 <= j < p implies t1[j] == t2[j] by {
            assert(t1[j] == x[j] && t2[j] == x[j]);
        }
    }
    lemma_lines_upto_agree(t1, t2, 0, p);
    lemma_lines_split(t1, 0, p);
    lemma_lines_split(t2, 0, p);
    lemma_trailing_comma(a, e, z);
    let e1 = (a.len() + e.len()) as int;
    let e2 = e1 + 1;
    lemma_lines_after(x, u1);
    lemma_lines_after(x, u2);
    assert(same_tail(u1, e1, u2, e2)) by {
        assert(u1.skip(e1) =~= z);
        assert(u2.skip(e2) =~= z);
    }
    lemma_lines_tail(u1, e1, u2, e2);
}

} // verus!
