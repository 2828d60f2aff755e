//! How a line reads where two texts agree; in particular, the trailing comma
//! of a closing line or a member line is optional.
use vstd::prelude::*;
use crate::format_parser::{
    close_eol_end, close_line_spec, digits_end, is_digit, is_open, key_end, line_spec, mantissa_end,
    number_end, open_line_spec, quote_pos, skip_sign, spaces_end, string_end, value_end, LineSpec,
};

verus! {

/// `t1` and `t2` hold the same characters on `[lo, hi)`.
pub open spec fn agree(t1: Seq<char>, t2: Seq<char>, lo: int, hi: int) -> bool {
    &&& 0 <= lo <= hi
    &&& hi <= t1.len()
    &&& hi <= t2.len()
    &&& forall|j: int| lo <= j < hi ==> t1[j] == t2[j]
}

/// A character that can only end a line's content.
pub open spec fn is_eol_char(c: char) -> bool {
    c == ',' || c == '\n' || c == '\r'
}

proof fn lemma_spaces_agree(t1: Seq<char>, t2: Seq<char>, p: int, m: int)
    requires
        agree(t1, t2, p, m),
        m < t1.len() && m < t2.len(),
        is_eol_char(t1[m]) && is_eol_char(t2[m]),
    ensures
        spaces_end(t1, p) == spaces_end(t2, p),
        spaces_end(t1, p) <= m,
    decreases m - p,
{
    if p < m {
        lemma_spaces_agree(t1, t2, p + 1, m);
    }
}

proof fn lemma_digits_agree(t1: Seq<char>, t2: Seq<char>, p: int, m: int)
    requires
        agree(t1, t2, p, m),
        m < t1.len() && m < t2.len(),
        is_eol_char(t1[m]) && is_eol_char(t2[m]),
    ensures
        digits_end(t1, p) == digits_end(t2, p),
        digits_end(t1, p) <= m,
    decreases m - p,
{
    if p < m {
        lemma_digits_agree(t1, t2, p + 1, m);
    }
}

pub(crate) proof fn lemma_quote_pos_bounds(t: Seq<char>, p: int)
    requires
        0 <= p,
    ensures
        p <= quote_pos(t, p),
        p <= t.len() ==> quote_pos(t, p) <= t.len(),
        quote_pos(t, p) < t.len() ==> t[quote_pos(t, p)] == '"',
    decreases t.len() - p,
{
    if p < t.len() && t[p] != '"' {
        lemma_quote_pos_bounds(t, p + 1);
        if p + 1 < t.len() {
            lemma_quote_pos_bounds(t, p + 2);
        }
    }
}

proof fn lemma_quote_agree(t1: Seq<char>, t2: Seq<char>, p: int, m: int)
    requires
        agree(t1, t2, p, m),
        quote_pos(t1, p) < m,
    ensures
        quote_pos(t1, p) == quote_pos(t2, p),
    decreases m - p,
{
    lemma_quote_pos_bounds(t1, p);
    if p < m && t1[p] != '"' {
        if t1[p] == '\\' && p + 1 < t1.len() {
            lemma_quote_pos_bounds(t1, p + 2);
            lemma_quote_agree(t1, t2, p + 2, m);
        } else {
            lemma_quote_pos_bounds(t1, p + 1);
            lemma_quote_agree(t1, t2, p + 1, m);
        }
    }
}


pub(crate) proof fn lemma_digits_bounds(t: Seq<char>, p: int)
    requires
        0 <= p <= t.len(),
    ensures
        p <= digits_end(t, p) <= t.len(),
        digits_end(t, p) > p ==> is_digit(t[digits_end(t, p) - 1]),
    decreases t.len() - p,
{
    if p < t.len() && is_digit(t[p]) {
        lemma_digits_bounds(t, p + 1);
    }
}

pub(crate) proof fn lemma_spaces_bounds(t: Seq<char>, p: int)
    requires
        0 <= p <= t.len(),
    ensures
        p <= spaces_end(t, p) <= t.len(),
    decreases t.len() - p,
{
    if p < t.len() && t[p] == ' ' {
        lemma_spaces_bounds(t, p + 1);
    }
}

pub(crate) proof fn lemma_value_bounds(t: Seq<char>, k: int)
    requires
        0 <= k <= t.len(),
        value_end(t, k) is Some,
    ensures
        k < value_end(t, k)->0 <= t.len(),
{
    lemma_value_last(t, k);
}

/// A value is not empty, and its last character can neither end a line nor
/// open a bracket.
proof fn lemma_value_last(t: Seq<char>, k: int)
    requires
        0 <= k <= t.len(),
        value_end(t, k) is Some,
    ensures
        k < value_end(t, k)->0 <= t.len(),
        !is_eol_char(t[value_end(t, k)->0 - 1]),
        t[value_end(t, k)->0 - 1] != '{' && t[value_end(t, k)->0 - 1] != '[',
{
    let v = value_end(t, k)->0;
    if string_end(t, k) is Some {
        lemma_quote_pos_bounds(t, k + 1);
    } else if number_end(t, k) is Some {
        let a = skip_sign(t, k);
        lemma_digits_bounds(t, a);
        let d = digits_end(t, a);
        if d > a && d < t.len() && t[d] == '.' {
            lemma_digits_bounds(t, d + 1);
        }
        if d == a && a < t.len() {
            lemma_digits_bounds(t, a + 1);
        }
        let m = mantissa_end(t, a)->0;
        if 0 <= m < t.len() && (t[m] == 'e' || t[m] == 'E') {
            lemma_digits_bounds(t, skip_sign(t, m + 1));
        }
    } else {
        assert(t.subrange(k, v)[v - k - 1] == t[v - 1]);
    }
}

/// Where two texts agree before `m` and both hold a line-ending character at
/// `m`, a value that ends at `m` in the first is read the same in the second.
#[verifier::rlimit(100)]
proof fn lemma_value_agree(t1: Seq<char>, t2: Seq<char>, k: int, m: int)
    requires
        agree(t1, t2, 0, m),
        0 <= k,
        m < t1.len() && m < t2.len(),
        is_eol_char(t1[m]) && is_eol_char(t2[m]),
        value_end(t1, k) == Some(m),
    ensures
        value_end(t2, k) == Some(m),
{
    lemma_value_last(t1, k);
    assert(t1[k] == t2[k]);
    if string_end(t1, k) is Some {
        lemma_quote_agree(t1, t2, k + 1, m);
    } else if number_end(t1, k) is Some {
        let a = skip_sign(t1, k);
        lemma_digits_agree(t1, t2, a, m);
        let d = digits_end(t1, a);
        if d < m && t1[d] == '.' {
            lemma_digits_agree(t1, t2, d + 1, m);
        }
        if a < m {
            lemma_digits_agree(t1, t2, a + 1, m);
        }
        let e = mantissa_end(t1, a)->0;
        lemma_digits_bounds(t1, a);
        if e < m && (t1[e] == 'e' || t1[e] == 'E') {
            let x = skip_sign(t1, e + 1);
            lemma_digits_agree(t1, t2, x, m);
        }
    } else {
        assert(t1.subrange(k, m) =~= t2.subrange(k, m));
        assert(t2.subrange(k, k + 1)[0] == t2[k]);
        assert(t1.subrange(k, k + 1)[0] == t1[k]);
    }
}


/// A closing line or member line of `t1` whose content ends at `m` reads the
/// same in `t2`, which agrees with `t1` before `m` and ends the line from `m`
/// with or without a comma.
#[verifier::rlimit(100)]
proof fn lemma_line_agree(t1: Seq<char>, t2: Seq<char>, m: int)
    requires
        agree(t1, t2, 0, m),
        1 <= m,
        m < t1.len() && m < t2.len(),
        is_eol_char(t1[m]) && is_eol_char(t2[m]),
        !is_eol_char(t1[m - 1]),
        close_eol_end(t1, m) is Some,
        close_eol_end(t2, m) is Some,
        line_spec(t1, 0) matches Some(l) && !is_open(l.token) && l.end == close_eol_end(t1, m)->0,
    ensures
        line_spec(t2, 0) == Some(
            LineSpec {
                indent: line_spec(t1, 0)->0.indent,
                token: line_spec(t1, 0)->0.token,
                end: close_eol_end(t2, m)->0,
            },
        ),
{
    let l = line_spec(t1, 0)->0;
    lemma_spaces_agree(t1, t2, 0, m);
    lemma_spaces_bounds(t1, 0);
    let i = spaces_end(t1, 0);
    assert(open_line_spec(t1, 0) is None);
    if close_line_spec(t1, 0) is Some {
        assert(i + 1 == m);
        assert(t2[i] == t1[i]);
    } else {
        let k = match key_end(t1, i) {
            Some(k) => k,
            None => i,
        };
        lemma_quote_pos_bounds(t1, i + 1);
        let v = value_end(t1, k)->0;
        lemma_value_last(t1, k);
        assert(v == m);
        assert(t2[i] == t1[i]);
        if t1[i] == '"' && quote_pos(t1, i + 1) < m {
            lemma_quote_agree(t1, t2, i + 1, m);
        }
        assert(key_end(t2, i) == key_end(t1, i));
        lemma_value_agree(t1, t2, k, m);
        assert(t2[k] == t1[k]);
        if t1[k] == '{' || t1[k] == '[' {
            assert(k + 2 <= m) by {
                if k + 1 == m {
                    assert(t1[m - 1] == t1[k]);
                }
            }
            assert(t2[k + 1] == t1[k + 1]);
        }
    }
}

/// The first line of `t` is a closing line or a member line that ends at `end`.
pub open spec fn content_line_to(t: Seq<char>, end: int) -> bool {
    line_spec(t, 0) matches Some(l) && !is_open(l.token) && l.end == end
}

/// The comma before the terminator of a closing line or a member line is
/// optional: the line `a` followed by a terminator `e` is read with the same
/// indentation and token whether or not a comma stands between them.
pub proof fn lemma_trailing_comma(a: Seq<char>, e: Seq<char>, rest: Seq<char>)
    requires
        e == seq!['\n'] || e == seq!['\r', '\n'],
        a.len() > 0,
        !is_eol_char(a.last()),
    ensures
        content_line_to(a + e + rest, (a.len() + e.len()) as int) ==> line_spec(
            a + seq![','] + e + rest,
            0,
        ) == Some(
            LineSpec {
                indent: line_spec(a + e + rest, 0)->0.indent,
                token: line_spec(a + e + rest, 0)->0.token,
                end: (a.len() + 1 + e.len()) as int,
            },
        ),
        content_line_to(a + seq![','] + e + rest, (a.len() + 1 + e.len()) as int) ==> line_spec(
            a + e + rest,
            0,
        ) == Some(
            LineSpec {
                indent: line_spec(a + seq![','] + e + rest, 0)->0.indent,
                token: line_spec(a + seq![','] + e + rest, 0)->0.token,
                end: (a.len() + e.len()) as int,
            },
        ),
{
    let bare = a + e + rest;
    let comma = a + seq![','] + e + rest;
    let m = a.len() as int;
    assert(bare[m] == e[0]);
    assert(comma[m] == ',');
    assert(comma[m + 1] == e[0]);
    assert(bare[m - 1] == a.last());
    assert(comma[m - 1] == a.last());
    if e.len() == 2 {
        assert(bare[m + 1] == e[1]);
        assert(comma[m + 2] == e[1]);
    }
    assert(close_eol_end(bare, m) == Some(m + e.len()));
    assert(close_eol_end(comma, m) == Some(m + 1 + e.len()));
    if content_line_to(bare, m + e.len()) {
        lemma_line_agree(bare, comma, m);
    }
    if content_line_to(comma, m + 1 + e.len()) {
        lemma_line_agree(comma, bare, m);
    }
}


/// A line of `t1` that ends with a newline at `e` reads the same in any `t2`
/// that agrees with `t1` before `e`.
#[verifier::rlimit(100)]
pub(crate) proof fn lemma_line_prefix(t1: Seq<char>, t2: Seq<char>, q: int, e: int)
    requires
        agree(t1, t2, 0, e),
        0 <= q < e,
        t1[e - 1] == '\n',
        line_spec(t1, q) matches Some(l) && l.end == e,
    ensures
        line_spec(t2, q) == line_spec(t1, q),
{
    let m = e - 1;
    lemma_spaces_agree(t1, t2, q, m);
    lemma_spaces_bounds(t1, q);
    let i = spaces_end(t1, q);
    assert(t2[m] == t1[m]);
    if i < m {
        assert(t2[i] == t1[i]);
        assert(t2[i + 1] == t1[i + 1]);
    }
    lemma_quote_pos_bounds(t1, i + 1);
    if string_end(t1, i) is Some && quote_pos(t1, i + 1) < m {
        lemma_quote_agree(t1, t2, i + 1, m);
    }
    let k = match key_end(t1, i) {
        Some(k) => k,
        None => i,
    };
    if k < m {
        assert(t2[k] == t1[k]);
        assert(t2[k + 1] == t1[k + 1]);
    }
    if k <= t1.len() && value_end(t1, k) is Some {
        let c = value_end(t1, k)->0;
        lemma_value_last(t1, k);
        if c < e && close_eol_end(t1, c) is Some {
            assert(t2[c] == t1[c]);
            if c + 1 < e {
                assert(t2[c + 1] == t1[c + 1]);
            }
            if c + 2 < e {
                assert(t2[c + 2] == t1[c + 2]);
            }
            if is_eol_char(t1[c]) {
                lemma_value_agree(t1, t2, k, c);
            }
        }
    }
    assert(key_end(t2, i) == key_end(t1, i));
    if k + 2 < e {
        assert(t2[k + 2] == t1[k + 2]);
    }
}

} // verus!
