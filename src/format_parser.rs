//! A line-oriented grammar for canonically laid-out JSON text, and the
//! indentation check that runs over the lines it recognises.
use vstd::prelude::*;

verus! {

/// Number of leading spaces on a line.
#[derive(Debug, Clone, Copy, PartialEq, Eq, Structural)]
pub struct Indention {
    pub count: usize,
}

/// Structural content of one line.
#[derive(Debug, Clone, Copy, PartialEq, Eq, Structural)]
pub enum Token {
    OpenCurley,
    CloseCurley,
    OpenSquare,
    CloseSquare,
    Value,
}

// ---------------------------------------------------------------------------
// The grammar, over a text `t` read from position `p`. Each rule gives the
// position just after what it recognises, or `None` where it does not match.
// ---------------------------------------------------------------------------

/// End of the run of spaces that starts at `p`.
pub open spec fn spaces_end(t: Seq<char>, p: int) -> int
    decreases t.len() - p,
{
    if 0 <= p < t.len() && t[p] == ' ' {
        spaces_end(t, p + 1)
    } else {
        p
    }
}

/// First position at or after `p` that holds a double quote that no backslash
/// escapes, or the end of `t`. A backslash takes the character after it along.
pub open spec fn quote_pos(t: Seq<char>, p: int) -> int
    decreases t.len() - p,
{
    if 0 <= p < t.len() && t[p] != '"' {
        if t[p] == '\\' && p + 1 < t.len() {
            quote_pos(t, p + 2)
        } else {
            quote_pos(t, p + 1)
        }
    } else {
        p
    }
}

pub open spec fn is_digit(c: char) -> bool {
    '0' <= c <= '9'
}

/// End of the run of decimal digits that starts at `p`.
pub open spec fn digits_end(t: Seq<char>, p: int) -> int
    decreases t.len() - p,
{
    if 0 <= p < t.len() && is_digit(t[p]) {
        digits_end(t, p + 1)
    } else {
        p
    }
}

/// `"` body `"`, where the body runs to the first `"` that no backslash escapes.
pub open spec fn string_end(t: Seq<char>, p: int) -> Option<int> {
    if 0 <= p < t.len() && t[p] == '"' && quote_pos(t, p + 1) < t.len() {
        Some(quote_pos(t, p + 1) + 1)
    } else {
        None
    }
}

/// A string followed by `": "`.
pub open spec fn key_end(t: Seq<char>, p: int) -> Option<int> {
    match string_end(t, p) {
        Some(q) => if q + 1 < t.len() && t[q] == ':' && t[q + 1] == ' ' {
            Some(q + 2)
        } else {
            None
        },
        None => None,
    }
}

pub open spec fn skip_sign(t: Seq<char>, p: int) -> int {
    if 0 <= p < t.len() && (t[p] == '+' || t[p] == '-') {
        p + 1
    } else {
        p
    }
}

/// The mantissa of a number: digits with an optional fraction, or `.` and digits.
pub open spec fn mantissa_end(t: Seq<char>, p: int) -> Option<int> {
    let d = digits_end(t, p);
    if d > p {
        if d < t.len() && t[d] == '.' {
            Some(digits_end(t, d + 1))
        } else {
            Some(d)
        }
    } else if 0 <= p < t.len() && t[p] == '.' && digits_end(t, p + 1) > p + 1 {
        Some(digits_end(t, p + 1))
    } else {
        None
    }
}

/// A number: optional sign, mantissa, then an optional exponent. An exponent
/// marker without digits after it makes the whole number fail.
pub open spec fn number_end(t: Seq<char>, p: int) -> Option<int> {
    match mantissa_end(t, skip_sign(t, p)) {
        Some(m) => if 0 <= m < t.len() && (t[m] == 'e' || t[m] == 'E') {
            let x = skip_sign(t, m + 1);
            if digits_end(t, x) > x {
                Some(digits_end(t, x))
            } else {
                None
            }
        } else {
            Some(m)
        },
        None => None,
    }
}

/// The characters of `w` stand in `t` at `p`.
pub open spec fn word_end(t: Seq<char>, p: int, w: Seq<char>) -> Option<int> {
    if 0 <= p && p + w.len() <= t.len() && t.subrange(p, p + w.len()) == w {
        Some(p + w.len())
    } else {
        None
    }
}

/// A scalar value: the first of string, number, `null`, `true`, `false`,
/// `{}` and `[]` that matches.
pub open spec fn value_end(t: Seq<char>, p: int) -> Option<int> {
    if string_end(t, p) is Some {
        string_end(t, p)
    } else if number_end(t, p) is Some {
        number_end(t, p)
    } else if word_end(t, p, seq!['n', 'u', 'l', 'l']) is Some {
        word_end(t, p, seq!['n', 'u', 'l', 'l'])
    } else if word_end(t, p, seq!['t', 'r', 'u', 'e']) is Some {
        word_end(t, p, seq!['t', 'r', 'u', 'e'])
    } else if word_end(t, p, seq!['f', 'a', 'l', 's', 'e']) is Some {
        word_end(t, p, seq!['f', 'a', 'l', 's', 'e'])
    } else if word_end(t, p, seq!['{', '}']) is Some {
        word_end(t, p, seq!['{', '}'])
    } else {
        word_end(t, p, seq!['[', ']'])
    }
}

/// A line terminator: `\n` or `\r\n`.
pub open spec fn newline_end(t: Seq<char>, p: int) -> Option<int> {
    if 0 <= p < t.len() && t[p] == '\n' {
        Some(p + 1)
    } else if 0 <= p && p + 1 < t.len() && t[p] == '\r' && t[p + 1] == '\n' {
        Some(p + 2)
    } else {
        None
    }
}

/// An optional comma, then a line terminator.
pub open spec fn close_eol_end(t: Seq<char>, p: int) -> Option<int> {
    if 0 <= p < t.len() && t[p] == ',' {
        newline_end(t, p + 1)
    } else {
        newline_end(t, p)
    }
}


pub open spec fn open_token(c: char) -> Option<Token> {
    if c == '{' {
        Some(Token::OpenCurley)
    } else if c == '[' {
        Some(Token::OpenSquare)
    } else {
        None
    }
}

pub open spec fn close_token(c: char) -> Option<Token> {
    if c == '}' {
        Some(Token::CloseCurley)
    } else if c == ']' {
        Some(Token::CloseSquare)
    } else {
        None
    }
}

/// What one line holds: its indentation, its token, and the position after it.
pub struct LineSpec {
    pub indent: nat,
    pub token: Token,
    pub end: int,
}

/// Indentation, an optional member key, `{` or `[`, then a line terminator.
pub open spec fn open_line_spec(t: Seq<char>, p: int) -> Option<LineSpec> {
    let i = spaces_end(t, p);
    let k = match key_end(t, i) {
        Some(k) => k,
        None => i,
    };
    if 0 <= k < t.len() && open_token(t[k]) is Some && newline_end(t, k + 1) is Some {
        Some(LineSpec { indent: (i - p) as nat, token: open_token(t[k])->0, end: newline_end(t, k + 1)->0 })
    } else {
        None
    }
}

/// Indentation, `}` or `]`, then an optional comma and a line terminator, or
/// the end of the text right after the bracket.
pub open spec fn close_line_spec(t: Seq<char>, p: int) -> Option<LineSpec> {
    let i = spaces_end(t, p);
    if 0 <= i < t.len() && close_token(t[i]) is Some {
        let tok = close_token(t[i])->0;
        if close_eol_end(t, i + 1) is Some {
            Some(LineSpec { indent: (i - p) as nat, token: tok, end: close_eol_end(t, i + 1)->0 })
        } else if i + 1 == t.len() {
            Some(LineSpec { indent: (i - p) as nat, token: tok, end: t.len() as int })
        } else {
            None
        }
    } else {
        None
    }
}

/// Indentation, an optional member key, a scalar value, an optional comma and
/// a line terminator: an object member, or an element of an array.
pub open spec fn member_line_spec(t: Seq<char>, p: int) -> Option<LineSpec> {
    let i = spaces_end(t, p);
    let k = match key_end(t, i) {
        Some(k) => k,
        None => i,
    };
    match value_end(t, k) {
        Some(v) => match close_eol_end(t, v) {
            Some(e) => Some(LineSpec { indent: (i - p) as nat, token: Token::Value, end: e }),
            None => None,
        },
        None => None,
    }
}

/// The first of open line, close line and member line that matches at `p`.
pub open spec fn line_spec(t: Seq<char>, p: int) -> Option<LineSpec> {
    if open_line_spec(t, p) is Some {
        open_line_spec(t, p)
    } else if close_line_spec(t, p) is Some {
        close_line_spec(t, p)
    } else {
        member_line_spec(t, p)
    }
}

// ---------------------------------------------------------------------------
// Recognisers. Each reads `t` from `p` and returns what its rule above gives.
// ---------------------------------------------------------------------------

/// Counts the spaces that start at `p`.
fn indention(t: &Vec<char>, p: usize) -> (r: usize)
    requires
        p <= t.len(),
    ensures
        r == spaces_end(t@, p as int),
        p <= r <= t.len(),
{
    let mut i: usize = p;
    while i < t.len() && t[i] == ' '
        invariant
            p <= i <= t.len(),
            spaces_end(t@, p as int) == spaces_end(t@, i as int),
        decreases t.len() - i,
    {
        i = i + 1;
    }
    i
}

/// Finds the next double quote at or after `p` that no backslash escapes.
fn parse_str(t: &Vec<char>, p: usize) -> (r: usize)
    requires
        p <= t.len(),
    ensures
        r == quote_pos(t@, p as int),
        p <= r <= t.len(),
{
    let mut i: usize = p;
    while i < t.len() && t[i] != '"'
        invariant
            p <= i <= t.len(),
            quote_pos(t@, p as int) == quote_pos(t@, i as int),
        decreases t.len() - i,
    {
        if t[i] == '\\' && i + 1 < t.len() {
            i = i + 2;
        } else {
            i = i + 1;
        }
    }
    i
}

/// Skips the decimal digits that start at `p`.
fn digits(t: &Vec<char>, p: usize) -> (r: usize)
    requires
        p <= t.len(),
    ensures
        r == digits_end(t@, p as int),
        p <= r <= t.len(),
{
    let mut i: usize = p;
    while i < t.len() && '0' <= t[i] && t[i] <= '9'
        invariant
            p <= i <= t.len(),
            digits_end(t@, p as int) == digits_end(t@, i as int),
        decreases t.len() - i,
    {
        i = i + 1;
    }
    i
}

fn string(t: &Vec<char>, p: usize) -> (r: Option<usize>)
    requires
        p <= t.len(),
    ensures
        r matches Some(q) ==> string_end(t@, p as int) == Some(q as int) && p < q <= t.len(),
        r is None ==> string_end(t@, p as int) is None,
{
    if p < t.len() && t[p] == '"' {
        let q = parse_str(t, p + 1);
        if q < t.len() {
            return Some(q + 1);
        }
    }
    None
}

fn member_key(t: &Vec<char>, p: usize) -> (r: Option<usize>)
    requires
        p <= t.len(),
    ensures
        r matches Some(q) ==> key_end(t@, p as int) == Some(q as int) && p < q <= t.len(),
        r is None ==> key_end(t@, p as int) is None,
{
    match string(t, p) {
        Some(q) => {
            if q < t.len() && q + 1 < t.len() && t[q] == ':' && t[q + 1] == ' ' {
                Some(q + 2)
            } else {
                None
            }
        },
        None => None,
    }
}


fn sign(t: &Vec<char>, p: usize) -> (r: usize)
    requires
        p <= t.len(),
    ensures
        r == skip_sign(t@, p as int),
        r <= t.len(),
{
    if p < t.len() && (t[p] == '+' || t[p] == '-') {
        p + 1
    } else {
        p
    }
}

fn mantissa(t: &Vec<char>, p: usize) -> (r: Option<usize>)
    requires
        p <= t.len(),
    ensures
        r matches Some(q) ==> mantissa_end(t@, p as int) == Some(q as int) && p <= q <= t.len(),
        r is None ==> mantissa_end(t@, p as int) is None,
{
    let d = digits(t, p);
    if d > p {
        if d < t.len() && t[d] == '.' {
            Some(digits(t, d + 1))
        } else {
            Some(d)
        }
    } else if p < t.len() && t[p] == '.' && digits(t, p + 1) > p + 1 {
        Some(digits(t, p + 1))
    } else {
        None
    }
}

/// Recognises a number with optional sign, fraction and exponent.
fn double(t: &Vec<char>, p: usize) -> (r: Option<usize>)
    requires
        p <= t.len(),
    ensures
        r matches Some(q) ==> number_end(t@, p as int) == Some(q as int) && p <= q <= t.len(),
        r is None ==> number_end(t@, p as int) is None,
{
    match mantissa(t, sign(t, p)) {
        Some(m) => {
            if m < t.len() && (t[m] == 'e' || t[m] == 'E') {
                let x = sign(t, m + 1);
                let y = digits(t, x);
                if y > x {
                    Some(y)
                } else {
                    None
                }
            } else {
                Some(m)
            }
        },
        None => None,
    }
}

/// Recognises the characters of `w` at `p`.
fn tag(t: &Vec<char>, p: usize, w: &[char]) -> (r: Option<usize>)
    requires
        p <= t.len(),
    ensures
        r matches Some(q) ==> word_end(t@, p as int, w@) == Some(q as int) && p <= q <= t.len(),
        r is None ==> word_end(t@, p as int, w@) is None,
{
    if w.len() > t.len() - p {
        return None;
    }
    let mut k: usize = 0;
    while k < w.len()
        invariant
            p + w.len() <= t.len(),
            k <= w.len(),
            forall|j: int| 0 <= j < k ==> t@[p + j] == w@[j],
        decreases w.len() - k,
    {
        if t[p + k] != w[k] {
            assert(t@.subrange(p as int, p + w.len())[k as int] != w@[k as int]);
            return None;
        }
        k = k + 1;
    }
    assert(t@.subrange(p as int, p + w.len()) =~= w@);
    Some(p + w.len())
}

/// Recognises a scalar value at `p`.
fn json_value(t: &Vec<char>, p: usize) -> (r: Option<usize>)
    requires
        p <= t.len(),
    ensures
        r matches Some(q) ==> value_end(t@, p as int) == Some(q as int) && p <= q <= t.len(),
        r is None ==> value_end(t@, p as int) is None,
{
    if let Some(q) = string(t, p) {
        return Some(q);
    }
    if let Some(q) = double(t, p) {
        return Some(q);
    }
    let null_word: [char; 4] = ['n', 'u', 'l', 'l'];
    if let Some(q) = tag(t, p, &null_word) {
        return Some(q);
    }
    let true_word: [char; 4] = ['t', 'r', 'u', 'e'];
    if let Some(q) = tag(t, p, &true_word) {
        return Some(q);
    }
    let false_word: [char; 5] = ['f', 'a', 'l', 's', 'e'];
    if let Some(q) = tag(t, p, &false_word) {
        return Some(q);
    }
    let empty_object: [char; 2] = ['{', '}'];
    if let Some(q) = tag(t, p, &empty_object) {
        return Some(q);
    }
    let empty_array: [char; 2] = ['[', ']'];
    tag(t, p, &empty_array)
}


fn line_ending(t: &Vec<char>, p: usize) -> (r: Option<usize>)
    requires
        p <= t.len(),
    ensures
        r matches Some(q) ==> newline_end(t@, p as int) == Some(q as int) && p < q <= t.len(),
        r is None ==> newline_end(t@, p as int) is None,
{
    if p < t.len() && t[p] == '\n' {
        Some(p + 1)
    } else if p < t.len() && p + 1 < t.len() && t[p] == '\r' && t[p + 1] == '\n' {
        Some(p + 2)
    } else {
        None
    }
}

fn close_eol(t: &Vec<char>, p: usize) -> (r: Option<usize>)
    requires
        p <= t.len(),
    ensures
        r matches Some(q) ==> close_eol_end(t@, p as int) == Some(q as int) && p < q <= t.len(),
        r is None ==> close_eol_end(t@, p as int) is None,
{
    if p < t.len() && t[p] == ',' {
        line_ending(t, p + 1)
    } else {
        line_ending(t, p)
    }
}

fn open_bracket(c: char) -> (r: Option<Token>)
    ensures
        r == open_token(c),
{
    if c == '{' {
        Some(Token::OpenCurley)
    } else if c == '[' {
        Some(Token::OpenSquare)
    } else {
        None
    }
}

fn close_bracket(c: char) -> (r: Option<Token>)
    ensures
        r == close_token(c),
{
    if c == '}' {
        Some(Token::CloseCurley)
    } else if c == ']' {
        Some(Token::CloseSquare)
    } else {
        None
    }
}

/// Whether `r` is what `s` describes: a line's indentation, token and end.
pub open spec fn line_result(r: Option<(Indention, Token, usize)>, s: Option<LineSpec>) -> bool {
    match r {
        Some((ind, tok, e)) => s matches Some(l) && l.indent == ind.count && l.token == tok
            && l.end == e,
        None => s is None,
    }
}

fn open_line(t: &Vec<char>, p: usize) -> (r: Option<(Indention, Token, usize)>)
    requires
        p <= t.len(),
    ensures
        line_result(r, open_line_spec(t@, p as int)),
        r matches Some((_, _, e)) ==> p < e <= t.len(),
{
    let i = indention(t, p);
    let k = match member_key(t, i) {
        Some(k) => k,
        None => i,
    };
    if k < t.len() {
        if let Some(tok) = open_bracket(t[k]) {
            if let Some(e) = line_ending(t, k + 1) {
                return Some((Indention { count: i - p }, tok, e));
            }
        }
    }
    None
}

fn close_line(t: &Vec<char>, p: usize) -> (r: Option<(Indention, Token, usize)>)
    requires
        p <= t.len(),
    ensures
        line_result(r, close_line_spec(t@, p as int)),
        r matches Some((_, _, e)) ==> p < e <= t.len(),
{
    let i = indention(t, p);
    if i < t.len() {
        if let Some(tok) = close_bracket(t[i]) {
            if let Some(e) = close_eol(t, i + 1) {
                return Some((Indention { count: i - p }, tok, e));
            } else if i + 1 == t.len() {
                return Some((Indention { count: i - p }, tok, t.len()));
            }
        }
    }
    None
}

fn member_line(t: &Vec<char>, p: usize) -> (r: Option<(Indention, Token, usize)>)
    requires
        p <= t.len(),
    ensures
        line_result(r, member_line_spec(t@, p as int)),
        r matches Some((_, _, e)) ==> p < e <= t.len(),
{
    let i = indention(t, p);
    let k = match member_key(t, i) {
        Some(k) => k,
        None => i,
    };
    let v = json_value(t, k)?;
    let e = close_eol(t, v)?;
    Some((Indention { count: i - p }, Token::Value, e))
}

/// Recognises one line of `t` at `p`: its indentation, its token and the
/// position after it.
pub fn line_at(t: &Vec<char>, p: usize) -> (r: Option<(Indention, Token, usize)>)
    requires
        p <= t.len(),
    ensures
        line_result(r, line_spec(t@, p as int)),
        r matches Some((_, _, e)) ==> p < e <= t.len(),
{
    let r = match open_line(t, p) {
        Some(l) => Some(l),
        None => match close_line(t, p) {
            Some(l) => Some(l),
            None => member_line(t, p),
        },
    };
    r
}


// ---------------------------------------------------------------------------
// Documents.
// ---------------------------------------------------------------------------

/// The lines of `t` from `p` on, as (indentation, token) pairs, where every
/// line from `p` to the end of `t` matches.
pub open spec fn lines_from(t: Seq<char>, p: int) -> Option<Seq<(nat, Token)>>
    decreases t.len() - p,
{
    if p < 0 || p >= t.len() {
        Some(Seq::empty())
    } else {
        match line_spec(t, p) {
            Some(l) => if l.end > p {
                match lines_from(t, l.end) {
                    Some(rest) => Some(seq![(l.indent, l.token)] + rest),
                    None => None,
                }
            } else {
                None
            },
            None => None,
        }
    }
}

pub open spec fn is_open(tok: Token) -> bool {
    tok == Token::OpenCurley || tok == Token::OpenSquare
}

pub open spec fn is_close(tok: Token) -> bool {
    tok == Token::CloseCurley || tok == Token::CloseSquare
}

/// Nesting depth after `tok`, given the depth `d` before it.
pub open spec fn depth_after(tok: Token, d: int) -> int {
    if is_open(tok) {
        d + 1
    } else if is_close(tok) {
        d - 1
    } else {
        d
    }
}

/// Indentation a line with `tok` must have at depth `d`: an opening line or a
/// value stands at `4 * d`, a closing line at the depth it returns to.
pub open spec fn expected_indent(tok: Token, d: int) -> int {
    if is_close(tok) {
        4 * (d - 1)
    } else {
        4 * d
    }
}

/// Every line is indented by four spaces per open bracket before it (`d` are
/// open at the start), and no bracket is left open at the end.
pub open spec fn indents_ok(lines: Seq<(nat, Token)>, d: int) -> bool
    decreases lines.len(),
{
    if lines.len() == 0 {
        d == 0
    } else {
        lines[0].0 == expected_indent(lines[0].1, d) && indents_ok(
            lines.drop_first(),
            depth_after(lines[0].1, d),
        )
    }
}

/// The lines of the whole text, where it is one or more lines that all match.
pub open spec fn document_lines(t: Seq<char>) -> Option<Seq<(nat, Token)>> {
    if t.len() > 0 {
        lines_from(t, 0)
    } else {
        None
    }
}

/// `t` is in the canonical layout: it is made of lines of the grammar, each
/// indented by four spaces per enclosing bracket, and its brackets balance.
pub open spec fn format_ok(t: Seq<char>) -> bool {
    match document_lines(t) {
        Some(lines) => indents_ok(lines, 0),
        None => false,
    }
}

/// Whether the lines from `p` on all match and are indented correctly when
/// `d` brackets are open before them.
pub open spec fn rest_ok(t: Seq<char>, p: int, d: int) -> bool {
    match lines_from(t, p) {
        Some(lines) => indents_ok(lines, d),
        None => false,
    }
}

/// The characters of `i`, in order.
fn chars_of(i: &str) -> (r: Vec<char>)
    ensures
        r@ == i@,
{
    let mut r: Vec<char> = Vec::new();
    for c in it: i.chars()
        invariant
            r@ == it.seq().take(it.index() as int),
    {
        r.push(c);
    }
    r
}


/// Whether `n` is four times `d`, without computing `4 * d`.
fn is_indent_of(n: usize, d: usize) -> (r: bool)
    ensures
        r == (n == 4 * d),
{
    d <= n / 4 && n == 4 * d
}

/// Whether `i` is laid out canonically: one or more lines of the grammar,
/// covering all of `i`, each indented by four spaces per enclosing bracket,
/// with no more closing than opening brackets at any point and none left open.
pub fn check_format(i: &str) -> (r: bool)
    ensures
        r == format_ok(i@),
{
    let t = chars_of(i);
    if t.len() == 0 {
        return false;
    }
    let mut p: usize = 0;
    let mut depth: usize = 0;
    while p < t.len()
        invariant
            p <= t.len(),
            depth <= p,
            t@ == i@,
            t.len() > 0,
            format_ok(t@) == rest_ok(t@, p as int, depth as int),
        decreases t.len() - p,
    {
        let (indent, token, e) = match line_at(&t, p) {
            Some(l) => l,
            None => {
                return false;
            },
        };
        proof {
            let ghost tail = lines_from(t@, e as int);
            if let Some(rest) = tail {
                assert((seq![(indent.count as nat, token)] + rest).drop_first() =~= rest);
            }
        }
        match token {
            Token::OpenCurley | Token::OpenSquare => {
                if !is_indent_of(indent.count, depth) {
                    return false;
                }
                depth = depth + 1;
            },
            Token::CloseCurley | Token::CloseSquare => {
                if depth == 0 {
                    return false;
                }
                depth = depth - 1;
                if !is_indent_of(indent.count, depth) {
                    return false;
                }
            },
            Token::Value => {
                if !is_indent_of(indent.count, depth) {
                    return false;
                }
            },
        }
        p = e;
    }
    depth == 0
}


/// Recognises the first line of `i`. On a match, gives the number of
/// characters left after the line, with its indentation and token.
pub fn line(i: &str) -> (r: Option<(usize, (Indention, Token))>)
    ensures
        match r {
            Some((left, (ind, tok))) => line_spec(i@, 0) matches Some(l) && l.indent == ind.count
                && l.token == tok && left == i@.len() - l.end,
            None => line_spec(i@, 0) is None,
        },
{
    let t = chars_of(i);
    match line_at(&t, 0) {
        Some((ind, tok, e)) => Some((t.len() - e, (ind, tok))),
        None => None,
    }
}


// ---------------------------------------------------------------------------
// Properties of the layout check.
// ---------------------------------------------------------------------------

/// The running count of open minus closed brackets, starting from `d`, never
/// drops below zero over `lines` and ends at zero.
pub open spec fn nesting_balanced(lines: Seq<(nat, Token)>, d: int) -> bool
    decreases lines.len(),
{
    if lines.len() == 0 {
        d == 0
    } else {
        depth_after(lines[0].1, d) >= 0 && nesting_balanced(
            lines.drop_first(),
            depth_after(lines[0].1, d),
        )
    }
}

proof fn lemma_indents_ok_balanced(lines: Seq<(nat, Token)>, d: int)
    requires
        indents_ok(lines, d),
    ensures
        nesting_balanced(lines, d),
    decreases lines.len(),
{
    if lines.len() > 0 {
        lemma_indents_ok_balanced(lines.drop_first(), depth_after(lines[0].1, d));
    }
}

/// A text whose lines all match the grammar but whose brackets do not nest
/// (a closing bracket with none open, or a bracket left open at the end) is
/// not in the canonical layout.
pub proof fn lemma_depth_tracking(t: Seq<char>)
    requires
        document_lines(t) is Some,
        !nesting_balanced(document_lines(t)->0, 0),
    ensures
        !format_ok(t),
{
    if format_ok(t) {
        lemma_indents_ok_balanced(document_lines(t)->0, 0);
    }
}

pub(crate) proof fn lemma_indents_ok_multiples(lines: Seq<(nat, Token)>, d: int)
    requires
        indents_ok(lines, d),
    ensures
        forall|k: int| 0 <= k < lines.len() ==> #[trigger] lines[k].0 % 4 == 0,
    decreases lines.len(),
{
    if lines.len() > 0 {
        let rest = lines.drop_first();
        lemma_indents_ok_multiples(rest, depth_after(lines[0].1, d));
        assert forall|k: int| 0 <= k < lines.len() implies #[trigger] lines[k].0 % 4 == 0 by {
            if k > 0 {
                assert(lines[k] == rest[k - 1]);
            } else {
                assert(lines[0].0 == expected_indent(lines[0].1, d));
            }
        }
    }
}

/// Every line of a text in the canonical layout is indented by a multiple of
/// four spaces: a text with a line whose indentation is not a multiple of four
/// is rejected.
pub proof fn lemma_indents_are_multiples_of_four(t: Seq<char>, k: int)
    requires
        document_lines(t) is Some,
        0 <= k < document_lines(t)->0.len(),
        document_lines(t)->0[k].0 % 4 != 0,
    ensures
        !format_ok(t),
{
    if format_ok(t) {
        lemma_indents_ok_multiples(document_lines(t)->0, 0);
    }
}

} // verus!
