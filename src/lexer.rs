use crate::diagnostics::Error;
use crate::span::{File, Span};
use crate::token::{
    all_digits_of, is_digit_of, kw_text, numeral_text, numeral_value, radix_prefix, Kw, Punc, Radix,
    Simple, Token,
};
use vstd::prelude::*;

verus! {

broadcast use vstd::std_specs::vec::axiom_vec_index_decreases;

pub open spec fn is_space(c: char) -> bool {
    c == ' ' || c == '\t' || c == '\n' || c == '\r' || c == '\x0b' || c == '\x0c'
}

pub open spec fn is_ident_start(c: char) -> bool {
    ('a' <= c && c <= 'z') || ('A' <= c && c <= 'Z') || c == '_'
}

pub open spec fn is_ident_continue(c: char) -> bool {
    is_ident_start(c) || ('0' <= c && c <= '9')
}

pub open spec fn is_keyword(t: Seq<char>) -> bool {
    exists|k: Kw| kw_text(k) == t
}

/// The end of the longest run of digits of radix `r` that starts at `i`.
pub open spec fn run_end(s: Seq<char>, i: int, r: Radix) -> int
    decreases s.len() - i,
{
    if 0 <= i < s.len() && is_digit_of(s[i], r) {
        run_end(s, i + 1, r)
    } else {
        i
    }
}

/// The end of the identifier characters that start at `i`.
pub open spec fn ident_end(s: Seq<char>, i: int) -> int
    decreases s.len() - i,
{
    if 0 <= i < s.len() && is_ident_continue(s[i]) {
        ident_end(s, i + 1)
    } else {
        i
    }
}

/// The radix of a numeral that starts at `pos`, and where its digits start.
pub open spec fn numeral_start(s: Seq<char>, pos: int) -> (Radix, int) {
    if pos + 1 < s.len() && s[pos] == '0' && s[pos + 1] == 'b' {
        (Radix::Binary, pos + 2)
    } else if pos + 1 < s.len() && s[pos] == '0' && s[pos + 1] == 'o' {
        (Radix::Octal, pos + 2)
    } else if pos + 1 < s.len() && s[pos] == '0' && s[pos + 1] == 'x' {
        (Radix::Hexadecimal, pos + 2)
    } else {
        (Radix::Decimal, pos)
    }
}

/// The shape of the numeral at `pos`: its radix, where its integer digits
/// start and end, and where the whole numeral ends. There is a fractional
/// part exactly when the end lies past the integer digits.
pub open spec fn numeral_at(s: Seq<char>, pos: int) -> (Radix, int, int, int) {
    let (r, d) = numeral_start(s, pos);
    let e = run_end(s, d, r);
    if e + 1 < s.len() && s[e] == '.' && is_digit_of(s[e + 1], r) {
        (r, d, e, run_end(s, e + 1, r))
    } else {
        (r, d, e, e)
    }
}

/// Whether `s[pos..]` starts with a `//` comment.
pub open spec fn comment_at(s: Seq<char>, pos: int) -> bool {
    0 <= pos && pos + 1 < s.len() && s[pos] == '/' && s[pos + 1] == '/'
}

/// Where the comment text that runs from `i` stops: at the next newline or
/// at the end.
pub open spec fn comment_end(s: Seq<char>, i: int) -> int
    decreases s.len() - i,
{
    if 0 <= i < s.len() && s[i] != '\n' {
        comment_end(s, i + 1)
    } else {
        i
    }
}

/// `s[a..b]` is whitespace and `//` comments only.
pub open spec fn trivia(s: Seq<char>, a: int, b: int) -> bool
    decreases b - a,
{
    if a >= b {
        a == b
    } else if 0 <= a < s.len() && is_space(s[a]) {
        trivia(s, a + 1, b)
    } else if comment_at(s, a) {
        let e = comment_end(s, a + 2);
        if a < e <= b {
            trivia(s, e, b)
        } else {
            false
        }
    } else {
        false
    }
}

/// Where the whitespace and comments that start at `i` end.
pub open spec fn skip_end(s: Seq<char>, i: int) -> int
    decreases s.len() - i,
{
    if 0 <= i < s.len() && is_space(s[i]) {
        skip_end(s, i + 1)
    } else if comment_at(s, i) {
        let e = comment_end(s, i + 2);
        if i < e <= s.len() {
            skip_end(s, e)
        } else {
            i
        }
    } else {
        i
    }
}

pub open spec fn is_punc_char(c: char) -> bool {
    c == '+' || c == '-' || c == '*' || c == '/' || c == '='
}

pub open spec fn closing_of(c: char) -> char {
    if c == '(' {
        ')'
    } else {
        '}'
    }
}

/// Whether the text from `pos` lexes: up to the end, or, with a closing
/// delimiter given, up to and including that delimiter. If it does, where
/// the lexed text ends; if not, the offset of the first character that no
/// token can take (the end of the text for a missing closing delimiter).
pub open spec fn lexable(s: Seq<char>, pos: int, closer: Option<char>) -> Result<int, int>
    decreases s.len() - pos,
{
    let i = skip_end(s, pos);
    if i < pos || i > s.len() {
        Err(i)
    } else if i == s.len() {
        if closer is None {
            Ok(i)
        } else {
            Err(i)
        }
    } else if closer == Some(s[i]) {
        Ok(i + 1)
    } else if s[i] == '(' || s[i] == '{' {
        match lexable(s, i + 1, Some(closing_of(s[i]))) {
            Ok(e) => if i < e <= s.len() {
                lexable(s, e, closer)
            } else {
                Err(i)
            },
            Err(p) => Err(p),
        }
    } else if is_ident_start(s[i]) {
        let e = ident_end(s, i);
        if i < e <= s.len() {
            lexable(s, e, closer)
        } else {
            Err(i)
        }
    } else if '0' <= s[i] <= '9' {
        let (r, d, e, end) = numeral_at(s, i);
        if e > d && i < end <= s.len() {
            lexable(s, end, closer)
        } else {
            Err(d)
        }
    } else if is_punc_char(s[i]) {
        lexable(s, i + 1, closer)
    } else {
        Err(i)
    }
}

/// The error points at offset `p` of a text of length `len`: at the
/// character there, or at the end.
pub open spec fn error_at(e: Error, p: int, len: int) -> bool {
    &&& e.span_of().start == p
    &&& e.span_of().end == if p < len { p + 1 } else { p }
}

/// Tokens `ts` together with the trivia between them make up `s[lo..hi]`.
pub open spec fn covers(s: Seq<char>, ts: Seq<(Token, Span)>, lo: int, hi: int) -> bool {
    if ts.len() == 0 {
        trivia(s, lo, hi)
    } else {
        &&& trivia(s, lo, ts[0].1.start as int)
        &&& forall|k: int| 0 <= k < ts.len() - 1 ==> trivia(s, (#[trigger] ts[k]).1.end as int, ts[k + 1].1.start as int)
        &&& trivia(s, ts.last().1.end as int, hi)
    }
}

/// A lexed simple token reproduces the source text under its span.
pub open spec fn simple_ok(s: Seq<char>, t: Simple, sp: Span) -> bool {
    &&& t.to_text_spec() == s.subrange(sp.start as int, sp.end as int)
    &&& match t {
        Simple::Identifier(n) => {
            &&& !is_keyword(n@)
            &&& is_ident_start(s[sp.start as int])
            &&& sp.end == ident_end(s, sp.start as int)
        },
        Simple::Kw(_) => {
            &&& is_ident_start(s[sp.start as int])
            &&& sp.end == ident_end(s, sp.start as int)
        },
        Simple::Punc(p) => !comment_at(s, sp.start as int),
        Simple::Number { before, after, radix } => {
            let (rad, d, e, end) = numeral_at(s, sp.start as int);
            &&& '0' <= s[sp.start as int] <= '9'
            &&& e > d
            &&& sp.end == end
            &&& is_numeral(t, s, rad, d, e, end)
            &&& before@.len() > 0
            &&& all_digits_of(before@, radix)
            &&& match after {
                Some(a) => a@.len() > 0 && all_digits_of(a@, radix),
                None => true,
            }
        },
    }
}

/// Tokens lie in order, without overlap, within `lo..hi`.
pub open spec fn in_order(ts: Seq<(Token, Span)>, lo: int, hi: int) -> bool {
    &&& forall|i: int| 0 <= i < ts.len() ==> lo <= (#[trigger] ts[i]).1.start
    &&& forall|i: int| 0 <= i < ts.len() ==> (#[trigger] ts[i]).1.end <= hi
    &&& forall|i: int, j: int| 0 <= i < j < ts.len() ==> (#[trigger] ts[i]).1.end <= (#[trigger] ts[j]).1.start
}

/// A lexed token is faithful to the source `s`: its span is a non-empty
/// range of `s` in `file`, a simple token reproduces the text there, and a
/// group spans its delimiters and holds faithful tokens in order between them.
pub open spec fn token_ok(s: Seq<char>, t: Token, sp: Span, file: File) -> bool
    decreases t,
{
    &&& sp.start < sp.end <= s.len()
    &&& sp.file_id == file
    &&& match t {
        Token::Simple(x) => simple_ok(s, x, sp),
        Token::Parentheses(ts) => {
            &&& s[sp.start as int] == '('
            &&& s[sp.end - 1] == ')'
            &&& in_order(ts@, sp.start + 1, sp.end - 1)
            &&& covers(s, ts@, sp.start + 1, sp.end - 1)
            &&& forall|i: int| 0 <= i < ts.len() ==> token_ok(s, #[trigger] ts@[i].0, ts@[i].1, file)
        },
        Token::CurlyBraces(ts) => {
            &&& s[sp.start as int] == '{'
            &&& s[sp.end - 1] == '}'
            &&& in_order(ts@, sp.start + 1, sp.end - 1)
            &&& covers(s, ts@, sp.start + 1, sp.end - 1)
            &&& forall|i: int| 0 <= i < ts.len() ==> token_ok(s, #[trigger] ts@[i].0, ts@[i].1, file)
        },
    }
}


fn space(c: char) -> (r: bool)
    ensures
        r == is_space(c),
{
    c == ' ' || c == '\t' || c == '\n' || c == '\r' || c == '\x0b' || c == '\x0c'
}

fn ident_start(c: char) -> (r: bool)
    ensures
        r == is_ident_start(c),
{
    ('a' <= c && c <= 'z') || ('A' <= c && c <= 'Z') || c == '_'
}

fn ident_continue(c: char) -> (r: bool)
    ensures
        r == is_ident_continue(c),
{
    ident_start(c) || ('0' <= c && c <= '9')
}

fn digit_of(c: char, r: Radix) -> (b: bool)
    ensures
        b == is_digit_of(c, r),
{
    let base = r.to_u32();
    if '0' <= c && c <= '9' {
        (c as u32 - '0' as u32) < base
    } else if 'a' <= c && c <= 'z' {
        (c as u32 - 'a' as u32 + 10) < base
    } else if 'A' <= c && c <= 'Z' {
        (c as u32 - 'A' as u32 + 10) < base
    } else {
        false
    }
}


/// Skips whitespace and `//` comments (which run to the end of the line).
fn skip_trivia(s: &Vec<char>, pos: usize) -> (r: usize)
    requires
        pos <= s.len(),
    ensures
        pos <= r <= s.len(),
        r < s.len() ==> !is_space(s@[r as int]) && !comment_at(s@, r as int),
        trivia(s@, pos as int, r as int),
        r == skip_end(s@, pos as int),
{
    let mut i = pos;
    while i < s.len()
        invariant
            pos <= i <= s.len(),
            trivia(s@, pos as int, i as int),
            skip_end(s@, pos as int) == skip_end(s@, i as int),
        decreases s.len() - i,
    {
        if space(s[i]) {
            proof {
                assert(trivia(s@, i + 1, i + 1));
                lemma_trivia_concat(s@, pos as int, i as int, i + 1);
            }
            i = i + 1;
        } else if i + 1 < s.len() && s[i] == '/' && s[i + 1] == '/' {
            let open = i;
            i = i + 2;
            while i < s.len() && s[i] != '\n'
                invariant
                    pos <= open < i <= s.len(),
                    open + 2 <= i,
                    comment_end(s@, open + 2) == comment_end(s@, i as int),
                decreases s.len() - i,
            {
                i = i + 1;
            }
            proof {
                assert(comment_end(s@, i as int) == i);
                assert(trivia(s@, i as int, i as int));
                assert(trivia(s@, open as int, i as int));
                lemma_trivia_concat(s@, pos as int, open as int, i as int);
            }
        } else {
            return i;
        }
    }
    i
}

proof fn lemma_trivia_concat(s: Seq<char>, a: int, m: int, b: int)
    requires
        a <= m <= b <= s.len(),
        trivia(s, a, m),
        trivia(s, m, b),
    ensures
        trivia(s, a, b),
    decreases m - a,
{
    if a < m {
        if 0 <= a < s.len() && is_space(s[a]) {
            lemma_trivia_concat(s, a + 1, m, b);
        } else {
            lemma_trivia_concat(s, comment_end(s, a + 2), m, b);
        }
    }
}

proof fn lemma_covers_extend(s: Seq<char>, ts: Seq<(Token, Span)>, lo: int, mid: int, hi: int)
    requires
        covers(s, ts, lo, mid),
        trivia(s, mid, hi),
        in_order(ts, lo, mid),
        lo <= mid <= hi <= s.len(),
        forall|i: int| 0 <= i < ts.len() ==> (#[trigger] ts[i]).1.start <= ts[i].1.end,
    ensures
        covers(s, ts, lo, hi),
{
    if ts.len() == 0 {
        lemma_trivia_concat(s, lo, mid, hi);
    } else {
        let l = ts.last();
        assert(ts[ts.len() - 1] == l);
        lemma_trivia_concat(s, l.1.end as int, mid, hi);
    }
}

proof fn lemma_covers_push(s: Seq<char>, ts: Seq<(Token, Span)>, t: (Token, Span), lo: int)
    requires
        covers(s, ts, lo, t.1.start as int),
        t.1.end <= s.len(),
    ensures
        covers(s, ts.push(t), lo, t.1.end as int),
{
    let n = ts.push(t);
    assert(trivia(s, t.1.end as int, t.1.end as int));
    assert(n.last() == t);
    if ts.len() == 0 {
        assert(n[0] == t);
    } else {
        assert(n[0] == ts[0]);
        assert forall|k: int| 0 <= k < n.len() - 1 implies trivia(s, (#[trigger] n[k]).1.end as int, n[k + 1].1.start as int) by {
            if k < ts.len() - 1 {
                assert(n[k] == ts[k] && n[k + 1] == ts[k + 1]);
            } else {
                assert(n[k] == ts.last());
                assert(n[k + 1] == t);
            }
        }
    }
}

fn digit_run(s: &Vec<char>, start: usize, r: Radix) -> (e: usize)
    requires
        start <= s.len(),
    ensures
        e as int == run_end(s@, start as int, r),
        start <= e <= s.len(),
        all_digits_of(s@.subrange(start as int, e as int), r),
        start < s.len() && is_digit_of(s@[start as int], r) ==> start < e,
{
    let mut i = start;
    while i < s.len() && digit_of(s[i], r)
        invariant
            start <= i <= s.len(),
            run_end(s@, start as int, r) == run_end(s@, i as int, r),
            all_digits_of(s@.subrange(start as int, i as int), r),
        decreases s.len() - i,
    {
        assert(s@.subrange(start as int, i + 1) =~= s@.subrange(start as int, i as int).push(s@[i as int]));
        i = i + 1;
    }
    i
}

fn ident_run(s: &Vec<char>, start: usize) -> (e: usize)
    requires
        start <= s.len(),
    ensures
        e as int == ident_end(s@, start as int),
        start <= e <= s.len(),
{
    let mut i = start;
    while i < s.len() && ident_continue(s[i])
        invariant
            start <= i <= s.len(),
            ident_end(s@, start as int) == ident_end(s@, i as int),
        decreases s.len() - i,
    {
        i = i + 1;
    }
    i
}

/// Whether `s[a..b]` is the text `w`.
fn text_is(s: &Vec<char>, a: usize, b: usize, w: &str) -> (r: bool)
    requires
        a <= b <= s.len(),
    ensures
        r == (s@.subrange(a as int, b as int) == w@),
{
    let n = w.unicode_len();
    if b - a != n {
        return false;
    }
    let mut i: usize = 0;
    while i < n
        invariant
            n == w@.len(),
            b - a == n,
            a <= b <= s.len(),
            i <= n,
            forall|j: int| 0 <= j < i ==> s@[a + j] == w@[j],
        decreases n - i,
    {
        if s[a + i] != w.get_char(i) {
            assert(s@.subrange(a as int, b as int)[i as int] != w@[i as int]);
            return false;
        }
        i = i + 1;
    }
    assert(s@.subrange(a as int, b as int) =~= w@);
    true
}

/// The keyword spelled by `s[a..b]`, if any.
fn keyword_at(s: &Vec<char>, a: usize, b: usize) -> (r: Option<Kw>)
    requires
        a <= b <= s.len(),
    ensures
        r is Some ==> kw_text(r->0) == s@.subrange(a as int, b as int),
        r is None ==> !is_keyword(s@.subrange(a as int, b as int)),
{
    if text_is(s, a, b, Kw::To.text()) {
        Some(Kw::To)
    } else if text_is(s, a, b, Kw::Precision.text()) {
        Some(Kw::Precision)
    } else if text_is(s, a, b, Kw::FullPrecision.text()) {
        Some(Kw::FullPrecision)
    } else if text_is(s, a, b, Kw::Help.text()) {
        Some(Kw::Help)
    } else if text_is(s, a, b, Kw::Exit.text()) {
        Some(Kw::Exit)
    } else if text_is(s, a, b, Kw::Vars.text()) {
        Some(Kw::Vars)
    } else {
        assert forall|k: Kw| kw_text(k) != s@.subrange(a as int, b as int) by {
            match k {
                Kw::To => {},
                Kw::Precision => {},
                Kw::FullPrecision => {},
                Kw::Help => {},
                Kw::Exit => {},
                Kw::Vars => {},
            }
        }
        None
    }
}


/// The error's span is a range of a text of length `len` in `file`.
pub open spec fn error_within(e: Error, len: nat, file: File) -> bool {
    &&& e.span_of().start <= e.span_of().end <= len
    &&& e.span_of().file_id == file
}

/// The numeral token whose shape `numeral_at` gives.
pub open spec fn is_numeral(t: Simple, s: Seq<char>, r: Radix, d: int, e: int, end: int) -> bool {
    &&& t is Number
    &&& t->radix == r
    &&& t->before@ == s.subrange(d, e)
    &&& if end > e {
        t->after is Some && t->after->0@ == s.subrange(e + 1, end)
    } else {
        t->after is None
    }
}

/// An "expected ..., found ..." error at `pos`: the character there, or the
/// end of the input.
fn unexpected(text: &str, s: &Vec<char>, pos: usize, expected: Vec<String>, file: File) -> (e: Error)
    requires
        s@ == text@,
        pos <= s.len(),
    ensures
        e is ExpectedFound,
        error_within(e, s.len() as nat, file),
        e.span_of().start == pos,
        pos < s.len() ==> e.span_of().end == pos + 1,
{
    if pos < s.len() {
        let found = String::from_str(text.substring_char(pos, pos + 1));
        Error::ExpectedFound { expected, found: Some(found), span: Span::new(file, pos, pos + 1) }
    } else {
        Error::ExpectedFound { expected, found: None, span: Span::new(file, pos, pos) }
    }
}

fn expected_token(closer: Option<char>) -> (r: Vec<String>)
    ensures
        r.len() > 0,
{
    let mut r = vec![
        String::from_str("identifier"),
        String::from_str("number"),
        String::from_str("operator"),
        String::from_str("'('"),
        String::from_str("'{'"),
    ];
    match closer {
        Some(')') => r.push(String::from_str("')'")),
        Some(_) => r.push(String::from_str("'}'")),
        None => {},
    }
    r
}

/// Scans the numeral that starts at `pos`.
fn scan_number(text: &str, s: &Vec<char>, pos: usize, file: File) -> (r: Result<(Simple, usize), Error>)
    requires
        s@ == text@,
        pos < s.len(),
        '0' <= s@[pos as int] <= '9',
    ensures
        ({
            let (rad, d, e, end) = numeral_at(s@, pos as int);
            match r {
                Ok((t, stop)) => {
                    &&& e != d
                    &&& stop == end
                    &&& is_numeral(t, s@, rad, d, e, end)
                    &&& simple_ok(s@, t, Span { start: pos, end: stop, file_id: file })
                    &&& pos < stop <= s.len()
                },
                Err(err) => e == d && error_within(err, s.len() as nat, file) && err is ExpectedFound
                    && error_at(err, d, s.len() as int),
            }
        }),
{
    let n = s.len();
    let (radix, d) = if pos + 1 < n && s[pos] == '0' && s[pos + 1] == 'b' {
        (Radix::Binary, pos + 2)
    } else if pos + 1 < n && s[pos] == '0' && s[pos + 1] == 'o' {
        (Radix::Octal, pos + 2)
    } else if pos + 1 < n && s[pos] == '0' && s[pos + 1] == 'x' {
        (Radix::Hexadecimal, pos + 2)
    } else {
        (Radix::Decimal, pos)
    };
    assert(numeral_start(s@, pos as int) == (radix, d as int));
    assert(s@.subrange(pos as int, d as int) =~= radix_prefix(radix));
    let e = digit_run(s, d, radix);
    if e == d {
        return Err(unexpected(text, s, d, vec![String::from_str("digit")], file));
    }
    let before = String::from_str(text.substring_char(d, e));
    if e < n && s[e] == '.' && e + 1 < n && digit_of(s[e + 1], radix) {
        let end = digit_run(s, e + 1, radix);
        let after = String::from_str(text.substring_char(e + 1, end));
        let t = Simple::Number { before, after: Some(after), radix };
        assert(s@.subrange(pos as int, end as int) =~= radix_prefix(radix) + s@.subrange(
            d as int,
            e as int,
        ) + (seq!['.'] + s@.subrange(e + 1, end as int)));
        Ok((t, end))
    } else {
        let t = Simple::Number { before, after: None, radix };
        assert(s@.subrange(pos as int, e as int) =~= radix_prefix(radix) + s@.subrange(
            d as int,
            e as int,
        ) + seq![]);
        Ok((t, e))
    }
}


/// All of `ts` are faithful to `s`.
pub open spec fn all_ok(s: Seq<char>, ts: Seq<(Token, Span)>, file: File) -> bool {
    forall|i: int| 0 <= i < ts.len() ==> token_ok(s, #[trigger] ts[i].0, ts[i].1, file)
}

/// Lexes tokens from `pos` up to the end of the text, or, with a closing
/// delimiter given, up to and including that delimiter.
fn lex_seq(text: &str, s: &Vec<char>, pos: usize, closer: Option<char>, file: File) -> (r: Result<
    (Vec<(Token, Span)>, usize),
    Error,
>)
    requires
        s@ == text@,
        pos <= s.len(),
    ensures
        match r {
            Ok((ts, end)) => {
                &&& pos <= end <= s.len()
                &&& all_ok(s@, ts@, file)
                &&& match closer {
                    Some(c) => pos < end && s@[end - 1] == c && in_order(ts@, pos as int, end - 1)
                        && covers(s@, ts@, pos as int, end - 1),
                    None => end == s.len() && in_order(ts@, pos as int, end as int) && covers(
                        s@,
                        ts@,
                        pos as int,
                        end as int,
                    ),
                }
            },
            Err(e) => error_within(e, s.len() as nat, file) && e is ExpectedFound,
        },
        match (r, lexable(s@, pos as int, closer)) {
            (Ok((_, end)), Ok(stop)) => end == stop,
            (Err(e), Err(p)) => error_at(e, p, s.len() as int),
            _ => false,
        },
    decreases s.len() - pos,
{
    let mut ts: Vec<(Token, Span)> = Vec::new();
    let mut i = pos;
    loop
        invariant
            s@ == text@,
            pos <= i <= s.len(),
            in_order(ts@, pos as int, i as int),
            covers(s@, ts@, pos as int, i as int),
            all_ok(s@, ts@, file),
            lexable(s@, pos as int, closer) == lexable(s@, i as int, closer),
        decreases s.len() - i,
    {
        let ghost before = i;
        i = skip_trivia(s, i);
        proof {
            assert forall|k: int| 0 <= k < ts@.len() implies (#[trigger] ts@[k]).1.start <= ts@[k].1.end by {
                assert(token_ok(s@, ts@[k].0, ts@[k].1, file));
            }
            lemma_covers_extend(s@, ts@, pos as int, before as int, i as int);
        }
        if i == s.len() {
            match closer {
                None => {
                    return Ok((ts, i));
                },
                Some(_) => {
                    return Err(unexpected(text, s, i, expected_token(closer), file));
                },
            }
        }
        let c = s[i];
        match closer {
            Some(d) => {
                if c == d {
                    return Ok((ts, i + 1));
                }
            },
            None => {},
        }
        let ghost old_ts = ts@;
        let (tok, stop): (Token, usize) = if c == '(' || c == '{' {
            let close = if c == '(' {
                ')'
            } else {
                '}'
            };
            match lex_seq(text, s, i + 1, Some(close), file) {
                Ok((inner, end)) => {
                    if c == '(' {
                        (Token::Parentheses(inner), end)
                    } else {
                        (Token::CurlyBraces(inner), end)
                    }
                },
                Err(e) => {
                    return Err(e);
                },
            }
        } else if ident_start(c) {
            let e = ident_run(s, i);
            assert(ident_end(s@, i as int) == ident_end(s@, i + 1));
            assert(i < e) by {
                lemma_ident_end_ge(s@, i + 1);
            }
            match keyword_at(s, i, e) {
                Some(k) => (Token::Simple(Simple::Kw(k)), e),
                None => {
                    let name = String::from_str(text.substring_char(i, e));
                    (Token::Simple(Simple::Identifier(name)), e)
                },
            }
        } else if '0' <= c && c <= '9' {
            match scan_number(text, s, i, file) {
                Ok((t, end)) => (Token::Simple(t), end),
                Err(e) => {
                    return Err(e);
                },
            }
        } else if c == '+' {
            (Token::Simple(Simple::Punc(Punc::Plus)), i + 1)
        } else if c == '-' {
            (Token::Simple(Simple::Punc(Punc::Minus)), i + 1)
        } else if c == '*' {
            (Token::Simple(Simple::Punc(Punc::Star)), i + 1)
        } else if c == '/' {
            (Token::Simple(Simple::Punc(Punc::Slash)), i + 1)
        } else if c == '=' {
            (Token::Simple(Simple::Punc(Punc::Equals)), i + 1)
        } else {
            return Err(unexpected(text, s, i, expected_token(closer), file));
        };
        let sp = Span::new(file, i, stop);
        proof {
            if tok is Simple && tok->Simple_0 is Punc {
                assert(s@.subrange(i as int, stop as int) =~= seq![c]);
            }
        }
        assert(token_ok(s@, tok, sp, file));
        proof {
            lemma_covers_push(s@, ts@, (tok, sp), pos as int);
        }
        ts.push((tok, sp));
        assert(ts@ == old_ts.push((tok, sp)));
        i = stop;
    }
}

proof fn lemma_ident_end_ge(s: Seq<char>, i: int)
    requires
        0 <= i,
    ensures
        ident_end(s, i) >= i,
    decreases s.len() - i,
{
    if 0 <= i < s.len() && is_ident_continue(s[i]) {
        lemma_ident_end_ge(s, i + 1);
    }
}

/// The number of bytes that UTF-8 takes for `c`.
pub open spec fn utf8_width(c: char) -> nat {
    if (c as u32) < 0x80 {
        1
    } else if (c as u32) < 0x800 {
        2
    } else if (c as u32) < 0x10000 {
        3
    } else {
        4
    }
}

/// The byte offset in UTF-8 of the `i`-th character of `s`.
pub open spec fn byte_offset(s: Seq<char>, i: int) -> nat
    decreases i,
{
    if i <= 0 || i > s.len() {
        0
    } else {
        byte_offset(s, i - 1) + utf8_width(s[i - 1])
    }
}

/// A span of character offsets of `s` as a span of byte offsets.
pub open spec fn byte_span(s: Seq<char>, sp: Span) -> Span {
    Span {
        start: byte_offset(s, sp.start as int) as usize,
        end: byte_offset(s, sp.end as int) as usize,
        file_id: sp.file_id,
    }
}

/// The token `a` is the token `b` with every span inside it counted in
/// bytes of `s` instead of characters.
pub open spec fn token_in_bytes(s: Seq<char>, a: Token, b: Token) -> bool
    decreases b,
{
    match b {
        Token::Simple(x) => a == Token::Simple(x),
        Token::Parentheses(bs) => a is Parentheses && a->Parentheses_0@.len() == bs@.len() && forall|i: int|
            0 <= i < bs@.len() ==> {
                &&& (#[trigger] a->Parentheses_0@[i]).1 == byte_span(s, bs@[i].1)
                &&& token_in_bytes(s, a->Parentheses_0@[i].0, bs@[i].0)
            },
        Token::CurlyBraces(bs) => a is CurlyBraces && a->CurlyBraces_0@.len() == bs@.len() && forall|i: int|
            0 <= i < bs@.len() ==> {
                &&& (#[trigger] a->CurlyBraces_0@[i]).1 == byte_span(s, bs@[i].1)
                &&& token_in_bytes(s, a->CurlyBraces_0@[i].0, bs@[i].0)
            },
    }
}

/// The tokens `a` are the tokens `b` with their spans counted in bytes of `s`.
pub open spec fn in_bytes(s: Seq<char>, a: Seq<(Token, Span)>, b: Seq<(Token, Span)>) -> bool {
    &&& a.len() == b.len()
    &&& forall|i: int| 0 <= i < b.len() ==> {
        &&& (#[trigger] a[i]).1 == byte_span(s, b[i].1)
        &&& token_in_bytes(s, a[i].0, b[i].0)
    }
}

/// The error points at character offset `p` of `s`, counted in bytes: at
/// the character there, or at the end.
pub open spec fn error_at_byte(e: Error, s: Seq<char>, p: int) -> bool {
    &&& e.span_of().start == byte_offset(s, p)
    &&& e.span_of().end == if p < s.len() { byte_offset(s, p + 1) } else { byte_offset(s, p) }
}

fn utf8_len(c: char) -> (n: usize)
    ensures
        n == utf8_width(c),
{
    let v = c as u32;
    if v < 0x80 {
        1
    } else if v < 0x800 {
        2
    } else if v < 0x10000 {
        3
    } else {
        4
    }
}

/// The byte offset of every character of `s`, and of its end.
fn byte_offsets(s: &Vec<char>) -> (off: Vec<usize>)
    requires
        s.len() < usize::MAX / 4,
    ensures
        off.len() == s.len() + 1,
        forall|i: int| 0 <= i <= s.len() ==> off@[i] == byte_offset(s@, i),
{
    let mut off: Vec<usize> = Vec::new();
    off.push(0);
    let mut i: usize = 0;
    while i < s.len()
        invariant
            s.len() < usize::MAX / 4,
            i <= s.len(),
            off.len() == i + 1,
            forall|k: int| 0 <= k <= i ==> off@[k] == byte_offset(s@, k),
            off@[i as int] <= 4 * i,
        decreases s.len() - i,
    {
        let next = off[i] + utf8_len(s[i]);
        off.push(next);
        i = i + 1;
    }
    off
}

fn span_in_bytes(sp: Span, s: &Vec<char>, off: &Vec<usize>) -> (r: Span)
    requires
        sp.start <= s.len(),
        sp.end <= s.len(),
        off.len() == s.len() + 1,
        forall|i: int| 0 <= i <= s.len() ==> off@[i] == byte_offset(s@, i),
    ensures
        r == byte_span(s@, sp),
{
    Span { start: off[sp.start], end: off[sp.end], file_id: sp.file_id }
}

/// Counts the spans of lexed tokens in bytes.
fn tokens_in_bytes(ts: Vec<(Token, Span)>, s: &Vec<char>, off: &Vec<usize>, file: File) -> (r: Vec<
    (Token, Span),
>)
    requires
        all_ok(s@, ts@, file),
        off.len() == s.len() + 1,
        forall|i: int| 0 <= i <= s.len() ==> off@[i] == byte_offset(s@, i),
    ensures
        in_bytes(s@, r@, ts@),
    decreases ts,
{
    let ghost orig = ts@;
    let mut rest = ts;
    let mut out: Vec<(Token, Span)> = Vec::new();
    let n = rest.len();
    let mut k: usize = 0;
    while k < n
        invariant
            n == orig.len(),
            k <= n,
            rest@ == orig.subrange(k as int, n as int),
            out@.len() == k,
            all_ok(s@, orig, file),
            orig == ts@,
            off.len() == s.len() + 1,
            forall|i: int| 0 <= i <= s.len() ==> off@[i] == byte_offset(s@, i),
            forall|i: int| 0 <= i < k ==> {
                &&& (#[trigger] out@[i]).1 == byte_span(s@, orig[i].1)
                &&& token_in_bytes(s@, out@[i].0, orig[i].0)
            },
        decreases n - k,
    {
        assert(rest@[0] == orig[k as int]);
        let (tok, sp) = rest.remove(0);
        assert(token_ok(s@, tok, sp, file));
        proof {
            assert(decreases_to!(ts => ts@[k as int]));
        }
        let t = match tok {
            Token::Simple(x) => Token::Simple(x),
            Token::Parentheses(inner) => Token::Parentheses(tokens_in_bytes(inner, s, off, file)),
            Token::CurlyBraces(inner) => Token::CurlyBraces(tokens_in_bytes(inner, s, off, file)),
        };
        out.push((t, span_in_bytes(sp, s, off)));
        k = k + 1;
        assert(rest@ =~= orig.subrange(k as int, n as int));
    }
    out
}

fn error_in_bytes(e: Error, s: &Vec<char>, off: &Vec<usize>) -> (r: Error)
    requires
        e is ExpectedFound,
        e.span_of().start <= e.span_of().end <= s.len(),
        off.len() == s.len() + 1,
        forall|i: int| 0 <= i <= s.len() ==> off@[i] == byte_offset(s@, i),
    ensures
        r is ExpectedFound,
        r.span_of() == byte_span(s@, e.span_of()),
        r->ExpectedFound_found == e->ExpectedFound_found,
{
    match e {
        Error::ExpectedFound { expected, found, span } => {
            Error::ExpectedFound { expected, found, span: span_in_bytes(span, s, off) }
        },
        _ => e,
    }
}

/// Lexes one line of text into tokens, grouping brackets. Spans count
/// bytes. Lexing succeeds exactly when the text is `lexable`, and an error
/// points where `lexable` says. The tokens are then those that reproduce
/// the text under their (character) spans, in order, each as long as it can
/// be, with only whitespace and comments between them.
pub fn lexer(text: &str, file: File) -> (r: Result<Vec<(Token, Span)>, Error>)
    requires
        text@.len() < usize::MAX / 4,
    ensures
        r is Ok <==> lexable(text@, 0, None) is Ok,
        match (r, lexable(text@, 0, None)) {
            (Err(e), Err(p)) => error_at_byte(e, text@, p),
            _ => true,
        },
        match r {
            Ok(ts) => exists|cs: Seq<(Token, Span)>|
                #[trigger] char_lexed(text@, file, cs) && in_bytes(text@, ts@, cs),
            Err(e) => e is ExpectedFound && e.span_of().file_id == file,
        },
{
    let n = text.unicode_len();
    let mut s: Vec<char> = Vec::new();
    let mut i: usize = 0;
    while i < n
        invariant
            n == text@.len(),
            i <= n,
            s@ == text@.subrange(0, i as int),
        decreases n - i,
    {
        s.push(text.get_char(i));
        i = i + 1;
        assert(s@ =~= text@.subrange(0, i as int));
    }
    assert(s@ =~= text@);
    let off = byte_offsets(&s);
    match lex_seq(text, &s, 0, None, file) {
        Ok((ts, _)) => {
            let ghost cs = ts@;
            let r = tokens_in_bytes(ts, &s, &off, file);
            assert(char_lexed(text@, file, cs));
            Ok(r)
        },
        Err(e) => Err(error_in_bytes(e, &s, &off)),
    }
}

/// `ts` are the tokens of the text, with spans counting characters: each
/// reproduces the text under its span, in order, with only whitespace and
/// comments between them.
pub open spec fn char_lexed(text: Seq<char>, file: File, ts: Seq<(Token, Span)>) -> bool {
    &&& all_ok(text, ts, file)
    &&& in_order(ts, 0, text.len() as int)
    &&& covers(text, ts, 0, text.len() as int)
}

proof fn lemma_run_end(s: Seq<char>, i: int, j: int, r: Radix)
    requires
        0 <= i <= j <= s.len(),
        forall|k: int| i <= k < j ==> is_digit_of(#[trigger] s[k], r),
        j == s.len() || !is_digit_of(s[j], r),
    ensures
        run_end(s, i, r) == j,
    decreases j - i,
{
    if i < j {
        lemma_run_end(s, i + 1, j, r);
    }
}

/// Rendering a numeral token as source text and scanning that text again
/// gives back the same radix and digits, hence the same exact value.
pub proof fn lemma_numeral_round_trip(before: Seq<char>, after: Option<Seq<char>>, r: Radix)
    requires
        before.len() > 0,
        all_digits_of(before, r),
        match after {
            Some(a) => a.len() > 0 && all_digits_of(a, r),
            None => true,
        },
    ensures
        ({
            let s = numeral_text(before, after, r);
            let (r2, d, e, end) = numeral_at(s, 0);
            let frac = match after {
                Some(a) => a,
                None => seq![],
            };
            &&& r2 == r
            &&& s.subrange(d, e) == before
            &&& end == s.len()
            &&& match after {
                Some(a) => end > e && s.subrange(e + 1, end) == a,
                None => end == e,
            }
            &&& numeral_value(s.subrange(d, e), s.subrange(if end > e { e + 1 } else { e }, end), r2)
                == numeral_value(before, frac, r)
        }),
{
    let s = numeral_text(before, after, r);
    let p = radix_prefix(r);
    let d = p.len() as int;
    let e = d + before.len();
    assert(s.subrange(d, e) =~= before);
    assert(is_digit_of(before[0], r));
    if r == Radix::Decimal && s.len() > 1 {
        assert(is_digit_of(s[1], r) || s[1] == '.');
    }
    assert(numeral_start(s, 0) == (r, d));
    assert forall|k: int| d <= k < e implies is_digit_of(#[trigger] s[k], r) by {
        assert(s[k] == before[k - d]);
    }
    match after {
        Some(a) => {
            assert(s[e] == '.');
            lemma_run_end(s, d, e, r);
            assert(s[e + 1] == a[0]);
            assert(is_digit_of(a[0], r));
            assert forall|k: int| e + 1 <= k < s.len() implies is_digit_of(#[trigger] s[k], r) by {
                assert(s[k] == a[k - e - 1]);
            }
            lemma_run_end(s, e + 1, s.len() as int, r);
            assert(s.subrange(e + 1, s.len() as int) =~= a);
        },
        None => {
            lemma_run_end(s, d, e, r);
            assert(s.subrange(e, e) =~= seq![]);
        },
    }
}

} // verus!
