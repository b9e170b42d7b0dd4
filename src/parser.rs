use crate::ast::{
    names_below, numbers_wf, statement_names_below, statement_numbers_wf, BinaryOp, Expression,
    Identifier, Statement, UnaryOp,
};
use crate::diagnostics::Error;
use crate::interner::Interner;
use crate::rational::{be_digits_value, le_digits_value, rat_eq, Ratio};
use crate::span::{File, FileId, Span, Spanned};
use crate::token::{
    all_digits_of, digit_value, digits_value, is_digit_of, numeral_value, radix_base, Kw, Punc,
    Radix, Simple, Token,
};
use vstd::prelude::*;

verus! {

broadcast use {
    vstd::std_specs::vec::axiom_vec_index_decreases,
    vstd::std_specs::vec::axiom_vec_decreases_to_view,
    vstd::seq::axiom_seq_index_decreases,
};

/// The shape of an expression tree with the spans of its tokens: numerals
/// as their digits, variables as their names, operators with their spans,
/// and parenthesized groups with the span of their parentheses.
pub enum Shape {
    Num(Seq<char>, Seq<char>, Radix, Span),
    Var(Seq<char>, Span),
    Bin(BinaryOp, Span, Box<Shape>, Box<Shape>),
    Neg(Span, Box<Shape>),
    Group(Span, Box<Shape>),
}

/// Why tokens do not parse, with the span to report: a token that cannot
/// stand there, the end of the input, or a numeral with a digit that its
/// radix does not have.
pub enum Fail {
    Unexpected(Span),
    End(Span),
    BadDigits(Span),
}

/// The span of a node: a leaf's token, the union of an operator node's
/// children (with its operator, for a negation), or a group's parentheses.
pub open spec fn shape_span(sh: Shape) -> Span
    decreases sh,
{
    match sh {
        Shape::Num(_, _, _, sp) => sp,
        Shape::Var(_, sp) => sp,
        Shape::Bin(_, _, l, r) => Span::join(shape_span(*l), shape_span(*r)),
        Shape::Neg(o, x) => Span::join(o, shape_span(*x)),
        Shape::Group(g, _) => g,
    }
}

pub open spec fn punc_of(t: (Token, Span)) -> Option<Punc> {
    if t.0 is Simple && t.0->Simple_0 is Punc {
        Some(t.0->Simple_0->Punc_0)
    } else {
        None
    }
}

/// An atom at `pos`: a numeral with valid digits, a variable, or a group
/// whose tokens form exactly one expression. `eoi` is where the input ends.
pub open spec fn p_atom(ts: Seq<(Token, Span)>, pos: int, eoi: Span) -> Result<(Shape, int), Fail>
    decreases ts, 0int, 0int,
{
    if 0 <= pos < ts.len() {
        let sp = ts[pos].1;
        match ts[pos].0 {
            Token::Simple(Simple::Number { before, after, radix }) => {
                let frac = match after {
                    Some(a) => a@,
                    None => seq![],
                };
                if all_digits_of(before@, radix) && all_digits_of(frac, radix) {
                    Ok((Shape::Num(before@, frac, radix, sp), pos + 1))
                } else {
                    Err(Fail::BadDigits(sp))
                }
            },
            Token::Simple(Simple::Identifier(name)) => Ok((Shape::Var(name@, sp), pos + 1)),
            Token::Parentheses(inner) => match p_sum(inner@, 0, sp) {
                Ok((sh, q)) => if q == inner@.len() {
                    Ok((Shape::Group(sp, Box::new(sh)), pos + 1))
                } else if 0 <= q < inner@.len() {
                    Err(Fail::Unexpected(inner@[q].1))
                } else {
                    Err(Fail::End(sp))
                },
                Err(f) => Err(f),
            },
            _ => Err(Fail::Unexpected(sp)),
        }
    } else {
        Err(Fail::End(eoi))
    }
}

/// Prefix minus signs, then an atom.
pub open spec fn p_unary(ts: Seq<(Token, Span)>, pos: int, eoi: Span) -> Result<(Shape, int), Fail>
    decreases ts, 1int, ts.len() - pos,
{
    if 0 <= pos < ts.len() && punc_of(ts[pos]) == Some(Punc::Minus) {
        match p_unary(ts, pos + 1, eoi) {
            Ok((sh, q)) => Ok((Shape::Neg(ts[pos].1, Box::new(sh)), q)),
            Err(f) => Err(f),
        }
    } else {
        p_atom(ts, pos, eoi)
    }
}

pub open spec fn mul_op(t: (Token, Span)) -> Option<BinaryOp> {
    match punc_of(t) {
        Some(Punc::Star) => Some(BinaryOp::Mul),
        Some(Punc::Slash) => Some(BinaryOp::Div),
        _ => None,
    }
}

pub open spec fn add_op(t: (Token, Span)) -> Option<BinaryOp> {
    match punc_of(t) {
        Some(Punc::Plus) => Some(BinaryOp::Add),
        Some(Punc::Minus) => Some(BinaryOp::Sub),
        _ => None,
    }
}

/// Folds `* term` and `/ term` onto `lhs` from the left.
pub open spec fn p_product_rest(ts: Seq<(Token, Span)>, lhs: Shape, pos: int, eoi: Span) -> Result<
    (Shape, int),
    Fail,
>
    decreases ts, 2int, ts.len() - pos,
{
    if 0 <= pos < ts.len() && mul_op(ts[pos]) is Some {
        match p_unary(ts, pos + 1, eoi) {
            Ok((rhs, q)) => if pos < q <= ts.len() {
                p_product_rest(
                    ts,
                    Shape::Bin(mul_op(ts[pos])->0, ts[pos].1, Box::new(lhs), Box::new(rhs)),
                    q,
                    eoi,
                )
            } else {
                Err(Fail::End(eoi))
            },
            Err(f) => Err(f),
        }
    } else {
        Ok((lhs, pos))
    }
}

pub open spec fn p_product(ts: Seq<(Token, Span)>, pos: int, eoi: Span) -> Result<(Shape, int), Fail>
    decreases ts, 3int, 0int,
{
    match p_unary(ts, pos, eoi) {
        Ok((lhs, q)) => p_product_rest(ts, lhs, q, eoi),
        Err(f) => Err(f),
    }
}

/// Folds `+ product` and `- product` onto `lhs` from the left.
pub open spec fn p_sum_rest(ts: Seq<(Token, Span)>, lhs: Shape, pos: int, eoi: Span) -> Result<
    (Shape, int),
    Fail,
>
    decreases ts, 4int, ts.len() - pos,
{
    if 0 <= pos < ts.len() && add_op(ts[pos]) is Some {
        match p_product(ts, pos + 1, eoi) {
            Ok((rhs, q)) => if pos < q <= ts.len() {
                p_sum_rest(
                    ts,
                    Shape::Bin(add_op(ts[pos])->0, ts[pos].1, Box::new(lhs), Box::new(rhs)),
                    q,
                    eoi,
                )
            } else {
                Err(Fail::End(eoi))
            },
            Err(f) => Err(f),
        }
    } else {
        Ok((lhs, pos))
    }
}

/// An expression from `pos`: its shape and where it ends.
pub open spec fn p_sum(ts: Seq<(Token, Span)>, pos: int, eoi: Span) -> Result<(Shape, int), Fail>
    decreases ts, 5int, 0int,
{
    match p_product(ts, pos, eoi) {
        Ok((lhs, q)) => p_sum_rest(ts, lhs, q, eoi),
        Err(f) => Err(f),
    }
}

/// The expression that takes up all of `ts[pos..]`, or why there is none.
pub open spec fn whole_expression(ts: Seq<(Token, Span)>, pos: int, eoi: Span) -> Result<Shape, Fail> {
    match p_sum(ts, pos, eoi) {
        Ok((sh, q)) => if q == ts.len() {
            Ok(sh)
        } else if 0 <= q < ts.len() {
            Err(Fail::Unexpected(ts[q].1))
        } else {
            Err(Fail::End(eoi))
        },
        Err(f) => Err(f),
    }
}

/// The error reports the failure: an unexpected token found at its span,
/// the end of input found at its span, or a bad numeral at its span.
pub open spec fn failed_as(err: Error, f: Fail) -> bool {
    match f {
        Fail::Unexpected(sp) => err is ExpectedFound && err->ExpectedFound_found is Some
            && err.span_of() == sp,
        Fail::End(sp) => err is ExpectedFound && err->ExpectedFound_found is None && err.span_of()
            == sp,
        Fail::BadDigits(sp) => err is Custom && err.span_of() == sp,
    }
}

/// The parse `o` found the expression `e` with span `sp`, ending at `q`.
pub open spec fn parsed(
    o: Result<(Shape, int), Fail>,
    e: Expression,
    sp: Span,
    q: int,
    names: Seq<Seq<char>>,
) -> bool {
    match o {
        Ok((sh, q2)) => q2 == q && shaped(e, sp, sh, names),
        Err(_) => false,
    }
}

/// The failed parse `o` is reported by `err`.
pub open spec fn parse_failed(o: Result<(Shape, int), Fail>, err: Error) -> bool {
    match o {
        Ok(_) => false,
        Err(f) => failed_as(err, f),
    }
}

/// The shape that the parse `o` found.
pub open spec fn found_shape(o: Result<(Shape, int), Fail>) -> Shape {
    match o {
        Ok((sh, _)) => sh,
        Err(_) => Shape::Var(seq![], Span { start: 0, end: 0, file_id: File::Repl(FileId(0)) }),
    }
}

/// Minus signs with the spans `ops` around `sh`, the first outermost.
pub open spec fn negs(sh: Shape, ops: Seq<Span>) -> Shape
    decreases ops.len(),
{
    if ops.len() == 0 {
        sh
    } else {
        Shape::Neg(ops[0], Box::new(negs(sh, ops.drop_first())))
    }
}

pub open spec fn wrap_negs(o: Result<(Shape, int), Fail>, ops: Seq<Span>) -> Result<(Shape, int), Fail> {
    match o {
        Ok((sh, q)) => Ok((negs(sh, ops), q)),
        Err(f) => Err(f),
    }
}

proof fn lemma_negs_push(sh: Shape, ops: Seq<Span>, s: Span)
    ensures
        negs(Shape::Neg(s, Box::new(sh)), ops) == negs(sh, ops.push(s)),
    decreases ops.len(),
{
    if ops.len() == 0 {
        assert(ops.push(s).drop_first() =~= Seq::<Span>::empty());
        assert(negs(sh, ops.push(s).drop_first()) == sh);
    } else {
        lemma_negs_push(sh, ops.drop_first(), s);
        assert(ops.push(s).drop_first() =~= ops.drop_first().push(s));
    }
}

/// The expression `e` with span `sp` has the shape: the span is the shape's,
/// and the node matches it.
pub open spec fn shaped(e: Expression, sp: Span, sh: Shape, names: Seq<Seq<char>>) -> bool
    decreases sh, 1int,
{
    sp == shape_span(sh) && node_shaped(e, sh, names)
}

/// The node `e` matches the shape: equal values at numerals, the same names
/// and spans at variables, the same operators with their spans, and
/// children with their shapes.
pub open spec fn node_shaped(e: Expression, sh: Shape, names: Seq<Seq<char>>) -> bool
    decreases sh, 0int,
{
    match sh {
        Shape::Num(b, a, r, _) => match e {
            Expression::Number(n) => rat_eq(n.model(), numeral_value(b, a, r)),
            _ => false,
        },
        Shape::Var(name, vsp) => match e {
            Expression::Variable(id) => {
                &&& id.0.0 < names.len()
                &&& names[id.0.0 as int] == name
                &&& id.1 == vsp
            },
            _ => false,
        },
        Shape::Bin(o, osp, l, r) => match e {
            Expression::BinaryOp { op, lhs, rhs } => {
                &&& op.0 == o
                &&& op.1 == osp
                &&& shaped(*lhs.0, lhs.1, *l, names)
                &&& shaped(*rhs.0, rhs.1, *r, names)
            },
            _ => false,
        },
        Shape::Neg(osp, x) => match e {
            Expression::UnaryOp { op, expr } => op.1 == osp && shaped(*expr.0, expr.1, *x, names),
            _ => false,
        },
        Shape::Group(_, inner) => node_shaped(e, *inner, names),
    }
}

/// Names added later do not change what an expression's keys stand for.
pub proof fn lemma_shaped_grow(e: Expression, sh: Shape, names: Seq<Seq<char>>, more: Seq<Seq<char>>)
    requires
        node_shaped(e, sh, names),
        names.is_prefix_of(more),
    ensures
        node_shaped(e, sh, more),
        names_below(e, more.len()),
    decreases sh,
{
    match sh {
        Shape::Var(_, _) => match e {
            Expression::Variable(id) => {
                assert(names == more.subrange(0, names.len() as int));
                assert(names[id.0.0 as int] == more.subrange(0, names.len() as int)[id.0.0 as int]);
                assert(names[id.0.0 as int] == more[id.0.0 as int]);
            },
            _ => {},
        },
        Shape::Bin(_, _, l, r) => match e {
            Expression::BinaryOp { op, lhs, rhs } => {
                assert(shaped(*lhs.0, lhs.1, *l, names));
                assert(shaped(*rhs.0, rhs.1, *r, names));
                lemma_shaped_grow(*lhs.0, *l, names, more);
                lemma_shaped_grow(*rhs.0, *r, names, more);
                assert(shaped(*lhs.0, lhs.1, *l, more));
                assert(shaped(*rhs.0, rhs.1, *r, more));
            },
            _ => {},
        },
        Shape::Neg(_, x) => match e {
            Expression::UnaryOp { op, expr } => {
                assert(shaped(*expr.0, expr.1, *x, names));
                lemma_shaped_grow(*expr.0, *x, names, more);
                assert(shaped(*expr.0, expr.1, *x, more));
            },
            _ => {},
        },
        Shape::Group(_, inner) => {
            lemma_shaped_grow(e, *inner, names, more);
        },
        _ => {},
    }
}

proof fn lemma_prefix_trans(a: Seq<Seq<char>>, b: Seq<Seq<char>>, c: Seq<Seq<char>>)
    requires
        a.is_prefix_of(b),
        b.is_prefix_of(c),
    ensures
        a.is_prefix_of(c),
{
    assert(a =~= c.subrange(0, a.len() as int)) by {
        assert forall|i: int| 0 <= i < a.len() implies a[i] == c[i] by {
            assert(a[i] == b[i]);
            assert(b[i] == c[i]);
        }
    }
}

/// How many names a line may add to the interner: one less than the keys
/// it can hand out.
pub const NAME_LIMIT: usize = 4294967293;

/// The identifier tokens among the first `k` of `ts`, groups included.
pub open spec fn idents_upto(ts: Seq<(Token, Span)>, k: int) -> nat
    decreases ts, k,
{
    if k <= 0 || k > ts.len() {
        0
    } else {
        idents_upto(ts, k - 1) + match ts[k - 1].0 {
            Token::Simple(Simple::Identifier(_)) => 1nat,
            Token::Parentheses(inner) => idents_upto(inner@, inner@.len() as int),
            Token::CurlyBraces(inner) => idents_upto(inner@, inner@.len() as int),
            _ => 0nat,
        }
    }
}

/// The identifier tokens in `ts`, groups included.
pub open spec fn idents(ts: Seq<(Token, Span)>) -> nat {
    idents_upto(ts, ts.len() as int)
}

pub open spec fn idents_in(ts: Seq<(Token, Span)>, a: int, b: int) -> nat {
    idents(ts.subrange(a, b))
}

proof fn lemma_idents_prefix(x: Seq<(Token, Span)>, y: Seq<(Token, Span)>, k: int)
    requires
        0 <= k <= x.len(),
    ensures
        idents_upto(x + y, k) == idents_upto(x, k),
    decreases k,
{
    if k > 0 {
        lemma_idents_prefix(x, y, k - 1);
        assert((x + y)[k - 1] == x[k - 1]);
    }
}

proof fn lemma_idents_concat(x: Seq<(Token, Span)>, y: Seq<(Token, Span)>)
    ensures
        idents(x + y) == idents(x) + idents(y),
    decreases y.len(),
{
    if y.len() == 0 {
        assert(x + y =~= x);
        assert(idents_upto(y, 0) == 0);
    } else {
        let y2 = y.drop_last();
        lemma_idents_concat(x, y2);
        assert(x + y =~= (x + y2) + seq![y.last()]);
        assert(y =~= y2 + seq![y.last()]);
        lemma_idents_prefix(x + y2, seq![y.last()], (x + y2).len() as int);
        lemma_idents_prefix(y2, seq![y.last()], y2.len() as int);
        assert((x + y)[(x + y).len() - 1] == y.last());
    }
}

proof fn lemma_idents_split(ts: Seq<(Token, Span)>, a: int, b: int, c: int)
    requires
        0 <= a <= b <= c <= ts.len(),
    ensures
        idents_in(ts, a, c) == idents_in(ts, a, b) + idents_in(ts, b, c),
{
    assert(ts.subrange(a, c) =~= ts.subrange(a, b) + ts.subrange(b, c));
    lemma_idents_concat(ts.subrange(a, b), ts.subrange(b, c));
}

/// The identifiers counted at `pos`: one for an identifier, those inside a
/// group, none for any other token.
proof fn lemma_idents_one(ts: Seq<(Token, Span)>, pos: int)
    requires
        0 <= pos < ts.len(),
    ensures
        idents_in(ts, pos, pos + 1) == match ts[pos].0 {
            Token::Simple(Simple::Identifier(_)) => 1nat,
            Token::Parentheses(inner) => idents(inner@),
            Token::CurlyBraces(inner) => idents(inner@),
            _ => 0nat,
        },
{
    let one = ts.subrange(pos, pos + 1);
    assert(one[0] == ts[pos]);
    assert(idents_upto(one, 0) == 0);
}

/// The digit values of a digit string.
pub open spec fn digit_seq(s: Seq<char>) -> Seq<u8> {
    s.map_values(|c: char| digit_value(c) as u8)
}

proof fn lemma_be_digits(s: Seq<char>, r: Radix)
    requires
        all_digits_of(s, r),
    ensures
        be_digits_value(digit_seq(s), radix_base(r)) == digits_value(s, r),
    decreases s.len(),
{
    if s.len() > 0 {
        assert(digit_seq(s).drop_last() =~= digit_seq(s.drop_last()));
        lemma_be_digits(s.drop_last(), r);
        assert(is_digit_of(s[s.len() - 1], r));
    }
}

proof fn lemma_le_reverse(x: Seq<u8>, b: nat)
    ensures
        le_digits_value(x.reverse(), b) == be_digits_value(x, b),
    decreases x.len(),
{
    if x.len() > 0 {
        let r = x.reverse();
        assert(r.len() == x.len());
        assert(r[0] == x.last());
        assert(r.drop_first() =~= x.drop_last().reverse());
        lemma_le_reverse(x.drop_last(), b);
        assert(le_digits_value(r, b) == r[0] as nat + b * le_digits_value(r.drop_first(), b));
        assert(b * be_digits_value(x.drop_last(), b) == be_digits_value(x.drop_last(), b) * b)
            by (nonlinear_arith);
    } else {
        assert(x.reverse() =~= seq![]);
    }
}

fn digit_val(c: char) -> (r: u8)
    ensures
        r as nat == digit_value(c),
{
    if '0' <= c && c <= '9' {
        (c as u32 - '0' as u32) as u8
    } else if 'a' <= c && c <= 'z' {
        (c as u32 - 'a' as u32 + 10) as u8
    } else if 'A' <= c && c <= 'Z' {
        (c as u32 - 'A' as u32 + 10) as u8
    } else {
        36
    }
}

/// The digit values of `s`, most significant first, or `None` if some
/// character is not a digit of the radix.
fn digits_of(s: &str, radix: Radix) -> (r: Option<Vec<u8>>)
    ensures
        r is Some <==> all_digits_of(s@, radix),
        r is Some ==> r->0@ == digit_seq(s@),
{
    let n = s.unicode_len();
    let base = radix.to_u32();
    let mut v: Vec<u8> = Vec::new();
    let mut i: usize = 0;
    while i < n
        invariant
            n == s@.len(),
            base == radix_base(radix),
            i <= n,
            v@ == digit_seq(s@.subrange(0, i as int)),
            all_digits_of(s@.subrange(0, i as int), radix),
        decreases n - i,
    {
        let c = s.get_char(i);
        let d = digit_val(c);
        if d as u32 >= base {
            assert(!is_digit_of(s@[i as int], radix));
            return None;
        }
        v.push(d);
        i = i + 1;
        assert(s@.subrange(0, i as int) =~= s@.subrange(0, i - 1).push(c));
        assert(v@ =~= digit_seq(s@.subrange(0, i as int)));
    }
    assert(s@.subrange(0, n as int) =~= s@);
    Some(v)
}

fn reversed(v: &Vec<u8>) -> (r: Vec<u8>)
    ensures
        r@ == v@.reverse(),
{
    let mut r: Vec<u8> = Vec::new();
    let mut i = v.len();
    while i > 0
        invariant
            i <= v.len(),
            r@.len() == v.len() - i,
            forall|k: int| 0 <= k < r@.len() ==> r@[k] == v@[v.len() - 1 - k],
        decreases i,
    {
        i = i - 1;
        r.push(v[i]);
    }
    assert(r@ =~= v@.reverse());
    r
}

/// The fractional digits of a numeral, empty if it has no point.
pub open spec fn fraction_digits(after: Option<Seq<char>>) -> Seq<char> {
    match after {
        Some(a) => a,
        None => seq![],
    }
}

/// The exact value of a numeral, or `None` if a digit is not valid for the
/// radix.
pub fn numeral_ratio(before: &str, after: Option<&str>, radix: Radix) -> (r: Option<Ratio>)
    ensures
        r is Some <==> all_digits_of(before@, radix) && match after {
            Some(a) => all_digits_of(a@, radix),
            None => true,
        },
        r is Some ==> r->0.wf() && rat_eq(
            r->0.model(),
            numeral_value(
                before@,
                fraction_digits(
                    match after {
                        Some(a) => Some(a@),
                        None => None,
                    },
                ),
                radix,
            ),
        ),
{
    let b = match digits_of(before, radix) {
        Some(b) => b,
        None => {
            return None;
        },
    };
    let ghost frac = fraction_digits(
        match after {
            Some(t) => Some(t@),
            None => None,
        },
    );
    let a = match after {
        Some(text) => match digits_of(text, radix) {
            Some(a) => a,
            None => {
                return None;
            },
        },
        None => {
            assert(digit_seq(seq![]) =~= seq![]);
            Vec::new()
        },
    };
    let rb = reversed(&b);
    let base = radix.to_u32() as u8;
    proof {
        assert forall|i: int| 0 <= i < b@.len() implies (b@[i] as nat) < base as nat by {
            assert(is_digit_of(before@[i], radix));
        }
        assert forall|i: int| 0 <= i < rb@.len() implies (rb@[i] as nat) < base as nat by {
            assert(rb@[i] == b@[b@.len() - 1 - i]);
        }
        assert forall|i: int| 0 <= i < a@.len() implies (a@[i] as nat) < base as nat by {
            assert(is_digit_of(frac[i], radix));
        }
        lemma_be_digits(before@, radix);
        lemma_be_digits(frac, radix);
        lemma_le_reverse(b@, base as nat);
        assert(all_digits_of(frac, radix));
    }
    let r = Ratio::from_digits(base, &rb, &a);
    Some(r)
}


/// The punctuation token at `pos`, if there is one.
fn punc_at(ts: &Vec<(Token, Span)>, pos: usize) -> (r: Option<Punc>)
    requires
        pos < ts.len(),
    ensures
        r == punc_of(ts@[pos as int]),
{
    match &ts[pos].0 {
        Token::Simple(Simple::Punc(p)) => Some(*p),
        _ => None,
    }
}

/// An "expected ..., found ..." error at the token at `pos`, or at the end
/// of input.
fn expected_found(ts: &Vec<(Token, Span)>, pos: usize, eoi: Span, expected: Vec<String>) -> (e:
    Error)
    ensures
        pos < ts.len() ==> failed_as(e, Fail::Unexpected(ts@[pos as int].1)),
        pos >= ts.len() ==> failed_as(e, Fail::End(eoi)),
{
    if pos < ts.len() {
        Error::ExpectedFound { expected, found: Some(ts[pos].0.to_text()), span: ts[pos].1 }
    } else {
        Error::ExpectedFound { expected, found: None, span: eoi }
    }
}

fn expected_operand() -> Vec<String> {
    vec![
        String::from_str("number"),
        String::from_str("identifier"),
        String::from_str("'('"),
        String::from_str("'-'"),
    ]
}

fn expected_operator(closer: bool) -> Vec<String> {
    let mut v = vec![
        String::from_str("'+'"),
        String::from_str("'-'"),
        String::from_str("'*'"),
        String::from_str("'/'"),
    ];
    if closer {
        v.push(String::from_str("')'"));
    } else {
        v.push(String::from_str("end of input"));
    }
    v
}

/// Parses a sum: products joined by `+` and `-`, folded to the left.
fn parse_sum(ts: &Vec<(Token, Span)>, pos: usize, eoi: Span, names: &mut Interner) -> (r: Result<
    (Spanned<Expression>, usize),
    Error,
>)
    requires
        pos <= ts.len(),
        old(names).names().len() + idents_in(ts@, pos as int, ts@.len() as int) < NAME_LIMIT,
    ensures
        old(names).names().is_prefix_of(final(names).names()),
        final(names).names().len() <= old(names).names().len() + idents_in(
            ts@,
            pos as int,
            ts@.len() as int,
        ),
        match r {
            Ok((e, q)) => {
                &&& pos < q <= ts.len()
                &&& numbers_wf(e.0)
                &&& parsed(p_sum(ts@, pos as int, eoi), e.0, e.1, q as int, final(names).names())
                &&& final(names).names().len() <= old(names).names().len() + idents_in(
                    ts@,
                    pos as int,
                    q as int,
                )
            },
            Err(err) => parse_failed(p_sum(ts@, pos as int, eoi), err),
        },
    decreases ts, 3nat,
{
    let (mut lhs, mut p) = match parse_product(ts, pos, eoi, names) {
        Ok(x) => x,
        Err(e) => {
            return Err(e);
        },
    };
    let ghost mut lhs_sh = found_shape(p_product(ts@, pos as int, eoi));
    while p < ts.len()
        invariant
            pos < p <= ts.len(),
            numbers_wf(lhs.0),
            shaped(lhs.0, lhs.1, lhs_sh, names.names()),
            p_sum(ts@, pos as int, eoi) == p_sum_rest(ts@, lhs_sh, p as int, eoi),
            old(names).names().is_prefix_of(names.names()),
            names.names().len() <= old(names).names().len() + idents_in(ts@, pos as int, p as int),
            old(names).names().len() + idents_in(ts@, pos as int, ts@.len() as int) < NAME_LIMIT,
        decreases ts.len() - p,
    {
        let op = match punc_at(ts, p) {
            Some(Punc::Plus) => BinaryOp::Add,
            Some(Punc::Minus) => BinaryOp::Sub,
            _ => {
                proof {
                    lemma_idents_split(ts@, pos as int, p as int, ts@.len() as int);
                }
                return Ok((lhs, p));
            },
        };
        let op_span = ts[p].1;
        let ghost mid = names.names();
        proof {
            lemma_idents_split(ts@, pos as int, p as int, ts@.len() as int);
            lemma_idents_split(ts@, p as int, p + 1, ts@.len() as int);
        }
        let (rhs, q) = match parse_product(ts, p + 1, eoi, names) {
            Ok(x) => x,
            Err(e) => {
                proof {
                    lemma_prefix_trans(old(names).names(), mid, names.names());
                }
                return Err(e);
            },
        };
        let span = lhs.1.union(rhs.1);
        proof {
            assert(node_shaped(lhs.0, lhs_sh, mid));
            lemma_shaped_grow(lhs.0, lhs_sh, mid, names.names());
            assert(shaped(lhs.0, lhs.1, lhs_sh, names.names()));
            lemma_prefix_trans(old(names).names(), mid, names.names());
            lemma_idents_split(ts@, pos as int, p as int, q as int);
            lemma_idents_split(ts@, p as int, p + 1, q as int);
        }
        let ghost rhs_sh = found_shape(p_product(ts@, p + 1, eoi));
        let ghost old_sh = lhs_sh;
        proof {
            assert(shaped(rhs.0, rhs.1, rhs_sh, names.names()));
            lhs_sh = Shape::Bin(op, op_span, Box::new(old_sh), Box::new(rhs_sh));
        }
        lhs = Spanned(
            Expression::BinaryOp { op: Spanned(op, op_span), lhs: lhs.boxed(), rhs: rhs.boxed() },
            span,
        );
        proof {
            assert(node_shaped(lhs.0, lhs_sh, names.names()));
        }
        p = q;
    }
    Ok((lhs, p))
}

/// Parses a product: unary terms joined by `*` and `/`, folded to the left.
fn parse_product(ts: &Vec<(Token, Span)>, pos: usize, eoi: Span, names: &mut Interner) -> (r: Result<
    (Spanned<Expression>, usize),
    Error,
>)
    requires
        pos <= ts.len(),
        old(names).names().len() + idents_in(ts@, pos as int, ts@.len() as int) < NAME_LIMIT,
    ensures
        old(names).names().is_prefix_of(final(names).names()),
        final(names).names().len() <= old(names).names().len() + idents_in(
            ts@,
            pos as int,
            ts@.len() as int,
        ),
        match r {
            Ok((e, q)) => {
                &&& pos < q <= ts.len()
                &&& numbers_wf(e.0)
                &&& parsed(p_product(ts@, pos as int, eoi), e.0, e.1, q as int, final(names).names())
                &&& final(names).names().len() <= old(names).names().len() + idents_in(
                    ts@,
                    pos as int,
                    q as int,
                )
            },
            Err(err) => parse_failed(p_product(ts@, pos as int, eoi), err),
        },
    decreases ts, 2nat,
{
    let (mut lhs, mut p) = match parse_unary(ts, pos, eoi, names) {
        Ok(x) => x,
        Err(e) => {
            return Err(e);
        },
    };
    let ghost mut lhs_sh = found_shape(p_unary(ts@, pos as int, eoi));
    while p < ts.len()
        invariant
            pos < p <= ts.len(),
            numbers_wf(lhs.0),
            shaped(lhs.0, lhs.1, lhs_sh, names.names()),
            p_product(ts@, pos as int, eoi) == p_product_rest(ts@, lhs_sh, p as int, eoi),
            old(names).names().is_prefix_of(names.names()),
            names.names().len() <= old(names).names().len() + idents_in(ts@, pos as int, p as int),
            old(names).names().len() + idents_in(ts@, pos as int, ts@.len() as int) < NAME_LIMIT,
        decreases ts.len() - p,
    {
        let op = match punc_at(ts, p) {
            Some(Punc::Star) => BinaryOp::Mul,
            Some(Punc::Slash) => BinaryOp::Div,
            _ => {
                proof {
                    lemma_idents_split(ts@, pos as int, p as int, ts@.len() as int);
                }
                return Ok((lhs, p));
            },
        };
        let op_span = ts[p].1;
        let ghost mid = names.names();
        proof {
            lemma_idents_split(ts@, pos as int, p as int, ts@.len() as int);
            lemma_idents_split(ts@, p as int, p + 1, ts@.len() as int);
        }
        let (rhs, q) = match parse_unary(ts, p + 1, eoi, names) {
            Ok(x) => x,
            Err(e) => {
                proof {
                    lemma_prefix_trans(old(names).names(), mid, names.names());
                }
                return Err(e);
            },
        };
        let span = lhs.1.union(rhs.1);
        proof {
            assert(node_shaped(lhs.0, lhs_sh, mid));
            lemma_shaped_grow(lhs.0, lhs_sh, mid, names.names());
            assert(shaped(lhs.0, lhs.1, lhs_sh, names.names()));
            lemma_prefix_trans(old(names).names(), mid, names.names());
            lemma_idents_split(ts@, pos as int, p as int, q as int);
            lemma_idents_split(ts@, p as int, p + 1, q as int);
        }
        let ghost rhs_sh = found_shape(p_unary(ts@, p + 1, eoi));
        let ghost old_sh = lhs_sh;
        proof {
            assert(shaped(rhs.0, rhs.1, rhs_sh, names.names()));
            lhs_sh = Shape::Bin(op, op_span, Box::new(old_sh), Box::new(rhs_sh));
        }
        lhs = Spanned(
            Expression::BinaryOp { op: Spanned(op, op_span), lhs: lhs.boxed(), rhs: rhs.boxed() },
            span,
        );
        proof {
            assert(node_shaped(lhs.0, lhs_sh, names.names()));
        }
        p = q;
    }
    Ok((lhs, p))
}

/// Parses prefix `-` signs before an atom; they apply right to left.
fn parse_unary(ts: &Vec<(Token, Span)>, pos: usize, eoi: Span, names: &mut Interner) -> (r: Result<
    (Spanned<Expression>, usize),
    Error,
>)
    requires
        pos <= ts.len(),
        old(names).names().len() + idents_in(ts@, pos as int, ts@.len() as int) < NAME_LIMIT,
    ensures
        old(names).names().is_prefix_of(final(names).names()),
        final(names).names().len() <= old(names).names().len() + idents_in(
            ts@,
            pos as int,
            ts@.len() as int,
        ),
        match r {
            Ok((e, q)) => {
                &&& pos < q <= ts.len()
                &&& numbers_wf(e.0)
                &&& parsed(p_unary(ts@, pos as int, eoi), e.0, e.1, q as int, final(names).names())
                &&& final(names).names().len() <= old(names).names().len() + idents_in(
                    ts@,
                    pos as int,
                    q as int,
                )
            },
            Err(err) => parse_failed(p_unary(ts@, pos as int, eoi), err),
        },
    decreases ts, 1nat,
{
    let mut ops: Vec<Span> = Vec::new();
    let mut p = pos;
    while p < ts.len() && matches!(punc_at(ts, p), Some(Punc::Minus))
        invariant
            pos <= p <= ts.len(),
            ops@.len() == p - pos,
            p_unary(ts@, pos as int, eoi) == wrap_negs(p_unary(ts@, p as int, eoi), ops@),
        decreases ts.len() - p,
    {
        proof {
            match p_unary(ts@, p + 1, eoi) {
                Ok((sh, q)) => {
                    lemma_negs_push(sh, ops@, ts@[p as int].1);
                },
                Err(_) => {},
            }
        }
        ops.push(ts[p].1);
        p = p + 1;
    }
    proof {
        lemma_idents_split(ts@, pos as int, p as int, ts@.len() as int);
    }
    let (mut e, q) = match parse_atom(ts, p, eoi, names) {
        Ok(x) => x,
        Err(err) => {
            return Err(err);
        },
    };
    proof {
        lemma_idents_split(ts@, pos as int, p as int, q as int);
    }
    let ghost atom_sh = found_shape(p_atom(ts@, p as int, eoi));
    let mut k = ops.len();
    while k > 0
        invariant
            k <= ops.len(),
            numbers_wf(e.0),
            shaped(e.0, e.1, negs(atom_sh, ops@.subrange(k as int, ops@.len() as int)), names.names()),
        decreases k,
    {
        k = k - 1;
        let span = ops[k].union(e.1);
        proof {
            assert(ops@.subrange(k as int, ops@.len() as int).drop_first() =~= ops@.subrange(
                k + 1,
                ops@.len() as int,
            ));
        }
        e = Spanned(Expression::UnaryOp { op: Spanned(UnaryOp::Neg, ops[k]), expr: e.boxed() }, span);
    }
    proof {
        assert(ops@.subrange(0, ops@.len() as int) =~= ops@);
    }
    Ok((e, q))
}

/// Parses a number, a variable, or a parenthesized expression, which takes
/// the span of its parentheses.
fn parse_atom(ts: &Vec<(Token, Span)>, pos: usize, eoi: Span, names: &mut Interner) -> (r: Result<
    (Spanned<Expression>, usize),
    Error,
>)
    requires
        pos <= ts.len(),
        old(names).names().len() + idents_in(ts@, pos as int, ts@.len() as int) < NAME_LIMIT,
    ensures
        old(names).names().is_prefix_of(final(names).names()),
        final(names).names().len() <= old(names).names().len() + idents_in(
            ts@,
            pos as int,
            ts@.len() as int,
        ),
        match r {
            Ok((e, q)) => {
                &&& q == pos + 1 <= ts.len()
                &&& numbers_wf(e.0)
                &&& parsed(p_atom(ts@, pos as int, eoi), e.0, e.1, q as int, final(names).names())
                &&& final(names).names().len() <= old(names).names().len() + idents_in(
                    ts@,
                    pos as int,
                    q as int,
                )
            },
            Err(err) => parse_failed(p_atom(ts@, pos as int, eoi), err),
        },
    decreases ts, 0nat,
{
    if pos >= ts.len() {
        return Err(expected_found(ts, pos, eoi, expected_operand()));
    }
    proof {
        lemma_idents_one(ts@, pos as int);
        lemma_idents_split(ts@, pos as int, pos + 1, ts@.len() as int);
    }
    let sp = ts[pos].1;
    match &ts[pos].0 {
        Token::Simple(Simple::Number { before, after, radix }) => {
            let n = match after {
                Some(a) => numeral_ratio(before.as_str(), Some(a.as_str()), *radix),
                None => numeral_ratio(before.as_str(), None, *radix),
            };
            match n {
                Some(n) => Ok((Spanned(Expression::Number(n), sp), pos + 1)),
                None => Err(
                    Error::Custom { message: String::from_str("invalid digit for the radix"), span: sp },
                ),
            }
        },
        Token::Simple(Simple::Identifier(name)) => {
            let key = names.intern(name.as_str());
            let id = Spanned(Identifier(key), sp);
            Ok((Spanned(Expression::Variable(id), sp), pos + 1))
        },
        Token::Parentheses(inner) => {
            proof {
                assert(decreases_to!(ts => ts@[pos as int]));
                assert(inner@.subrange(0, inner@.len() as int) =~= inner@);
            }
            let (e, q) = match parse_sum(inner, 0, sp, names) {
                Ok(x) => x,
                Err(err) => {
                    return Err(err);
                },
            };
            if q < inner.len() {
                return Err(expected_found(inner, q, sp, expected_operator(true)));
            }
            Ok((Spanned(e.0, sp), pos + 1))
        },
        _ => Err(expected_found(ts, pos, eoi, expected_operand())),
    }
}

/// The keyword token at `pos`, if there is one.
pub open spec fn kw_at(ts: Seq<(Token, Span)>, pos: int) -> Option<Kw> {
    if 0 <= pos < ts.len() && ts[pos].0 is Simple && ts[pos].0->Simple_0 is Kw {
        Some(ts[pos].0->Simple_0->Kw_0)
    } else {
        None
    }
}

/// The line starts `name =`, which makes it an assignment.
pub open spec fn starts_assignment(ts: Seq<(Token, Span)>) -> bool {
    &&& ts.len() >= 2
    &&& ts[0].0 is Simple && ts[0].0->Simple_0 is Identifier
    &&& ts[1].0 is Simple && ts[1].0->Simple_0 is Punc && ts[1].0->Simple_0->Punc_0 == Punc::Equals
}

/// The shape of a statement.
pub enum StatementShape {
    Expression(Shape),
    Assign(Seq<char>, Span, Shape),
    SetPrecision(Shape),
    FullPrecision,
    Help,
    Exit,
    Vars,
}

/// A command word alone on its line.
pub open spec fn alone(ts: Seq<(Token, Span)>, ss: StatementShape) -> Result<StatementShape, Fail> {
    if ts.len() == 1 {
        Ok(ss)
    } else {
        Err(Fail::Unexpected(ts[1].1))
    }
}

pub open spec fn map_shape(r: Result<Shape, Fail>, f: spec_fn(Shape) -> StatementShape) -> Result<
    StatementShape,
    Fail,
> {
    match r {
        Ok(sh) => Ok(f(sh)),
        Err(e) => Err(e),
    }
}

/// The statement that a line's tokens form, or why they form none:
/// `name = <expression>`, `precision <expression>`, a command word alone,
/// or an expression. `eoi` is where the line ends.
pub open spec fn p_statement(ts: Seq<(Token, Span)>, eoi: Span) -> Result<StatementShape, Fail> {
    if starts_assignment(ts) {
        map_shape(
            whole_expression(ts, 2, eoi),
            |sh: Shape| StatementShape::Assign(ts[0].0->Simple_0->Identifier_0@, ts[0].1, sh),
        )
    } else {
        match kw_at(ts, 0) {
            Some(Kw::Precision) => map_shape(
                whole_expression(ts, 1, eoi),
                |sh: Shape| StatementShape::SetPrecision(sh),
            ),
            Some(Kw::FullPrecision) => alone(ts, StatementShape::FullPrecision),
            Some(Kw::Help) => alone(ts, StatementShape::Help),
            Some(Kw::Exit) => alone(ts, StatementShape::Exit),
            Some(Kw::Vars) => alone(ts, StatementShape::Vars),
            Some(Kw::To) => Err(Fail::Unexpected(ts[0].1)),
            None => map_shape(whole_expression(ts, 0, eoi), |sh: Shape| StatementShape::Expression(sh)),
        }
    }
}

/// The statement has the shape.
pub open spec fn statement_shaped(st: Statement, ss: StatementShape, names: Seq<Seq<char>>) -> bool {
    match st {
        Statement::Expression(e) => ss is Expression && shaped(e.0, e.1, ss->Expression_0, names),
        Statement::Assign { name, value } => {
            &&& ss is Assign
            &&& name.0.0 < names.len()
            &&& names[name.0.0 as int] == ss->Assign_0
            &&& name.1 == ss->Assign_1
            &&& shaped(value.0, value.1, ss->Assign_2, names)
        },
        Statement::SetPrecision(e) => ss is SetPrecision && shaped(e.0, e.1, ss->SetPrecision_0, names),
        Statement::FullPrecision => ss is FullPrecision,
        Statement::Help => ss is Help,
        Statement::Exit => ss is Exit,
        Statement::Vars => ss is Vars,
    }
}

/// Parses an expression that must take up `ts[pos..]`.
fn parse_to_end(ts: &Vec<(Token, Span)>, pos: usize, eoi: Span, names: &mut Interner) -> (r: Result<
    Spanned<Expression>,
    Error,
>)
    requires
        pos <= ts.len(),
        old(names).names().len() + idents_in(ts@, pos as int, ts@.len() as int) < NAME_LIMIT,
    ensures
        old(names).names().is_prefix_of(final(names).names()),
        r is Ok ==> numbers_wf(r->Ok_0.0) && names_below(r->Ok_0.0, final(names).names().len()),
        match whole_expression(ts@, pos as int, eoi) {
            Ok(sh) => r is Ok && shaped(r->Ok_0.0, r->Ok_0.1, sh, final(names).names()),
            Err(f) => r is Err && failed_as(r->Err_0, f),
        },
{
    match parse_sum(ts, pos, eoi, names) {
        Ok((e, q)) => {
            if q < ts.len() {
                Err(expected_found(ts, q, eoi, expected_operator(false)))
            } else {
                proof {
                    let sh = found_shape(p_sum(ts@, pos as int, eoi));
                    lemma_shaped_grow(e.0, sh, names.names(), names.names());
                }
                Ok(e)
            }
        },
        Err(e) => Err(e),
    }
}

/// The keyword at `pos`.
fn keyword_at(ts: &Vec<(Token, Span)>, pos: usize) -> (r: Option<Kw>)
    ensures
        r == kw_at(ts@, pos as int),
{
    if pos < ts.len() {
        match &ts[pos].0 {
            Token::Simple(Simple::Kw(k)) => Some(*k),
            _ => None,
        }
    } else {
        None
    }
}

/// A command word that must stand alone on its line.
fn command_alone(ts: &Vec<(Token, Span)>, eoi: Span, stmt: Statement) -> (r: Result<Statement, Error>)
    requires
        ts.len() >= 1,
    ensures
        ts.len() == 1 ==> r == Ok::<Statement, Error>(stmt),
        ts.len() > 1 ==> r is Err && failed_as(r->Err_0, Fail::Unexpected(ts@[1].1)),
{
    if ts.len() > 1 {
        let mut expected: Vec<String> = Vec::new();
        expected.push(String::from_str("end of input"));
        Err(expected_found(ts, 1, eoi, expected))
    } else {
        Ok(stmt)
    }
}

/// The identifier tokens in `ts`, counted up to `NAME_LIMIT`.
fn count_idents(ts: &Vec<(Token, Span)>) -> (n: usize)
    ensures
        n == if idents(ts@) >= NAME_LIMIT { NAME_LIMIT as nat } else { idents(ts@) },
    decreases ts,
{
    let mut acc: usize = 0;
    let mut i: usize = 0;
    while i < ts.len()
        invariant
            i <= ts.len(),
            acc == if idents_upto(ts@, i as int) >= NAME_LIMIT {
                NAME_LIMIT as nat
            } else {
                idents_upto(ts@, i as int)
            },
        decreases ts.len() - i,
    {
        proof {
            assert(decreases_to!(ts => ts@[i as int]));
        }
        let add: usize = match &ts[i].0 {
            Token::Simple(Simple::Identifier(_)) => 1,
            Token::Parentheses(inner) => count_idents(inner),
            Token::CurlyBraces(inner) => count_idents(inner),
            _ => 0,
        };
        acc = if acc >= NAME_LIMIT - add {
            NAME_LIMIT
        } else {
            acc + add
        };
        i = i + 1;
    }
    acc
}

/// Parses the tokens of one line into a statement. `eoi` is the empty span
/// just past the last token, where an error about a missing token points.
///
/// A line `name = <expression>` is an assignment; `precision <expression>`
/// sets the display precision; `fullprecision`, `help`, `exit` and `vars`
/// stand alone; anything else is an expression. Identifiers are interned in
/// `names`. A line whose identifiers could overflow the interner is refused
/// before anything is parsed.
pub fn repl(ts: &Vec<(Token, Span)>, eoi: Span, names: &mut Interner) -> (r: Result<Statement, Error>)
    ensures
        old(names).names().is_prefix_of(final(names).names()),
        r is Ok ==> statement_numbers_wf(r->Ok_0) && statement_names_below(
            r->Ok_0,
            final(names).names().len(),
        ),
        old(names).names().len() + idents(ts@) >= NAME_LIMIT ==> r is Err && *final(names)
            == *old(names),
        old(names).names().len() + idents(ts@) < NAME_LIMIT ==> match p_statement(ts@, eoi) {
            Ok(ss) => r is Ok && statement_shaped(r->Ok_0, ss, final(names).names()),
            Err(f) => r is Err && failed_as(r->Err_0, f),
        },
{
    let count = count_idents(ts);
    if names.len() >= NAME_LIMIT || count >= NAME_LIMIT - names.len() {
        return Err(Error::Custom { message: String::from_str("too many names"), span: eoi });
    }
    proof {
        assert(ts@.subrange(0, ts@.len() as int) =~= ts@);
    }
    if ts.len() >= 2 && matches!(punc_at(ts, 1), Some(Punc::Equals)) {
        match &ts[0].0 {
            Token::Simple(Simple::Identifier(name)) => {
                proof {
                    lemma_idents_one(ts@, 0);
                    lemma_idents_split(ts@, 0, 1, ts@.len() as int);
                    lemma_idents_split(ts@, 1, 2, ts@.len() as int);
                }
                let key = names.intern(name.as_str());
                let ghost mid = names.names();
                let name = Spanned(Identifier(key), ts[0].1);
                return match parse_to_end(ts, 2, eoi, names) {
                    Ok(value) => {
                        proof {
                            lemma_prefix_trans(old(names).names(), mid, names.names());
                            assert(names.names()[key as int] == mid[key as int]);
                        }
                        Ok(Statement::Assign { name, value })
                    },
                    Err(e) => {
                        proof {
                            lemma_prefix_trans(old(names).names(), mid, names.names());
                        }
                        Err(e)
                    },
                };
            },
            _ => {},
        }
    }
    match keyword_at(ts, 0) {
        Some(Kw::Precision) => {
            proof {
                lemma_idents_split(ts@, 0, 1, ts@.len() as int);
            }
            match parse_to_end(ts, 1, eoi, names) {
                Ok(e) => Ok(Statement::SetPrecision(e)),
                Err(e) => Err(e),
            }
        },
        Some(Kw::FullPrecision) => command_alone(ts, eoi, Statement::FullPrecision),
        Some(Kw::Help) => command_alone(ts, eoi, Statement::Help),
        Some(Kw::Exit) => command_alone(ts, eoi, Statement::Exit),
        Some(Kw::Vars) => command_alone(ts, eoi, Statement::Vars),
        Some(Kw::To) => Err(expected_found(ts, 0, eoi, expected_operand())),
        None => match parse_to_end(ts, 0, eoi, names) {
            Ok(e) => Ok(Statement::Expression(e)),
            Err(e) => Err(e),
        },
    }
}

} // verus!
