use crate::ast::{
    names_below, numbers_wf, statement_names_below, statement_numbers_wf, BinaryOp, Expression,
    Statement,
};
use crate::diagnostics::{Error, IntParseError};
use crate::interner::Interner;
use crate::rational::{
    expansion_value, fraction_text, precision_ok, lemma_rat_eq_trans, lemma_rat_eq_zero,
    lemma_rat_ops_congruent,
    lemma_terminates_neg, rat_abs, rat_add, rat_div, rat_eq, rat_mul, rat_neg, rat_sub, sci_text,
    terminates, Ratio,
};
use crate::span::{Span, Spanned};
use crate::token::{all_digits_of, digits_value, is_digit_of, Radix};
use vstd::prelude::*;

verus! {

/// Lexicographic order on texts, by character code.
pub open spec fn text_lt(a: Seq<char>, b: Seq<char>) -> bool
    decreases a.len(),
{
    if a.len() == 0 {
        b.len() > 0
    } else if b.len() == 0 {
        false
    } else if a[0] != b[0] {
        (a[0] as int) < (b[0] as int)
    } else {
        text_lt(a.drop_first(), b.drop_first())
    }
}

proof fn lemma_text_lt_irreflexive(a: Seq<char>)
    ensures
        !text_lt(a, a),
    decreases a.len(),
{
    if a.len() > 0 {
        lemma_text_lt_irreflexive(a.drop_first());
    }
}

proof fn lemma_text_lt_transitive(a: Seq<char>, b: Seq<char>, c: Seq<char>)
    requires
        text_lt(a, b),
        text_lt(b, c),
    ensures
        text_lt(a, c),
    decreases a.len(),
{
    if a.len() > 0 && b.len() > 0 && c.len() > 0 && a[0] == b[0] && b[0] == c[0] {
        lemma_text_lt_transitive(a.drop_first(), b.drop_first(), c.drop_first());
    }
}

proof fn lemma_text_lt_total(a: Seq<char>, b: Seq<char>)
    requires
        a != b,
        !text_lt(a, b),
    ensures
        text_lt(b, a),
    decreases a.len(),
{
    if a.len() > 0 && b.len() > 0 {
        if a[0] == b[0] {
            if a.drop_first() == b.drop_first() {
                assert(a =~= seq![a[0]] + a.drop_first());
                assert(b =~= seq![b[0]] + b.drop_first());
            }
            lemma_text_lt_total(a.drop_first(), b.drop_first());
        } else {
            assert((a[0] as int) != (b[0] as int));
        }
    } else if a.len() == 0 {
        assert(b.len() == 0);
        assert(a =~= b);
    }
}

/// Whether `a` sorts strictly before `b`.
fn text_less(a: &str, b: &str) -> (r: bool)
    ensures
        r == text_lt(a@, b@),
{
    let n = a.unicode_len();
    let m = b.unicode_len();
    let mut i: usize = 0;
    assert(a@.subrange(0, n as int) =~= a@);
    assert(b@.subrange(0, m as int) =~= b@);
    while i < n && i < m
        invariant
            n == a@.len(),
            m == b@.len(),
            i <= n,
            i <= m,
            text_lt(a@, b@) == text_lt(a@.subrange(i as int, n as int), b@.subrange(i as int, m as int)),
        decreases n - i,
    {
        let x = a.get_char(i);
        let y = b.get_char(i);
        if x != y {
            return (x as u32) < (y as u32);
        }
        assert(a@.subrange(i as int, n as int).drop_first() =~= a@.subrange(i + 1, n as int));
        assert(b@.subrange(i as int, m as int).drop_first() =~= b@.subrange(i + 1, m as int));
        i = i + 1;
    }
    i == n && i < m
}

/// Whether `a` and `b` are the same text.
fn text_equal(a: &str, b: &str) -> (r: bool)
    ensures
        r == (a@ == b@),
{
    let n = a.unicode_len();
    if n != b.unicode_len() {
        return false;
    }
    let mut i: usize = 0;
    while i < n
        invariant
            n == a@.len(),
            n == b@.len(),
            i <= n,
            forall|j: int| 0 <= j < i ==> a@[j] == b@[j],
        decreases n - i,
    {
        if a.get_char(i) != b.get_char(i) {
            return false;
        }
        i = i + 1;
    }
    assert(a@ =~= b@);
    true
}


pub open spec fn digit_char(d: u8) -> char {
    match d {
        0 => '0',
        1 => '1',
        2 => '2',
        3 => '3',
        4 => '4',
        5 => '5',
        6 => '6',
        7 => '7',
        8 => '8',
        _ => '9',
    }
}

pub open spec fn digit_chars(ds: Seq<u8>) -> Seq<char> {
    ds.map_values(|d: u8| digit_char(d))
}

/// The value `v` as a repeating decimal written out: sign, integer digits
/// (`0` if there are none), point, the digits that come once, and the
/// repeating digits in parentheses.
pub open spec fn expansion_text(v: (int, int), ip: Seq<u8>, nr: Seq<u8>, rp: Seq<u8>) -> Seq<char> {
    (if v.0 < 0 { seq!['-'] } else { seq![] }) + (if ip.len() == 0 {
        seq!['0']
    } else {
        digit_chars(ip.reverse())
    }) + seq!['.'] + digit_chars(nr) + seq!['('] + digit_chars(rp) + seq![')']
}

/// `t` displays the number `n` at the precision: in scientific notation,
/// rounded or complete, or, in full precision for a value whose expansion
/// does not terminate, as a repeating decimal.
pub open spec fn displays_as(t: Seq<char>, n: Ratio, precision: Precision) -> bool {
    match precision {
        Precision::Digits(p) => t == sci_text(n.num(), n.den(), Some(p)),
        Precision::Full => if terminates(n.model()) {
            t == sci_text(n.num(), n.den(), None)
        } else {
            exists|ip: Seq<u8>, nr: Seq<u8>, rp: Seq<u8>|
                #![trigger expansion_text(n.model(), ip, nr, rp)]
                rp.len() > 0 && rat_eq(rat_abs(n.model()), expansion_value(ip, nr, rp)) && t
                    == expansion_text(n.model(), ip, nr, rp)
        },
    }
}

fn digit_text(d: u8) -> (r: &'static str)
    ensures
        r@ == seq![digit_char(d)],
{
    proof {
        reveal_strlit("0");
        reveal_strlit("1");
        reveal_strlit("2");
        reveal_strlit("3");
        reveal_strlit("4");
        reveal_strlit("5");
        reveal_strlit("6");
        reveal_strlit("7");
        reveal_strlit("8");
        reveal_strlit("9");
    }
    match d {
        0 => "0",
        1 => "1",
        2 => "2",
        3 => "3",
        4 => "4",
        5 => "5",
        6 => "6",
        7 => "7",
        8 => "8",
        _ => "9",
    }
}

/// Appends the digits `ds`, in order or reversed.
fn push_digits(s: &mut String, ds: &Vec<u8>, reversed: bool)
    ensures
        final(s)@ == old(s)@ + digit_chars(
            if reversed {
                ds@.reverse()
            } else {
                ds@
            },
        ),
{
    let ghost src = if reversed {
        ds@.reverse()
    } else {
        ds@
    };
    let ghost start = s@;
    let n = ds.len();
    let mut i: usize = 0;
    while i < n
        invariant
            n == ds@.len(),
            src.len() == n,
            src == (if reversed { ds@.reverse() } else { ds@ }),
            i <= n,
            s@ == start + digit_chars(src.subrange(0, i as int)),
        decreases n - i,
    {
        let d = if reversed {
            ds[n - 1 - i]
        } else {
            ds[i]
        };
        assert(d == src[i as int]);
        s.append(digit_text(d));
        assert(digit_chars(src.subrange(0, i + 1)) =~= digit_chars(src.subrange(0, i as int)) + seq![
            digit_char(d),
        ]);
        i = i + 1;
    }
    assert(src.subrange(0, n as int) =~= src);
}

/// The digits of a natural number's text, after an optional `+`.
pub open spec fn unsigned_digits(t: Seq<char>) -> Seq<char> {
    if t.len() > 0 && t[0] == '+' {
        t.drop_first()
    } else {
        t
    }
}

/// Reading a text as a `u64`: optional `+`, then decimal digits only.
pub open spec fn natural_of(t: Seq<char>) -> Result<u64, IntParseError> {
    let d = unsigned_digits(t);
    if t.len() == 0 {
        Err(IntParseError::Empty)
    } else if d.len() == 0 || !all_digits_of(d, Radix::Decimal) {
        Err(IntParseError::InvalidDigit)
    } else if digits_value(d, Radix::Decimal) > u64::MAX {
        Err(IntParseError::PosOverflow)
    } else {
        Ok(digits_value(d, Radix::Decimal) as u64)
    }
}

/// Reads a text as a `u64`.
pub fn parse_natural(t: &str) -> (r: Result<u64, IntParseError>)
    ensures
        r == natural_of(t@),
{
    let n = t.unicode_len();
    if n == 0 {
        return Err(IntParseError::Empty);
    }
    let start: usize = if t.get_char(0) == '+' {
        1
    } else {
        0
    };
    let ghost d = unsigned_digits(t@);
    assert(d =~= t@.subrange(start as int, n as int));
    if start == n {
        return Err(IntParseError::InvalidDigit);
    }
    let mut acc: u64 = 0;
    let mut overflow = false;
    let mut i = start;
    while i < n
        invariant
            n == t@.len(),
            start <= i <= n,
            d == t@.subrange(start as int, n as int),
            d == unsigned_digits(t@),
            all_digits_of(d.subrange(0, i - start), Radix::Decimal),
            !overflow ==> acc == digits_value(d.subrange(0, i - start), Radix::Decimal),
            overflow ==> digits_value(d.subrange(0, i - start), Radix::Decimal) > u64::MAX,
        decreases n - i,
    {
        let c = t.get_char(i);
        if !('0' <= c && c <= '9') {
            assert(d[i - start] == c);
            assert(!is_digit_of(d[i - start], Radix::Decimal));
            assert(!all_digits_of(d, Radix::Decimal));
            return Err(IntParseError::InvalidDigit);
        }
        let dv = (c as u32 - '0' as u32) as u64;
        let ghost prev = d.subrange(0, i - start);
        let ghost next = d.subrange(0, i + 1 - start);
        assert(next.drop_last() =~= prev);
        assert(next.last() == c);
        assert(digits_value(next, Radix::Decimal) == digits_value(prev, Radix::Decimal) * 10 + dv);
        if !overflow {
            if acc > (u64::MAX - dv) / 10 {
                overflow = true;
                assert(acc * 10 + dv > u64::MAX) by (nonlinear_arith)
                    requires
                        acc > (u64::MAX - dv) / 10,
                        dv <= 9,
                ;
            } else {
                assert(acc * 10 + dv <= u64::MAX) by (nonlinear_arith)
                    requires
                        acc <= (u64::MAX - dv) / 10,
                        dv <= 9,
                ;
                acc = acc * 10 + dv;
            }
        }
        i = i + 1;
    }
    assert(d.subrange(0, n - start) =~= d);
    if overflow {
        Err(IntParseError::PosOverflow)
    } else {
        Ok(acc)
    }
}

/// The precision that a value's displayed text asks for: zero is refused,
/// and so is a count above `i64::MAX`, which is too large to display with.
pub fn precision_from_text(t: &str, span: Span) -> (r: Result<u64, Error>)
    ensures
        r == precision_of(t@, span),
{
    match parse_natural(t) {
        Ok(0) => Err(Error::PrecisionZero(span)),
        Ok(n) => {
            if n > i64::MAX as u64 {
                Err(Error::InvalidPrecision { span, err: IntParseError::PosOverflow })
            } else {
                Ok(n)
            }
        },
        Err(k) => Err(Error::InvalidPrecision { span, err: k }),
    }
}

/// The precision that the text `t` asks for, or the error at `span`.
pub open spec fn precision_of(t: Seq<char>, span: Span) -> Result<u64, Error> {
    match natural_of(t) {
        Ok(n) => if n == 0 {
            Err(Error::PrecisionZero(span))
        } else if n > i64::MAX {
            Err(Error::InvalidPrecision { span, err: IntParseError::PosOverflow })
        } else {
            Ok(n)
        },
        Err(k) => Err(Error::InvalidPrecision { span, err: k }),
    }
}

/// A value of the language: currently only exact rational numbers.
#[derive(Clone, Debug)]
pub enum Value {
    Number(Ratio),
}

impl Value {
    pub open spec fn model(self) -> (int, int) {
        match self {
            Value::Number(r) => r.model(),
        }
    }

    pub open spec fn wf(self) -> bool {
        match self {
            Value::Number(r) => r.wf(),
        }
    }

    /// The value as text at the display precision.
    pub fn display(&self, precision: Precision) -> (r: String)
        requires
            self.wf(),
            precision matches Precision::Digits(p) ==> precision_ok(p),
        ensures
            displays_as(r@, self->Number_0, precision),
    {
        match self {
            Value::Number(n) => match precision {
                Precision::Digits(p) => n.to_sci(Some(p)),
                Precision::Full => {
                    let abs = if n.negative {
                        n.neg()
                    } else {
                        n.duplicate()
                    };
                    proof {
                        lemma_terminates_neg(n.model());
                        assert(abs.model() == rat_abs(n.model()));
                    }
                    let (ip, nr, rp) = abs.decimal_digits();
                    if rp.len() == 0 {
                        let s = n.to_sci(None);
                        assert(displays_as(s@, *n, precision));
                        s
                    } else {
                        let negative = n.negative && !n.is_zero();
                        let mut s = String::new();
                        proof {
                            reveal_strlit("-");
                            reveal_strlit("0");
                            reveal_strlit(".");
                            reveal_strlit("(");
                            reveal_strlit(")");
                        }
                        if negative {
                            s.append("-");
                        }
                        if ip.len() == 0 {
                            s.append("0");
                        } else {
                            push_digits(&mut s, &ip, true);
                        }
                        s.append(".");
                        push_digits(&mut s, &nr, false);
                        s.append("(");
                        push_digits(&mut s, &rp, false);
                        s.append(")");
                        assert(s@ =~= expansion_text(n.model(), ip@, nr@, rp@));
                        proof {
                            assert(!terminates(n.model()));
                            assert(rat_eq(rat_abs(n.model()), expansion_value(ip@, nr@, rp@)));
                            assert(displays_as(s@, *n, precision));
                        }
                        s
                    }
                },
            },
        }
    }

    /// A copy of this value.
    pub fn duplicate(&self) -> (r: Value)
        ensures
            r.model() == self.model(),
            r.wf() == self.wf(),
    {
        match self {
            Value::Number(n) => Value::Number(n.duplicate()),
        }
    }
}

/// How values are displayed: rounded to a number of significant digits, or
/// in full.
#[derive(Clone, Copy, Debug, PartialEq, Eq, Structural)]
pub enum Precision {
    Digits(u64),
    Full,
}

/// Bindings sorted strictly by name, so each name occurs once.
pub open spec fn sorted_names(s: Seq<(String, Value)>) -> bool {
    forall|i: int, j: int| 0 <= i < j < s.len() ==> text_lt(#[trigger] s[i].0@, #[trigger] s[j].0@)
}

pub open spec fn has_name(s: Seq<(String, Value)>, k: Seq<char>) -> bool {
    exists|i: int| 0 <= i < s.len() && #[trigger] s[i].0@ == k
}

/// The environment that bindings denote: each name to its value.
pub open spec fn names_env(s: Seq<(String, Value)>) -> Map<Seq<char>, (int, int)> {
    Map::new(
        |k: Seq<char>| has_name(s, k),
        |k: Seq<char>| s[name_index(s, k)].1.model(),
    )
}

/// Where the name `k` is bound.
pub open spec fn name_index(s: Seq<(String, Value)>, k: Seq<char>) -> int {
    choose|i: int| 0 <= i < s.len() && #[trigger] s[i].0@ == k
}

proof fn lemma_env_at(s: Seq<(String, Value)>, i: int)
    requires
        sorted_names(s),
        0 <= i < s.len(),
    ensures
        names_env(s).contains_key(s[i].0@),
        names_env(s)[s[i].0@] == s[i].1.model(),
{
    let k = s[i].0@;
    assert(has_name(s, k));
    let j = name_index(s, k);
    if j < i {
        assert(text_lt(s[j].0@, s[i].0@));
        lemma_text_lt_irreflexive(k);
    } else if j > i {
        assert(text_lt(s[i].0@, s[j].0@));
        lemma_text_lt_irreflexive(k);
    }
    assert(j == i);
    assert(names_env(s).contains_key(k));
    assert(names_env(s)[k] == s[j].1.model());
}

/// Replacing or inserting the binding at `i` binds its name and leaves the
/// other names as they were.
proof fn lemma_env_update(old: Seq<(String, Value)>, new: Seq<(String, Value)>, i: int, inserted: bool)
    requires
        sorted_names(old),
        sorted_names(new),
        0 <= i < new.len(),
        new.len() == if inserted { old.len() + 1 } else { old.len() + 0 },
        forall|j: int| 0 <= j < i ==> new[j] == old[j],
        forall|j: int| i < j < new.len() ==> new[j] == old[if inserted { j - 1 } else { j }],
        !inserted ==> old[i].0@ == new[i].0@,
    ensures
        names_env(new) == names_env(old).insert(new[i].0@, new[i].1.model()),
{
    let name = new[i].0@;
    let e_old = names_env(old);
    let e_new = names_env(new);
    let expected = e_old.insert(name, new[i].1.model());
    assert forall|k: Seq<char>| #[trigger] e_new.contains_key(k) == expected.contains_key(k) by {
        if k != name {
            if has_name(new, k) {
                let j = choose|j: int| 0 <= j < new.len() && #[trigger] new[j].0@ == k;
                let oj = if j < i { j } else if inserted { j - 1 } else { j };
                assert(old[oj].0@ == k);
            }
            if has_name(old, k) {
                let oj = choose|j: int| 0 <= j < old.len() && #[trigger] old[j].0@ == k;
                if oj < i {
                    assert(new[oj].0@ == k);
                } else if inserted {
                    assert(new[oj + 1].0@ == k);
                } else {
                    assert(oj != i);
                    assert(new[oj].0@ == k);
                }
            }
        } else {
            lemma_env_at(new, i);
        }
    }
    assert forall|k: Seq<char>| #[trigger] e_new.contains_key(k) implies e_new[k] == expected[k] by {
        if k == name {
            lemma_env_at(new, i);
        } else {
            let j = choose|j: int| 0 <= j < new.len() && #[trigger] new[j].0@ == k;
            lemma_env_at(new, j);
            let oj = if j < i { j } else if inserted { j - 1 } else { j };
            assert(old[oj] == new[j]);
            lemma_env_at(old, oj);
        }
    }
    assert(e_new =~= expected);
}

/// Why an expression has no value.
pub enum Fault {
    Undefined(Seq<char>, Span),
    DivisionByZero(Span),
}

/// The exact value of an expression in an environment, as a fraction, or
/// the first fault met evaluating left operands before right ones.
pub open spec fn eval(e: Expression, env: Map<Seq<char>, (int, int)>, names: Seq<Seq<char>>) -> Result<
    (int, int),
    Fault,
>
    decreases e,
{
    match e {
        Expression::Number(n) => Ok(n.model()),
        Expression::Variable(id) => {
            let name = names[id.0.0 as int];
            if env.contains_key(name) {
                Ok(env[name])
            } else {
                Err(Fault::Undefined(name, id.1))
            }
        },
        Expression::BinaryOp { op, lhs, rhs } => match eval(*lhs.0, env, names) {
            Err(f) => Err(f),
            Ok(a) => match eval(*rhs.0, env, names) {
                Err(f) => Err(f),
                Ok(b) => match op.0 {
                    BinaryOp::Add => Ok(rat_add(a, b)),
                    BinaryOp::Sub => Ok(rat_sub(a, b)),
                    BinaryOp::Mul => Ok(rat_mul(a, b)),
                    BinaryOp::Div => if b.0 == 0 {
                        Err(Fault::DivisionByZero(rhs.1))
                    } else {
                        Ok(rat_div(a, b))
                    },
                },
            },
        },
        Expression::UnaryOp { op, expr } => match eval(*expr.0, env, names) {
            Err(f) => Err(f),
            Ok(a) => Ok(rat_neg(a)),
        },
    }
}

/// The evaluation result matches `eval`: an equal value, or the error for
/// the fault.
pub open spec fn result_matches(r: Result<Value, Error>, expected: Result<(int, int), Fault>) -> bool {
    match expected {
        Ok(q) => r is Ok && r->Ok_0.wf() && rat_eq(r->Ok_0.model(), q) && q.1 != 0,
        Err(f) => faulted(r, f),
    }
}

/// `r` is the error for the fault.
pub open spec fn faulted<T>(r: Result<T, Error>, f: Fault) -> bool {
    match f {
        Fault::Undefined(name, span) => {
            &&& r is Err
            &&& r->Err_0 is UndefinedVariable
            &&& r->Err_0->UndefinedVariable_name@ == name
            &&& r->Err_0->UndefinedVariable_span == span
        },
        Fault::DivisionByZero(span) => r is Err && r->Err_0 == Error::DivisionByZero(span),
    }
}

/// One line of the `vars` listing: a name, its value at the display
/// precision, and its exact fraction.
#[derive(Debug)]
pub struct VarLine {
    pub name: String,
    pub value: String,
    pub exact: String,
}

/// What a statement asks of the session, once it has been evaluated.
#[derive(Debug)]
pub enum Outcome {
    /// An expression's value, to be displayed.
    Value(Value),
    /// A variable was bound.
    Assigned,
    /// Values are now shown with this many significant digits.
    PrecisionSet(u64),
    /// Values are now shown in full.
    FullPrecision,
    /// The usage summary is to be shown.
    Help,
    /// The bindings, sorted by name.
    Vars(Vec<VarLine>),
    /// The session ends.
    Exit,
}

/// `lines` is the `vars` listing of the session: one line per binding, in
/// the order of the bindings, strictly sorted by name, each with its value
/// at the display precision and its exact fraction.
pub open spec fn listing(lines: Seq<VarLine>, ev: Evaluator) -> bool {
    &&& lines.len() == ev.bindings().len()
    &&& forall|i: int| 0 <= i < lines.len() ==> {
        let b = #[trigger] ev.bindings()[i];
        &&& lines[i].name@ == b.0@
        &&& displays_as(lines[i].value@, b.1->Number_0, ev.precision_spec())
        &&& lines[i].exact@ == fraction_text(b.1.model().0, b.1.model().1)
    }
    &&& forall|i: int, j: int| 0 <= i < j < lines.len() ==> text_lt(
        #[trigger] lines[i].name@,
        #[trigger] lines[j].name@,
    )
    &&& forall|k: Seq<char>| ev.env().contains_key(k) <==> exists|i: int|
        0 <= i < lines.len() && #[trigger] lines[i].name@ == k
}

/// The result of `precision <expression>` once the precision read from the
/// value's text is known.
pub open spec fn precision_set(
    before: Evaluator,
    after: Evaluator,
    r: Result<Outcome, Error>,
    read: Result<u64, Error>,
) -> bool {
    match read {
        Ok(p) => {
            &&& r == Ok::<Outcome, Error>(Outcome::PrecisionSet(p))
            &&& after.precision_spec() == Precision::Digits(p)
            &&& after.env() == before.env()
            &&& after.bindings() == before.bindings()
        },
        Err(err) => r == Err::<Outcome, Error>(err) && after == before,
    }
}

/// What evaluating `stmt` in the session `before` gives: the result `r` and
/// the session `after`. Names are read through the interner's `names`.
pub open spec fn statement_effect(
    before: Evaluator,
    after: Evaluator,
    names: Seq<Seq<char>>,
    stmt: Statement,
    r: Result<Outcome, Error>,
) -> bool {
    match stmt {
        Statement::Expression(e) => {
            &&& after == before
            &&& match eval(e.0, before.env(), names) {
                Ok(q) => r is Ok && r->Ok_0 is Value && r->Ok_0->Value_0.wf() && rat_eq(
                    r->Ok_0->Value_0.model(),
                    q,
                ),
                Err(f) => faulted(r, f),
            }
        },
        Statement::Assign { name, value } => match eval(value.0, before.env(), names) {
            Ok(q) => {
                let key = names[name.0.0 as int];
                &&& r == Ok::<Outcome, Error>(Outcome::Assigned)
                &&& after.precision_spec() == before.precision_spec()
                &&& after.env().dom() == before.env().dom().insert(key)
                &&& rat_eq(after.env()[key], q)
                &&& forall|k: Seq<char>| k != key && before.env().contains_key(k)
                    ==> #[trigger] after.env()[k] == before.env()[k]
            },
            Err(f) => faulted(r, f) && after == before,
        },
        Statement::SetPrecision(e) => match eval(e.0, before.env(), names) {
            Ok(q) => if q.0 == 0 {
                r == Err::<Outcome, Error>(Error::PrecisionZero(e.1)) && after == before
            } else {
                exists|n: Ratio, t: Seq<char>|
                    #![trigger displays_as(t, n, before.precision_spec())]
                    n.wf() && rat_eq(n.model(), q) && displays_as(t, n, before.precision_spec())
                        && precision_set(before, after, r, precision_of(t, e.1))
            },
            Err(f) => faulted(r, f) && after == before,
        },
        Statement::FullPrecision => {
            &&& r matches Ok(Outcome::FullPrecision)
            &&& after.precision_spec() == Precision::Full
            &&& after.env() == before.env()
            &&& after.bindings() == before.bindings()
        },
        Statement::Help => r matches Ok(Outcome::Help) && after == before,
        Statement::Exit => r matches Ok(Outcome::Exit) && after == before,
        Statement::Vars => {
            &&& after == before
            &&& r is Ok && r->Ok_0 is Vars
            &&& listing(r->Ok_0->Vars_0@, before)
        },
    }
}

/// The session state: variable bindings and display precision.
pub struct Evaluator {
    names: Vec<(String, Value)>,
    precision: Precision,
}

impl Evaluator {
    pub closed spec fn env(&self) -> Map<Seq<char>, (int, int)> {
        names_env(self.names@)
    }

    pub closed spec fn precision_spec(&self) -> Precision {
        self.precision
    }

    /// The bindings in the order `vars` lists them.
    pub closed spec fn bindings(&self) -> Seq<(String, Value)> {
        self.names@
    }

    pub closed spec fn wf(&self) -> bool {
        &&& sorted_names(self.names@)
        &&& forall|i: int| 0 <= i < self.names@.len() ==> (#[trigger] self.names@[i]).1.wf()
        &&& match self.precision {
            Precision::Digits(p) => precision_ok(p),
            Precision::Full => true,
        }
    }

    /// A fresh session: no variables, 16 significant digits.
    pub fn new() -> (r: Evaluator)
        ensures
            r.wf(),
            r.env() == Map::<Seq<char>, (int, int)>::empty(),
            r.precision_spec() == Precision::Digits(16),
    {
        let r = Evaluator { names: Vec::new(), precision: Precision::Digits(16) };
        assert(r.env() =~= Map::<Seq<char>, (int, int)>::empty());
        r
    }

    /// The display precision.
    pub fn options(&self) -> (r: Precision)
        ensures
            r == self.precision_spec(),
    {
        self.precision
    }

    /// The value bound to `name`.
    pub fn get(&self, name: &str) -> (r: Option<&Value>)
        requires
            self.wf(),
        ensures
            r is Some <==> self.env().contains_key(name@),
            r is Some ==> r->0.model() == self.env()[name@] && r->0.wf(),
    {
        let mut i: usize = 0;
        while i < self.names.len()
            invariant
                self.wf(),
                i <= self.names.len(),
                forall|j: int| 0 <= j < i ==> self.names@[j].0@ != name@,
            decreases self.names.len() - i,
        {
            if text_equal(self.names[i].0.as_str(), name) {
                proof {
                    lemma_env_at(self.names@, i as int);
                }
                return Some(&self.names[i].1);
            }
            i = i + 1;
        }
        None
    }

    /// Evaluates an expression exactly.
    pub fn evaluate_expression(&self, e: &Expression, names: &Interner) -> (r: Result<Value, Error>)
        requires
            self.wf(),
            numbers_wf(*e),
            names_below(*e, names.names().len()),
        ensures
            result_matches(r, eval(*e, self.env(), names.names())),
        decreases e,
    {
        match e {
            Expression::Number(n) => Ok(Value::Number(n.duplicate())),
            Expression::Variable(id) => {
                let name = id.0.resolve(names);
                match self.get(name) {
                    Some(v) => Ok(v.duplicate()),
                    None => Err(Error::UndefinedVariable { name: String::from_str(name), span: id.1 }),
                }
            },
            Expression::BinaryOp { op, lhs, rhs } => {
                let a = match self.evaluate_expression(&lhs.0, names) {
                    Ok(Value::Number(a)) => a,
                    Err(err) => {
                        return Err(err);
                    },
                };
                let b = match self.evaluate_expression(&rhs.0, names) {
                    Ok(Value::Number(b)) => b,
                    Err(err) => {
                        return Err(err);
                    },
                };
                let ghost x = eval(*lhs.0, self.env(), names.names())->Ok_0;
                let ghost y = eval(*rhs.0, self.env(), names.names())->Ok_0;
                proof {
                    lemma_rat_ops_congruent(a.model(), x, b.model(), y);
                    vstd::arithmetic::mul::lemma_mul_strictly_positive(a.den(), b.den());
                    vstd::arithmetic::mul::lemma_mul_nonzero(x.1, y.1);
                    vstd::arithmetic::mul::lemma_mul_nonzero(x.1, y.0);
                    vstd::arithmetic::mul::lemma_mul_nonzero(a.den(), b.num());
                }
                let q = match op.0 {
                    BinaryOp::Add => {
                        let q = a.add(&b);
                        proof {
                            lemma_rat_eq_trans(q.model(), rat_add(a.model(), b.model()), rat_add(x, y));
                        }
                        q
                    },
                    BinaryOp::Sub => {
                        let q = a.sub(&b);
                        proof {
                            lemma_rat_eq_trans(q.model(), rat_sub(a.model(), b.model()), rat_sub(x, y));
                        }
                        q
                    },
                    BinaryOp::Mul => {
                        let q = a.mul(&b);
                        proof {
                            lemma_rat_eq_trans(q.model(), rat_mul(a.model(), b.model()), rat_mul(x, y));
                        }
                        q
                    },
                    BinaryOp::Div => {
                        proof {
                            lemma_rat_eq_zero(b.model(), y);
                        }
                        match a.checked_div(&b) {
                            Some(q) => {
                                proof {
                                    lemma_rat_eq_trans(q.model(), rat_div(a.model(), b.model()), rat_div(x, y));
                                }
                                q
                            },
                            None => {
                                return Err(Error::DivisionByZero(rhs.1));
                            },
                        }
                    },
                };
                Ok(Value::Number(q))
            },
            Expression::UnaryOp { op, expr } => {
                let a = match self.evaluate_expression(&expr.0, names) {
                    Ok(Value::Number(a)) => a,
                    Err(err) => {
                        return Err(err);
                    },
                };
                let ghost x = eval(*expr.0, self.env(), names.names())->Ok_0;
                proof {
                    lemma_rat_ops_congruent(a.model(), x, a.model(), x);
                }
                let q = a.neg();
                proof {
                    lemma_rat_eq_trans(q.model(), rat_neg(a.model()), rat_neg(x));
                }
                Ok(Value::Number(q))
            },
        }
    }

    /// The `vars` listing: every binding, sorted by name.
    pub fn vars(&self) -> (r: Vec<VarLine>)
        requires
            self.wf(),
        ensures
            listing(r@, *self),
    {
        let mut out: Vec<VarLine> = Vec::new();
        let mut i: usize = 0;
        while i < self.names.len()
            invariant
                self.wf(),
                i <= self.names.len(),
                out.len() == i,
                forall|j: int| 0 <= j < i ==> {
                    let b = #[trigger] self.names@[j];
                    &&& out@[j].name@ == b.0@
                    &&& displays_as(out@[j].value@, b.1->Number_0, self.precision)
                    &&& out@[j].exact@ == fraction_text(b.1.model().0, b.1.model().1)
                },
            decreases self.names.len() - i,
        {
            let (name, value) = (&self.names[i].0, &self.names[i].1);
            let Value::Number(n) = value;
            assert(self.names@[i as int].1.wf());
            let line = VarLine {
                name: name.clone(),
                value: value.display(self.precision),
                exact: n.to_fraction_string(),
            };
            out.push(line);
            i = i + 1;
        }
        proof {
            assert forall|a: int, b: int| 0 <= a < b < out.len() implies text_lt(
                #[trigger] out@[a].name@,
                #[trigger] out@[b].name@,
            ) by {
                assert(text_lt(self.names@[a].0@, self.names@[b].0@));
            }
            assert forall|k: Seq<char>| self.env().contains_key(k) <==> exists|i: int| 0 <= i < out.len() && #[trigger] out@[i].name@ == k by {
                if self.env().contains_key(k) {
                    let j = name_index(self.names@, k);
                    assert(out@[j].name@ == k);
                }
                if exists|i: int| 0 <= i < out.len() && #[trigger] out@[i].name@ == k {
                    let j = choose|i: int| 0 <= i < out.len() && #[trigger] out@[i].name@ == k;
                    assert(self.names@[j].0@ == k);
                    assert(has_name(self.names@, k));
                }
            }
        }
        out
    }

    /// Evaluates one statement against the session. On an error the
    /// session is left as it was.
    pub fn evaluate_statement(&mut self, stmt: Statement, names: &Interner) -> (r: Result<Outcome, Error>)
        requires
            old(self).wf(),
            statement_numbers_wf(stmt),
            statement_names_below(stmt, names.names().len()),
        ensures
            final(self).wf(),
            r is Err ==> *final(self) == *old(self),
            statement_effect(*old(self), *final(self), names.names(), stmt, r),
    {
        match stmt {
            Statement::Expression(e) => match self.evaluate_expression(&e.0, names) {
                Ok(v) => Ok(Outcome::Value(v)),
                Err(err) => Err(err),
            },
            Statement::Assign { name, value } => match self.evaluate_expression(&value.0, names) {
                Ok(v) => {
                    let Spanned(id, _) = name;
                    self.insert(String::from_str(id.resolve(names)), v);
                    Ok(Outcome::Assigned)
                },
                Err(err) => Err(err),
            },
            Statement::SetPrecision(e) => match self.evaluate_expression(&e.0, names) {
                Ok(v) => {
                    let Value::Number(n) = &v;
                    proof {
                        lemma_rat_eq_zero(n.model(), eval(e.0, self.env(), names.names())->Ok_0);
                    }
                    if n.is_zero() {
                        return Err(Error::PrecisionZero(e.1));
                    }
                    let text = v.display(self.precision);
                    proof {
                        assert(displays_as(text@, *n, self.precision_spec()));
                    }
                    match precision_from_text(text.as_str(), e.1) {
                        Ok(p) => {
                            self.precision = Precision::Digits(p);
                            Ok(Outcome::PrecisionSet(p))
                        },
                        Err(err) => Err(err),
                    }
                },
                Err(err) => Err(err),
            },
            Statement::FullPrecision => {
                self.precision = Precision::Full;
                Ok(Outcome::FullPrecision)
            },
            Statement::Help => Ok(Outcome::Help),
            Statement::Exit => Ok(Outcome::Exit),
            Statement::Vars => Ok(Outcome::Vars(self.vars())),
        }
    }

    /// Binds `name` to `value`, replacing any earlier binding.
    pub fn insert(&mut self, name: String, value: Value)
        requires
            old(self).wf(),
            value.wf(),
        ensures
            final(self).wf(),
            final(self).env() == old(self).env().insert(name@, value.model()),
            final(self).precision_spec() == old(self).precision_spec(),
    {
        let ghost before = self.names@;
        let mut i: usize = 0;
        while i < self.names.len() && text_less(self.names[i].0.as_str(), name.as_str())
            invariant
                self.names@ == before,
                i <= self.names.len(),
                forall|j: int| 0 <= j < i ==> text_lt(#[trigger] self.names@[j].0@, name@),
            decreases self.names.len() - i,
        {
            i = i + 1;
        }
        if i < self.names.len() && text_equal(self.names[i].0.as_str(), name.as_str()) {
            let ghost v = value;
            self.names.set(i, (name, value));
            proof {
                assert forall|a: int, b: int| 0 <= a < b < self.names@.len() implies text_lt(
                    #[trigger] self.names@[a].0@,
                    #[trigger] self.names@[b].0@,
                ) by {
                    assert(text_lt(before[a].0@, before[b].0@));
                }
                lemma_env_update(before, self.names@, i as int, false);
            }
        } else {
            self.names.insert(i, (name, value));
            proof {
                let new = self.names@;
                let x = new[i as int].0@;
                if i < before.len() {
                    lemma_text_lt_total(before[i as int].0@, x);
                }
                assert forall|a: int, b: int| 0 <= a < b < new.len() implies text_lt(
                    #[trigger] new[a].0@,
                    #[trigger] new[b].0@,
                ) by {
                    if b < i {
                        assert(text_lt(before[a].0@, before[b].0@));
                    } else if b == i {
                        assert(text_lt(before[a].0@, x));
                    } else if a > i {
                        assert(text_lt(before[a - 1].0@, before[b - 1].0@));
                    } else if a == i {
                        if b - 1 > i {
                            assert(text_lt(before[i as int].0@, before[b - 1].0@));
                            lemma_text_lt_transitive(x, before[i as int].0@, before[b - 1].0@);
                        }
                    } else {
                        assert(text_lt(before[a].0@, x));
                        if b - 1 > i {
                            assert(text_lt(before[i as int].0@, before[b - 1].0@));
                            lemma_text_lt_transitive(x, before[i as int].0@, before[b - 1].0@);
                        }
                        lemma_text_lt_transitive(before[a].0@, x, before[b - 1].0@);
                    }
                }
                lemma_env_update(before, new, i as int, true);
            }
        }
    }
}

} // verus!
