use polar::ast::{BinaryOp, Expression, Statement, UnaryOp};
use polar::diagnostics::{Error, IntParseError, LabelStyle, Severity};
use polar::interner::Interner;
use polar::evaluator::{parse_natural, precision_from_text, Evaluator, Outcome, Precision, Value};
use polar::lexer::lexer;
use polar::parser::repl;
use polar::session::handle_input;
use polar::span::{File, FileId, Span};
use polar::token::{number_to_string, Kw, Punc, Radix, Simple, Token};

fn file() -> File {
    File::Repl(FileId::new(0))
}

fn span(start: usize, end: usize) -> Span {
    Span::new(file(), start, end)
}

/// A session: bindings and the names they use.
struct Session {
    ev: Evaluator,
    names: Interner,
}

impl Session {
    fn new() -> Session {
        Session { ev: Evaluator::new(), names: Interner::new() }
    }

    fn input(&mut self, line: &str) -> polar::session::LineReport {
        handle_input(&mut self.ev, &mut self.names, line, file())
    }

    fn options(&self) -> Precision {
        self.ev.options()
    }
}

/// Runs a line and returns the displayed value, or the first error.
fn run(ev: &mut Session, line: &str) -> Result<Option<String>, Error> {
    let report = ev.input(line);
    if let Some(e) = report.errors.into_iter().next() {
        return Err(e);
    }
    match report.outcome.unwrap() {
        Outcome::Value(v) => Ok(Some(v.display(ev.options()))),
        _ => Ok(None),
    }
}

fn value_of(line: &str) -> String {
    let mut ev = Session::new();
    run(&mut ev, line).unwrap().unwrap()
}

#[test]
fn precedence_multiplication_before_addition() {
    assert_eq!(value_of("2 + 3 * 4"), "14");
}

#[test]
fn parentheses_override_precedence() {
    assert_eq!(value_of("(2 + 3) * 4"), "20");
}

#[test]
fn double_negation() {
    assert_eq!(value_of("- - 5"), "5");
}

#[test]
fn division_by_zero_is_an_error() {
    let mut ev = Session::new();
    match run(&mut ev, "10 / 0") {
        Err(Error::DivisionByZero(sp)) => assert_eq!(sp, span(5, 6)),
        other => panic!("unexpected {:?}", other),
    }
}

#[test]
fn division_by_zero_difference_is_an_error() {
    let mut ev = Session::new();
    assert!(matches!(run(&mut ev, "1 / (2 - 2)"), Err(Error::DivisionByZero(_))));
}

#[test]
fn assignment_then_reference() {
    let mut ev = Session::new();
    assert_eq!(run(&mut ev, "x = 7").unwrap(), None);
    assert_eq!(run(&mut ev, "x * 2").unwrap(), Some("14".to_string()));
}

#[test]
fn undefined_variable_span_covers_the_name() {
    let mut ev = Session::new();
    match run(&mut ev, "y") {
        Err(Error::UndefinedVariable { name, span: sp }) => {
            assert_eq!(name, "y");
            assert_eq!(sp, span(0, 1));
        }
        other => panic!("unexpected {:?}", other),
    }
    match run(&mut ev, "1 + yy") {
        Err(Error::UndefinedVariable { name, span: sp }) => {
            assert_eq!(name, "yy");
            assert_eq!(sp, span(4, 6));
        }
        other => panic!("unexpected {:?}", other),
    }
}

#[test]
fn reassignment_replaces_the_value() {
    let mut ev = Session::new();
    run(&mut ev, "x = 1").unwrap();
    run(&mut ev, "x = x + 41").unwrap();
    assert_eq!(run(&mut ev, "x").unwrap(), Some("42".to_string()));
}

#[test]
fn precision_zero_is_an_error() {
    let mut ev = Session::new();
    match run(&mut ev, "precision 0") {
        Err(Error::PrecisionZero(sp)) => assert_eq!(sp, span(10, 11)),
        other => panic!("unexpected {:?}", other),
    }
    assert_eq!(ev.options(), Precision::Digits(16));
}

#[test]
fn precision_three_rounds_a_third() {
    let mut ev = Session::new();
    let report = ev.input("precision 3");
    assert!(matches!(report.outcome, Some(Outcome::PrecisionSet(3))));
    assert_eq!(run(&mut ev, "1/3").unwrap(), Some("0.333".to_string()));
}

#[test]
fn full_precision_shows_the_repeating_expansion() {
    let mut ev = Session::new();
    let report = ev.input("fullprecision");
    assert!(matches!(report.outcome, Some(Outcome::FullPrecision)));
    assert_eq!(ev.options(), Precision::Full);
    assert_eq!(run(&mut ev, "1/3").unwrap(), Some("0.(3)".to_string()));
    assert_eq!(run(&mut ev, "-1/6").unwrap(), Some("-0.1(6)".to_string()));
    assert_eq!(run(&mut ev, "22/7").unwrap(), Some("3.(142857)".to_string()));
    assert_eq!(run(&mut ev, "3/8").unwrap(), Some("0.375".to_string()));
}

#[test]
fn default_precision_shows_sixteen_digits() {
    assert_eq!(value_of("1/3"), "0.3333333333333333");
    assert_eq!(value_of("2/3"), "0.6666666666666667");
}

#[test]
fn invalid_precision_is_an_error() {
    let mut ev = Session::new();
    match run(&mut ev, "precision 5/2") {
        Err(Error::InvalidPrecision { span: sp, err }) => {
            assert_eq!(sp, span(10, 13));
            assert_eq!(err, IntParseError::InvalidDigit);
        }
        other => panic!("unexpected {:?}", other),
    }
    assert_eq!(ev.options(), Precision::Digits(16));
}

#[test]
fn vars_are_sorted_by_name() {
    let mut ev = Session::new();
    run(&mut ev, "beta = 2").unwrap();
    run(&mut ev, "alpha = 1/4").unwrap();
    run(&mut ev, "gamma = 3").unwrap();
    run(&mut ev, "a = 0").unwrap();
    let report = ev.input("vars");
    match report.outcome {
        Some(Outcome::Vars(lines)) => {
            let names: Vec<&str> = lines.iter().map(|l| l.name.as_str()).collect();
            assert_eq!(names, vec!["a", "alpha", "beta", "gamma"]);
            assert_eq!(lines[1].value, "0.25");
            assert_eq!(lines[1].exact, "1/4");
            assert_eq!(lines[2].exact, "2");
        }
        other => panic!("unexpected {:?}", other),
    }
}

#[test]
fn commands_parse_alone() {
    let mut ev = Session::new();
    assert!(matches!(ev.input("help").outcome, Some(Outcome::Help)));
    assert!(matches!(ev.input("exit").outcome, Some(Outcome::Exit)));
    let report = ev.input("help me");
    assert!(report.outcome.is_none());
    match &report.errors[0] {
        Error::ExpectedFound { found, span: sp, .. } => {
            assert_eq!(found.as_deref(), Some("me"));
            assert_eq!(*sp, span(5, 7));
        }
        other => panic!("unexpected {:?}", other),
    }
}

#[test]
fn radix_literals() {
    assert_eq!(value_of("0b101"), "5");
    assert_eq!(value_of("0o17"), "15");
    assert_eq!(value_of("0x1F"), "31");
    assert_eq!(value_of("0x1F.8"), "31.5");
    assert_eq!(value_of("0b0.1"), "0.5");
    assert_eq!(value_of("2.25"), "2.25");
}

#[test]
fn numeral_round_trips_through_text() {
    let cases = ["0x1F.8", "0b101.01", "0o777", "12.5", "0", "007.50"];
    for case in cases {
        let tokens = lexer(case, file()).unwrap();
        assert_eq!(tokens.len(), 1);
        let text = tokens[0].0.to_text();
        assert_eq!(text, case);
        let again = lexer(&text, file()).unwrap();
        assert_eq!(again[0].0, tokens[0].0);
        assert_eq!(value_of(&text), value_of(case));
    }
}

#[test]
fn number_to_string_renders_prefix_and_point() {
    assert_eq!(number_to_string("1F", Some("8"), Radix::Hexadecimal), "0x1F.8");
    assert_eq!(number_to_string("10", None, Radix::Binary), "0b10");
    assert_eq!(number_to_string("7", None, Radix::Octal), "0o7");
    assert_eq!(number_to_string("3", Some("14"), Radix::Decimal), "3.14");
    assert_eq!(Radix::Hexadecimal.to_u32(), 16);
    assert_eq!(Radix::Binary.to_u32(), 2);
}

#[test]
fn lexer_tokens_and_spans() {
    let tokens = lexer("x = (1 + y) // note", file()).unwrap();
    assert_eq!(tokens.len(), 3);
    assert_eq!(tokens[0].0, Token::Simple(Simple::Identifier("x".to_string())));
    assert_eq!(tokens[0].1, span(0, 1));
    assert_eq!(tokens[1].0, Token::Simple(Simple::Punc(Punc::Equals)));
    match &tokens[2].0 {
        Token::Parentheses(inner) => {
            assert_eq!(inner.len(), 3);
            assert_eq!(inner[2].1, span(9, 10));
        }
        other => panic!("unexpected {:?}", other),
    }
    assert_eq!(tokens[2].1, span(4, 11));
}

#[test]
fn keywords_take_priority_over_identifiers() {
    let tokens = lexer("precision fullprecision vars to total", file()).unwrap();
    assert_eq!(tokens[0].0, Token::Simple(Simple::Kw(Kw::Precision)));
    assert_eq!(tokens[1].0, Token::Simple(Simple::Kw(Kw::FullPrecision)));
    assert_eq!(tokens[2].0, Token::Simple(Simple::Kw(Kw::Vars)));
    assert_eq!(tokens[3].0, Token::Simple(Simple::Kw(Kw::To)));
    assert_eq!(tokens[4].0, Token::Simple(Simple::Identifier("total".to_string())));
}

#[test]
fn empty_input_lexes_to_nothing() {
    assert_eq!(lexer("", file()).unwrap().len(), 0);
    assert_eq!(lexer("  // only a comment", file()).unwrap().len(), 0);
}

#[test]
fn empty_input_fails_to_parse_at_offset_zero() {
    let mut ev = Session::new();
    match run(&mut ev, "") {
        Err(Error::ExpectedFound { found, span: sp, .. }) => {
            assert_eq!(found, None);
            assert_eq!(sp, span(0, 0));
        }
        other => panic!("unexpected {:?}", other),
    }
}

#[test]
fn bad_digit_for_radix_is_a_lex_error() {
    match lexer("0b2", file()) {
        Err(Error::ExpectedFound { found, span: sp, .. }) => {
            assert_eq!(found.as_deref(), Some("2"));
            assert_eq!(sp, span(2, 3));
        }
        other => panic!("unexpected {:?}", other),
    }
}

#[test]
fn unbalanced_delimiters_are_lex_errors() {
    match lexer("(1 + 2", file()) {
        Err(Error::ExpectedFound { found, span: sp, .. }) => {
            assert_eq!(found, None);
            assert_eq!(sp, span(6, 6));
        }
        other => panic!("unexpected {:?}", other),
    }
    match lexer("1)", file()) {
        Err(Error::ExpectedFound { found, span: sp, .. }) => {
            assert_eq!(found.as_deref(), Some(")"));
            assert_eq!(sp, span(1, 2));
        }
        other => panic!("unexpected {:?}", other),
    }
    assert!(lexer("(1}", file()).is_err());
    assert!(lexer("{1}", file()).is_ok());
}

#[test]
fn unexpected_character_is_a_lex_error() {
    let e = lexer("1 $ 2", file()).unwrap_err();
    assert_eq!(e.message(), "Expected one of identifier, number, operator, '(', '{', but found $");
    let spans = e.spans();
    assert_eq!(spans.len(), 1);
    assert_eq!(spans[0].span, span(2, 3));
    assert_eq!(spans[0].message.as_deref(), Some("Found $"));
    assert_eq!(spans[0].label_style, LabelStyle::Primary);
    assert_eq!(e.kind(), Severity::Error);
    assert!(e.notes().is_empty());
}

#[test]
fn trailing_tokens_in_parentheses_are_a_parse_error() {
    let mut ev = Session::new();
    match run(&mut ev, "(1 2)") {
        Err(Error::ExpectedFound { found, span: sp, .. }) => {
            assert_eq!(found.as_deref(), Some("2"));
            assert_eq!(sp, span(3, 4));
        }
        other => panic!("unexpected {:?}", other),
    }
}

#[test]
fn missing_operand_points_at_end_of_input() {
    let mut ev = Session::new();
    match run(&mut ev, "1 +") {
        Err(Error::ExpectedFound { found, span: sp, .. }) => {
            assert_eq!(found, None);
            assert_eq!(sp, span(3, 3));
        }
        other => panic!("unexpected {:?}", other),
    }
}

#[test]
fn invalid_digit_in_a_hand_built_token_is_a_custom_error() {
    let tokens = vec![(
        Token::Simple(Simple::Number { before: "2".to_string(), after: None, radix: Radix::Binary }),
        span(0, 1),
    )];
    match repl(&tokens, span(1, 1), &mut Interner::new()) {
        Err(Error::Custom { span: sp, .. }) => assert_eq!(sp, span(0, 1)),
        other => panic!("unexpected {:?}", other),
    }
}

fn check_spans(e: &Expression, sp: Span) {
    match e {
        Expression::Number(_) => {}
        Expression::Variable(id) => assert_eq!(id.1, sp),
        Expression::BinaryOp { lhs, rhs, .. } => {
            let inner = lhs.1.union(rhs.1);
            // a parenthesized node takes the span of its parentheses
            assert!(sp == inner || (sp.start < inner.start && inner.end < sp.end));
            check_spans(&lhs.0, lhs.1);
            check_spans(&rhs.0, rhs.1);
        }
        Expression::UnaryOp { op, expr } => {
            let inner = op.1.union(expr.1);
            assert!(sp == inner || (sp.start < inner.start && inner.end < sp.end));
            check_spans(&expr.0, expr.1);
        }
    }
}

#[test]
fn root_span_is_union_of_children() {
    let tokens = lexer("1 + 2 * -x / (3 - 4)", file()).unwrap();
    let eoi = tokens.last().unwrap().1.to_end();
    match repl(&tokens, eoi, &mut Interner::new()).unwrap() {
        Statement::Expression(e) => {
            assert_eq!(e.1, span(0, 20));
            check_spans(&e.0, e.1);
        }
        other => panic!("unexpected {:?}", other),
    }
}

#[test]
fn operators_fold_left() {
    assert_eq!(value_of("8 / 4 / 2"), "1");
    assert_eq!(value_of("10 - 3 - 2"), "5");
}

#[test]
fn undefined_variable_diagnostic() {
    let e = Error::UndefinedVariable { name: "y".to_string(), span: span(0, 1) };
    assert_eq!(e.message(), "Undefined variable `y`");
    assert_eq!(e.notes(), vec!["Consider assigning a value to `y`:".to_string(), "y = <value>".to_string()]);
    assert_eq!(e.spans()[0].message.as_deref(), Some("This variable is undefined"));
}

#[test]
fn precision_diagnostics() {
    let e = Error::PrecisionZero(span(0, 1));
    assert_eq!(e.message(), "Precision must be greater than zero");
    assert!(e.spans()[0].message.is_none());
    let e = Error::InvalidPrecision { span: span(0, 1), err: IntParseError::InvalidDigit };
    assert_eq!(e.message(), "Invalid precision: invalid digit found in string");
    assert_eq!(e.notes(), vec!["The precision must be a natural number".to_string()]);
}

#[test]
fn natural_numbers_parse_like_u64() {
    assert_eq!(parse_natural("12"), Ok(12));
    assert_eq!(parse_natural("+12"), Ok(12));
    assert_eq!(parse_natural(""), Err(IntParseError::Empty));
    assert_eq!(parse_natural("+"), Err(IntParseError::InvalidDigit));
    assert_eq!(parse_natural("-1"), Err(IntParseError::InvalidDigit));
    assert_eq!(parse_natural("18446744073709551615"), Ok(u64::MAX));
    assert_eq!(parse_natural("18446744073709551616"), Err(IntParseError::PosOverflow));
    assert!(matches!(precision_from_text("0", span(0, 1)), Err(Error::PrecisionZero(_))));
    assert_eq!(precision_from_text("7", span(0, 1)).unwrap(), 7);
}

#[test]
fn exact_arithmetic_on_fractions() {
    assert_eq!(value_of("1/3 + 1/6"), "0.5");
    assert_eq!(value_of("1/3 - 1/2"), "-0.1666666666666667");
    assert_eq!(value_of("2/3 * 3/4"), "0.5");
    assert_eq!(value_of("(1/3) / (2/9)"), "1.5");
    assert_eq!(value_of("0.1 + 0.2"), "0.3");
}

#[test]
fn value_display_and_fraction() {
    let mut ev = Session::new();
    run(&mut ev, "q = -7/4").unwrap();
    let report = ev.input("vars");
    match report.outcome {
        Some(Outcome::Vars(lines)) => {
            assert_eq!(lines[0].value, "-1.75");
            assert_eq!(lines[0].exact, "-7/4");
        }
        other => panic!("unexpected {:?}", other),
    }
    match ev.input("q").outcome {
        Some(Outcome::Value(Value::Number(n))) => assert!(n.negative),
        other => panic!("unexpected {:?}", other),
    }
}

#[test]
fn errors_leave_the_session_unchanged() {
    let mut ev = Session::new();
    run(&mut ev, "x = 1").unwrap();
    assert!(run(&mut ev, "x = 1 / 0").is_err());
    assert_eq!(run(&mut ev, "x").unwrap(), Some("1".to_string()));
}

#[test]
fn span_helpers() {
    let a = span(2, 5);
    let b = span(7, 9);
    assert_eq!(a.union(b), span(2, 9));
    assert_eq!(b.union(a), span(2, 9));
    assert_eq!(a.to_end(), span(5, 5));
    assert_eq!(a.range(), 2..5);
    assert_eq!(Span::zero(file()), span(0, 0));
    assert_eq!(file().id(), FileId::new(0));
    let s = polar::span::Spanned::new(3u32, a);
    let m = s.map(|x| x * 2);
    assert_eq!(m.0, 6);
    assert_eq!(m.1, a);
    assert_eq!(*s.boxed().0, 3);
}

#[test]
fn operator_symbols() {
    assert_eq!(BinaryOp::Add.symbol(), "+");
    assert_eq!(BinaryOp::Sub.symbol(), "-");
    assert_eq!(BinaryOp::Mul.symbol(), "*");
    assert_eq!(BinaryOp::Div.symbol(), "/");
    assert_eq!(UnaryOp::Neg.symbol(), "-");
    assert_eq!(Kw::FullPrecision.text(), "fullprecision");
    assert_eq!(Punc::Slash.text(), "/");
}

#[test]
fn group_tokens_display_as_ellipses() {
    let tokens = lexer("(1) {2}", file()).unwrap();
    assert_eq!(tokens[0].0.to_text(), "(...)");
    assert_eq!(tokens[1].0.to_text(), "{...}");
}

#[test]
fn interner_keeps_one_key_per_name() {
    let mut names = Interner::new();
    let a = names.intern("alpha");
    let b = names.intern("beta");
    assert_ne!(a, b);
    assert_eq!(names.intern("alpha"), a);
    assert_eq!(names.len(), 2);
    assert_eq!(names.resolve(b), "beta");
}

#[test]
fn identifiers_compare_by_interned_key() {
    let mut names = Interner::new();
    let tokens = lexer("x = x + y", file()).unwrap();
    let eoi = tokens.last().unwrap().1.to_end();
    match repl(&tokens, eoi, &mut names).unwrap() {
        Statement::Assign { name, value } => match value.0 {
            Expression::BinaryOp { lhs, rhs, .. } => {
                match (*lhs.0, *rhs.0) {
                    (Expression::Variable(x), Expression::Variable(y)) => {
                        assert_eq!(x.0, name.0);
                        assert_ne!(y.0, name.0);
                        assert_eq!(x.0.resolve(&names), "x");
                        assert_eq!(y.0.resolve(&names), "y");
                    }
                    other => panic!("unexpected {:?}", other),
                }
            }
            other => panic!("unexpected {:?}", other),
        },
        other => panic!("unexpected {:?}", other),
    }
}

/// Renders a parsed expression with the span of every node and operator.
fn tree(e: &Expression, sp: Span, names: &Interner) -> String {
    let at = format!("@{}..{}", sp.start, sp.end);
    match e {
        Expression::Number(_) => format!("N{at}"),
        Expression::Variable(id) => format!("{}{at}", id.0.resolve(names)),
        Expression::BinaryOp { op, lhs, rhs } => format!(
            "({} {}@{}..{} {}){at}",
            tree(&lhs.0, lhs.1, names),
            op.0.symbol(),
            op.1.start,
            op.1.end,
            tree(&rhs.0, rhs.1, names)
        ),
        Expression::UnaryOp { op, expr } => {
            format!("(-@{}..{} {}){at}", op.1.start, op.1.end, tree(&expr.0, expr.1, names))
        }
    }
}

fn parse_line(line: &str) -> (Result<Statement, Error>, Interner) {
    let tokens = lexer(line, file()).unwrap();
    let eoi = tokens.last().map_or(Span::zero(file()), |t| t.1.to_end());
    let mut names = Interner::new();
    let r = repl(&tokens, eoi, &mut names);
    (r, names)
}

fn expression_tree(line: &str) -> String {
    match parse_line(line) {
        (Ok(Statement::Expression(e)), names) => tree(&e.0, e.1, &names),
        (other, _) => panic!("unexpected {:?}", other),
    }
}

#[test]
fn span_tree_of_precedence() {
    assert_eq!(expression_tree("2 + 3 * 4"), "(N@0..1 +@2..3 (N@4..5 *@6..7 N@8..9)@4..9)@0..9");
}

#[test]
fn span_tree_of_parentheses() {
    assert_eq!(
        expression_tree("(2 + 3) * 4"),
        "((N@1..2 +@3..4 N@5..6)@0..7 *@8..9 N@10..11)@0..11"
    );
}

#[test]
fn span_tree_of_negations() {
    assert_eq!(expression_tree("- - 5"), "(-@0..1 (-@2..3 N@4..5)@2..5)@0..5");
    assert_eq!(expression_tree("1 - -x"), "(N@0..1 -@2..3 (-@4..5 x@5..6)@4..6)@0..6");
}

#[test]
fn span_tree_folds_left() {
    assert_eq!(expression_tree("8 / 4 / 2"), "((N@0..1 /@2..3 N@4..5)@0..5 /@6..7 N@8..9)@0..9");
}

#[test]
fn statements_with_spans() {
    match parse_line("x = 1 + 2") {
        (Ok(Statement::Assign { name, value }), names) => {
            assert_eq!(name.1, span(0, 1));
            assert_eq!(name.0.resolve(&names), "x");
            assert_eq!(tree(&value.0, value.1, &names), "(N@4..5 +@6..7 N@8..9)@4..9");
        }
        other => panic!("unexpected {:?}", other.0),
    }
    match parse_line("precision 3") {
        (Ok(Statement::SetPrecision(e)), names) => assert_eq!(tree(&e.0, e.1, &names), "N@10..11"),
        other => panic!("unexpected {:?}", other.0),
    }
    assert!(matches!(parse_line("fullprecision").0, Ok(Statement::FullPrecision)));
    assert!(matches!(parse_line("vars").0, Ok(Statement::Vars)));
    assert!(matches!(parse_line("help").0, Ok(Statement::Help)));
    assert!(matches!(parse_line("exit").0, Ok(Statement::Exit)));
}

#[test]
fn running_out_of_tokens_points_at_end_of_input() {
    match parse_line("2 +").0 {
        Err(Error::ExpectedFound { found, span: sp, .. }) => {
            assert_eq!(found, None);
            assert_eq!(sp, span(3, 3));
        }
        other => panic!("unexpected {:?}", other),
    }
}

#[test]
fn precision_too_large_to_display_is_refused() {
    let mut ev = Session::new();
    run(&mut ev, "fullprecision").unwrap();
    match run(&mut ev, "precision 10000000000000000000") {
        Err(Error::InvalidPrecision { err, .. }) => assert_eq!(err, IntParseError::PosOverflow),
        other => panic!("unexpected {:?}", other),
    }
    assert_eq!(ev.options(), Precision::Full);
    assert_eq!(run(&mut ev, "1/4").unwrap(), Some("0.25".to_string()));
}

#[test]
fn negative_precision_is_invalid() {
    let mut ev = Session::new();
    match run(&mut ev, "precision -2") {
        Err(Error::InvalidPrecision { err, .. }) => assert_eq!(err, IntParseError::InvalidDigit),
        other => panic!("unexpected {:?}", other),
    }
}

#[test]
fn spans_count_bytes() {
    let tokens = lexer("\u{e9}t\u{e9}", file());
    assert!(tokens.is_err());
    match tokens {
        Err(Error::ExpectedFound { span: sp, .. }) => assert_eq!(sp, span(0, 2)),
        other => panic!("unexpected {:?}", other),
    }
    match lexer("x // caf\u{e9}\ny + 1", file()) {
        Ok(ts) => {
            assert_eq!(ts.len(), 4);
            assert_eq!(ts[1].1, span(11, 12));
            assert_eq!(ts[3].1, span(15, 16));
        }
        other => panic!("unexpected {:?}", other),
    }
    match lexer("(x) // \u{e9}\n$", file()) {
        Err(Error::ExpectedFound { span: sp, .. }) => assert_eq!(sp, span(10, 11)),
        other => panic!("unexpected {:?}", other),
    }
}
