use crate::ast::Statement;
use crate::diagnostics::Error;
use crate::evaluator::{statement_effect, Evaluator, Outcome};
use crate::interner::Interner;
use crate::lexer::{char_lexed, error_at_byte, in_bytes, lexable, lexer};
use crate::parser::{failed_as, idents, p_statement, repl, statement_shaped, NAME_LIMIT};
use crate::span::{File, Span};
use crate::token::Token;
use vstd::prelude::*;

verus! {

/// What one line of input produced: the outcome of its statement, if it
/// was evaluated without error, and every error met on the way.
#[derive(Debug)]
pub struct LineReport {
    pub outcome: Option<Outcome>,
    pub errors: Vec<Error>,
}

impl LineReport {
    /// The report as the result of evaluating the line's statement.
    pub open spec fn result(self) -> Result<Outcome, Error> {
        match self.outcome {
            Some(o) => Ok(o),
            None => Err(self.errors[0]),
        }
    }
}

/// `ts` are the tokens that the lexer gives for the text: the tokens that
/// reproduce it, with their spans counted in bytes.
pub open spec fn lexed(text: Seq<char>, file: File, ts: Seq<(Token, Span)>) -> bool {
    exists|cs: Seq<(Token, Span)>| #[trigger] char_lexed(text, file, cs) && in_bytes(text, ts, cs)
}

/// The empty span just past the last token, or at offset 0.
pub open spec fn end_of_input(ts: Seq<(Token, Span)>, file: File) -> Span {
    if ts.len() == 0 {
        Span { start: 0, end: 0, file_id: file }
    } else {
        Span { start: ts.last().1.end, end: ts.last().1.end, file_id: file }
    }
}

/// What a line with the tokens `ts` does: too many new names, or tokens that
/// form no statement, give one error and change nothing; a statement is
/// evaluated, and the report carries its result.
pub open spec fn line_effect(
    ts: Seq<(Token, Span)>,
    file: File,
    before: Evaluator,
    after: Evaluator,
    names_before: Interner,
    names_after: Interner,
    r: LineReport,
) -> bool {
    if names_before.names().len() + idents(ts) >= NAME_LIMIT {
        r.errors.len() == 1 && after == before
    } else {
        match p_statement(ts, end_of_input(ts, file)) {
            Err(f) => r.errors.len() == 1 && failed_as(r.errors[0], f) && after == before,
            Ok(ss) => exists|stmt: Statement|
                #[trigger] statement_shaped(stmt, ss, names_after.names()) && statement_effect(
                    before,
                    after,
                    names_after.names(),
                    stmt,
                    r.result(),
                ),
        }
    }
}

/// Lexes, parses and evaluates one line against the session. A line that
/// fails to lex or parse is not evaluated; a line with any error leaves the
/// session as it was.
pub fn handle_input(evaluator: &mut Evaluator, names: &mut Interner, text: &str, file: File) -> (r:
    LineReport)
    requires
        old(evaluator).wf(),
        text@.len() < usize::MAX / 4,
    ensures
        final(evaluator).wf(),
        r.outcome is Some <==> r.errors.len() == 0,
        r.errors.len() <= 1,
        r.errors.len() == 1 ==> *final(evaluator) == *old(evaluator),
        match lexable(text@, 0, None) {
            Err(p) => {
                &&& r.errors.len() == 1
                &&& r.errors[0] is ExpectedFound
                &&& error_at_byte(r.errors[0], text@, p)
                &&& *final(names) == *old(names)
            },
            Ok(_) => true,
        },
        lexable(text@, 0, None) is Ok ==> exists|ts: Seq<(Token, Span)>|
            #[trigger] lexed(text@, file, ts) && line_effect(
                ts,
                file,
                *old(evaluator),
                *final(evaluator),
                *old(names),
                *final(names),
                r,
            ),
{
    let tokens = match lexer(text, file) {
        Ok(ts) => ts,
        Err(e) => {
            let mut errors = Vec::new();
            errors.push(e);
            return LineReport { outcome: None, errors };
        },
    };
    assert(lexed(text@, file, tokens@));
    let eoi = if tokens.len() == 0 {
        Span::zero(file)
    } else {
        tokens[tokens.len() - 1].1.to_end()
    };
    assert(eoi == end_of_input(tokens@, file));
    let stmt = match repl(&tokens, eoi, names) {
        Ok(s) => s,
        Err(e) => {
            let mut errors = Vec::new();
            errors.push(e);
            let r = LineReport { outcome: None, errors };
            assert(line_effect(tokens@, file, *old(evaluator), *evaluator, *old(names), *names, r));
            return r;
        },
    };
    let ghost st = stmt;
    let result = evaluator.evaluate_statement(stmt, names);
    let r = match result {
        Ok(o) => LineReport { outcome: Some(o), errors: Vec::new() },
        Err(e) => {
            let mut errors = Vec::new();
            errors.push(e);
            LineReport { outcome: None, errors }
        },
    };
    assert(r.result() == result);
    assert(statement_shaped(st, match p_statement(tokens@, eoi) {
        Ok(ss) => ss,
        Err(_) => crate::parser::StatementShape::Help,
    }, names.names()));
    assert(line_effect(tokens@, file, *old(evaluator), *evaluator, *old(names), *names, r));
    r
}

} // verus!
