use crate::span::Span;
use vstd::prelude::*;

verus! {

/// A diagnostic ready for rendering: a headline, labelled spans, notes and
/// a severity.
pub trait Diag {
    fn message(&self) -> String;

    fn spans(&self) -> Vec<ErrorSpan>;

    fn notes(&self) -> Vec<String>;

    fn kind(&self) -> Severity;
}

/// Why a precision's text is not a natural number that fits in `u64`.
#[derive(Clone, Copy, Debug, PartialEq, Eq, Structural)]
pub enum IntParseError {
    Empty,
    InvalidDigit,
    PosOverflow,
}

/// An error from any stage: lexing, parsing or evaluation.
#[derive(Clone, Debug)]
pub enum Error {
    ExpectedFound { expected: Vec<String>, found: Option<String>, span: Span },
    Custom { message: String, span: Span },
    UndefinedVariable { name: String, span: Span },
    DivisionByZero(Span),
    PrecisionZero(Span),
    InvalidPrecision { span: Span, err: IntParseError },
}

impl Error {
    /// The primary span of the error.
    pub open spec fn span_of(self) -> Span {
        match self {
            Error::ExpectedFound { span, .. } => span,
            Error::Custom { span, .. } => span,
            Error::UndefinedVariable { span, .. } => span,
            Error::DivisionByZero(span) => span,
            Error::PrecisionZero(span) => span,
            Error::InvalidPrecision { span, .. } => span,
        }
    }
}


/// How serious a diagnostic is. Every error of this library is an error.
#[derive(Clone, Copy, Debug, PartialEq, Eq, Structural)]
pub enum Severity {
    Error,
}

/// Whether a labelled span is the main location of a diagnostic.
#[derive(Clone, Copy, Debug, PartialEq, Eq, Structural)]
pub enum LabelStyle {
    Primary,
    Secondary,
}

/// A span of source text that a diagnostic points at, with an optional label.
#[derive(Debug)]
pub struct ErrorSpan {
    pub message: Option<String>,
    pub span: Span,
    pub label_style: LabelStyle,
}

impl ErrorSpan {
    pub fn primary(message: String, span: Span) -> (r: ErrorSpan)
        ensures
            r.message is Some && r.message->0@ == message@,
            r.span == span,
            r.label_style == LabelStyle::Primary,
    {
        ErrorSpan { message: Some(message), span, label_style: LabelStyle::Primary }
    }

    pub fn primary_span(span: Span) -> (r: ErrorSpan)
        ensures
            r.message is None,
            r.span == span,
            r.label_style == LabelStyle::Primary,
    {
        ErrorSpan { message: None, span, label_style: LabelStyle::Primary }
    }
}

/// Items separated by `, `.
pub open spec fn joined(items: Seq<Seq<char>>) -> Seq<char>
    decreases items.len(),
{
    if items.len() == 0 {
        seq![]
    } else if items.len() == 1 {
        items[0]
    } else {
        joined(items.drop_last()) + ", "@ + items.last()
    }
}

pub open spec fn found_text(found: Option<String>) -> Seq<char> {
    match found {
        Some(f) => f@,
        None => "end of file"@,
    }
}

impl IntParseError {
    pub open spec fn text(self) -> Seq<char> {
        match self {
            IntParseError::Empty => "cannot parse integer from empty string"@,
            IntParseError::InvalidDigit => "invalid digit found in string"@,
            IntParseError::PosOverflow => "number too large to fit in target type"@,
        }
    }

    /// Why the text is not a `u64`, in words.
    pub fn description(&self) -> (r: &'static str)
        ensures
            r@ == self.text(),
    {
        match self {
            IntParseError::Empty => "cannot parse integer from empty string",
            IntParseError::InvalidDigit => "invalid digit found in string",
            IntParseError::PosOverflow => "number too large to fit in target type",
        }
    }
}

fn join(items: &Vec<String>) -> (r: String)
    ensures
        r@ == joined(items@.map_values(|s: String| s@)),
{
    let ghost views = items@.map_values(|s: String| s@);
    let mut r = String::new();
    proof {
        reveal_strlit("");
    }
    let mut i: usize = 0;
    while i < items.len()
        invariant
            views == items@.map_values(|s: String| s@),
            i <= items.len(),
            r@ == joined(views.subrange(0, i as int)),
        decreases items.len() - i,
    {
        if i > 0 {
            r.append(", ");
        }
        r.append(items[i].as_str());
        i = i + 1;
        assert(views.subrange(0, i as int).drop_last() =~= views.subrange(0, i - 1));
        if i == 1 {
            assert(joined(views.subrange(0, 0)) =~= seq![]);
        }
    }
    assert(views.subrange(0, items.len() as int) =~= views);
    r
}

impl Error {
    /// The headline of the diagnostic.
    pub open spec fn message_spec(self) -> Seq<char> {
        match self {
            Error::ExpectedFound { expected, found, .. } => "Expected one of "@ + joined(
                expected@.map_values(|s: String| s@),
            ) + ", but found "@ + found_text(found),
            Error::Custom { message, .. } => message@,
            Error::UndefinedVariable { name, .. } => "Undefined variable `"@ + name@ + "`"@,
            Error::DivisionByZero(_) => "Division by zero"@,
            Error::PrecisionZero(_) => "Precision must be greater than zero"@,
            Error::InvalidPrecision { err, .. } => "Invalid precision: "@ + err.text(),
        }
    }

    pub fn message(&self) -> (r: String)
        ensures
            r@ == self.message_spec(),
    {
        match self {
            Error::ExpectedFound { expected, found, .. } => {
                let mut s = String::from_str("Expected one of ");
                s.append(join(expected).as_str());
                s.append(", but found ");
                match found {
                    Some(f) => s.append(f.as_str()),
                    None => s.append("end of file"),
                }
                s
            },
            Error::Custom { message, .. } => message.clone(),
            Error::UndefinedVariable { name, .. } => {
                let mut s = String::from_str("Undefined variable `");
                s.append(name.as_str());
                s.append("`");
                s
            },
            Error::DivisionByZero(_) => String::from_str("Division by zero"),
            Error::PrecisionZero(_) => String::from_str("Precision must be greater than zero"),
            Error::InvalidPrecision { err, .. } => {
                let mut s = String::from_str("Invalid precision: ");
                s.append(err.description());
                s
            },
        }
    }

    /// The labelled spans: exactly one, the primary one, at the error's span.
    pub fn spans(&self) -> (r: Vec<ErrorSpan>)
        ensures
            r.len() == 1,
            r[0].span == self.span_of(),
            r[0].label_style == LabelStyle::Primary,
            match self {
                Error::ExpectedFound { found, .. } => r[0].message is Some && r[0].message->0@
                    == "Found "@ + found_text(*found),
                Error::UndefinedVariable { .. } => r[0].message is Some && r[0].message->0@
                    == "This variable is undefined"@,
                Error::DivisionByZero(_) => r[0].message is Some && r[0].message->0@
                    == "This divisor is zero"@,
                _ => r[0].message is None,
            },
    {
        let label = match self {
            Error::ExpectedFound { found, span, .. } => {
                let mut s = String::from_str("Found ");
                match found {
                    Some(f) => s.append(f.as_str()),
                    None => s.append("end of file"),
                }
                ErrorSpan::primary(s, *span)
            },
            Error::Custom { span, .. } => ErrorSpan::primary_span(*span),
            Error::UndefinedVariable { span, .. } => ErrorSpan::primary(
                String::from_str("This variable is undefined"),
                *span,
            ),
            Error::DivisionByZero(span) => ErrorSpan::primary(
                String::from_str("This divisor is zero"),
                *span,
            ),
            Error::PrecisionZero(span) => ErrorSpan::primary_span(*span),
            Error::InvalidPrecision { span, .. } => ErrorSpan::primary_span(*span),
        };
        let mut v = Vec::new();
        v.push(label);
        v
    }

    /// Notes that explain how to recover.
    pub fn notes(&self) -> (r: Vec<String>)
        ensures
            match self {
                Error::UndefinedVariable { name, .. } => r.len() == 2 && r[0]@ == "Consider assigning a value to `"@
                    + name@ + "`:"@ && r[1]@ == name@ + " = <value>"@,
                Error::InvalidPrecision { .. } => r.len() == 1 && r[0]@
                    == "The precision must be a natural number"@,
                _ => r.len() == 0,
            },
    {
        match self {
            Error::UndefinedVariable { name, .. } => {
                let mut a = String::from_str("Consider assigning a value to `");
                a.append(name.as_str());
                a.append("`:");
                let mut b = name.clone();
                b.append(" = <value>");
                let mut v = Vec::new();
                v.push(a);
                v.push(b);
                v
            },
            Error::InvalidPrecision { .. } => {
                let mut v = Vec::new();
                v.push(String::from_str("The precision must be a natural number"));
                v
            },
            _ => Vec::new(),
        }
    }

    pub fn kind(&self) -> (r: Severity)
        ensures
            r == Severity::Error,
    {
        Severity::Error
    }
}

impl Diag for Error {
    fn message(&self) -> String {
        Error::message(self)
    }

    fn spans(&self) -> Vec<ErrorSpan> {
        Error::spans(self)
    }

    fn notes(&self) -> Vec<String> {
        Error::notes(self)
    }

    fn kind(&self) -> Severity {
        Error::kind(self)
    }
}

} // verus!
