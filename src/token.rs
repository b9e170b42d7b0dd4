use crate::span::Span;
use vstd::prelude::*;

verus! {

/// One lexed token: a simple token, or a bracket group whose interior has
/// itself been tokenized.
#[derive(Debug, PartialEq, Eq)]
pub enum Token {
    Simple(Simple),
    Parentheses(Vec<(Token, Span)>),
    CurlyBraces(Vec<(Token, Span)>),
}

#[derive(Clone, Debug, Hash, PartialEq, Eq, PartialOrd, Ord)]
pub enum Simple {
    Identifier(String),
    /// A numeral kept as its digit text: the digits before the point, the
    /// digits after it (if there is a point), and the radix they are written in.
    Number { before: String, after: Option<String>, radix: Radix },
    Kw(Kw),
    Punc(Punc),
}

#[derive(Clone, Copy, Debug, Hash, PartialEq, Eq, Structural, PartialOrd, Ord)]
pub enum Radix {
    Binary,
    Octal,
    Decimal,
    Hexadecimal,
}

#[derive(Clone, Copy, Debug, Hash, PartialEq, Eq, Structural, PartialOrd, Ord)]
pub enum Kw {
    To,
    Precision,
    FullPrecision,
    Help,
    Exit,
    Vars,
}

#[derive(Clone, Copy, Debug, Hash, PartialEq, Eq, Structural, PartialOrd, Ord)]
pub enum Punc {
    Plus,
    Minus,
    Star,
    Slash,
    Equals,
}

pub open spec fn radix_base(r: Radix) -> nat {
    match r {
        Radix::Binary => 2,
        Radix::Octal => 8,
        Radix::Decimal => 10,
        Radix::Hexadecimal => 16,
    }
}

/// The prefix that introduces a numeral of the radix.
pub open spec fn radix_prefix(r: Radix) -> Seq<char> {
    match r {
        Radix::Binary => seq!['0', 'b'],
        Radix::Octal => seq!['0', 'o'],
        Radix::Decimal => seq![],
        Radix::Hexadecimal => seq!['0', 'x'],
    }
}

/// The value of `c` as a digit, for `0-9`, `a-z` and `A-Z`.
pub open spec fn digit_value(c: char) -> nat {
    if '0' <= c && c <= '9' {
        (c as nat - '0' as nat) as nat
    } else if 'a' <= c && c <= 'z' {
        (c as nat - 'a' as nat + 10) as nat
    } else if 'A' <= c && c <= 'Z' {
        (c as nat - 'A' as nat + 10) as nat
    } else {
        36
    }
}

pub open spec fn is_digit_of(c: char, r: Radix) -> bool {
    digit_value(c) < radix_base(r)
}

pub open spec fn all_digits_of(s: Seq<char>, r: Radix) -> bool {
    forall|i: int| 0 <= i < s.len() ==> is_digit_of(#[trigger] s[i], r)
}

/// The natural number that the digit string `s` denotes in radix `r`,
/// most significant digit first.
pub open spec fn digits_value(s: Seq<char>, r: Radix) -> nat
    decreases s.len(),
{
    if s.len() == 0 {
        0
    } else {
        digits_value(s.drop_last(), r) * radix_base(r) + digit_value(s.last())
    }
}

/// The exact value of a numeral as a fraction `(numerator, denominator)`:
/// `before.after` in radix `r` is `(before * r^k + after) / r^k` with `k`
/// fractional digits.
pub open spec fn numeral_value(before: Seq<char>, after: Seq<char>, r: Radix) -> (int, int) {
    let scale = vstd::arithmetic::power::pow(radix_base(r) as int, after.len() as nat);
    (digits_value(before, r) * scale + digits_value(after, r), scale)
}

/// The source text of a numeral: radix prefix, integer digits and, if
/// present, a point followed by the fractional digits.
pub open spec fn numeral_text(before: Seq<char>, after: Option<Seq<char>>, r: Radix) -> Seq<char> {
    radix_prefix(r) + before + match after {
        Some(a) => seq!['.'] + a,
        None => seq![],
    }
}

pub open spec fn kw_text(k: Kw) -> Seq<char> {
    match k {
        Kw::To => seq!['t', 'o'],
        Kw::Precision => seq!['p', 'r', 'e', 'c', 'i', 's', 'i', 'o', 'n'],
        Kw::FullPrecision => seq![
            'f', 'u', 'l', 'l', 'p', 'r', 'e', 'c', 'i', 's', 'i', 'o', 'n'
        ],
        Kw::Help => seq!['h', 'e', 'l', 'p'],
        Kw::Exit => seq!['e', 'x', 'i', 't'],
        Kw::Vars => seq!['v', 'a', 'r', 's'],
    }
}

pub open spec fn punc_char(p: Punc) -> char {
    match p {
        Punc::Plus => '+',
        Punc::Minus => '-',
        Punc::Star => '*',
        Punc::Slash => '/',
        Punc::Equals => '=',
    }
}

impl Radix {
    pub fn to_u32(self) -> (r: u32)
        ensures
            r as nat == radix_base(self),
    {
        match self {
            Radix::Binary => 2,
            Radix::Octal => 8,
            Radix::Decimal => 10,
            Radix::Hexadecimal => 16,
        }
    }

    /// The prefix written before a numeral of this radix.
    pub fn prefix(self) -> (r: &'static str)
        ensures
            r@ == radix_prefix(self),
    {
        proof {
            reveal_strlit("0b");
            reveal_strlit("0o");
            reveal_strlit("");
            reveal_strlit("0x");
        }
        match self {
            Radix::Binary => "0b",
            Radix::Octal => "0o",
            Radix::Decimal => "",
            Radix::Hexadecimal => "0x",
        }
    }
}

impl Kw {
    pub fn text(self) -> (r: &'static str)
        ensures
            r@ == kw_text(self),
    {
        proof {
            reveal_strlit("to");
            reveal_strlit("precision");
            reveal_strlit("fullprecision");
            reveal_strlit("help");
            reveal_strlit("exit");
            reveal_strlit("vars");
        }
        match self {
            Kw::To => "to",
            Kw::Precision => "precision",
            Kw::FullPrecision => "fullprecision",
            Kw::Help => "help",
            Kw::Exit => "exit",
            Kw::Vars => "vars",
        }
    }
}

impl Punc {
    pub fn text(self) -> (r: &'static str)
        ensures
            r@ == seq![punc_char(self)],
    {
        proof {
            reveal_strlit("+");
            reveal_strlit("-");
            reveal_strlit("*");
            reveal_strlit("/");
            reveal_strlit("=");
        }
        match self {
            Punc::Plus => "+",
            Punc::Minus => "-",
            Punc::Star => "*",
            Punc::Slash => "/",
            Punc::Equals => "=",
        }
    }
}

/// Renders a numeral back to source text.
pub fn number_to_string(before: &str, after: Option<&str>, radix: Radix) -> (r: String)
    ensures
        r@ == numeral_text(
            before@,
            match after {
                Some(a) => Some(a@),
                None => None,
            },
            radix,
        ),
{
    let s = String::from_str(radix.prefix());
    let s = s.concat(before);
    match after {
        Some(a) => {
            let s = s.concat(".");
            proof {
                reveal_strlit(".");
            }
            let r = s.concat(a);
            assert(r@ =~= numeral_text(before@, Some(a@), radix));
            r
        },
        None => {
            assert(s@ =~= numeral_text(before@, None, radix));
            s
        },
    }
}

impl Simple {
    /// The source text that this token stands for.
    pub fn to_text(&self) -> (r: String)
        ensures
            self is Identifier ==> r@ == self->Identifier_0@,
            self is Kw ==> r@ == kw_text(self->Kw_0),
            self is Punc ==> r@ == seq![punc_char(self->Punc_0)],
            self is Number ==> r@ == numeral_text(
                self->before@,
                match self->after {
                    Some(a) => Some(a@),
                    None => None,
                },
                self->radix,
            ),
    {
        match self {
            Simple::Identifier(name) => name.clone(),
            Simple::Number { before, after, radix } => {
                match after {
                    Some(a) => number_to_string(before.as_str(), Some(a.as_str()), *radix),
                    None => number_to_string(before.as_str(), None, *radix),
                }
            },
            Simple::Kw(kw) => String::from_str(kw.text()),
            Simple::Punc(p) => String::from_str(p.text()),
        }
    }
}

impl Token {
    /// A short description of the token: its text, or `(...)` / `{...}`
    /// for a group.
    pub fn to_text(&self) -> (r: String)
        ensures
            self is Simple ==> r@ == self->Simple_0.to_text_spec(),
            self is Parentheses ==> r@ == seq!['(', '.', '.', '.', ')'],
            self is CurlyBraces ==> r@ == seq!['{', '.', '.', '.', '}'],
    {
        proof {
            reveal_strlit("(...)");
            reveal_strlit("{...}");
        }
        match self {
            Token::Simple(s) => s.to_text(),
            Token::Parentheses(_) => String::from_str("(...)"),
            Token::CurlyBraces(_) => String::from_str("{...}"),
        }
    }
}

impl Simple {
    pub open spec fn to_text_spec(&self) -> Seq<char> {
        match self {
            Simple::Identifier(name) => name@,
            Simple::Number { before, after, radix } => numeral_text(
                before@,
                match after {
                    Some(a) => Some(a@),
                    None => None,
                },
                *radix,
            ),
            Simple::Kw(k) => kw_text(*k),
            Simple::Punc(p) => seq![punc_char(*p)],
        }
    }
}

} // verus!
