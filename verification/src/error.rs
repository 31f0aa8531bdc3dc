use vstd::prelude::*;
use crate::text::{dec_chars, push_decimal, push_str};

verus! {

/// All possible errors from grammar parsing and evaluation.
#[derive(Debug)]
pub enum GrammarError {
    /// Syntax error during GBNF parsing
    ParseError(String),
    /// A rule was referenced but never defined
    UndefinedRule(String),
    /// Left recursion detected in grammar
    LeftRecursion(usize),
    /// Grammar has no root rule
    NoRootRule,
    /// Grammar is empty (no rules)
    EmptyGrammar,
    /// Invalid state during grammar evaluation
    InvalidState(String),
    /// Start rule index out of bounds
    InvalidStartRule(usize),
}

/// The mathematical content of a `GrammarError`: its variant and its text or number.
pub enum ErrorView {
    ParseError(Seq<char>),
    UndefinedRule(Seq<char>),
    LeftRecursion(usize),
    NoRootRule,
    EmptyGrammar,
    InvalidState(Seq<char>),
    InvalidStartRule(usize),
}

impl View for GrammarError {
    type V = ErrorView;

    open spec fn view(&self) -> ErrorView {
        match self {
            GrammarError::ParseError(m) => ErrorView::ParseError(m@),
            GrammarError::UndefinedRule(m) => ErrorView::UndefinedRule(m@),
            GrammarError::LeftRecursion(i) => ErrorView::LeftRecursion(*i),
            GrammarError::NoRootRule => ErrorView::NoRootRule,
            GrammarError::EmptyGrammar => ErrorView::EmptyGrammar,
            GrammarError::InvalidState(m) => ErrorView::InvalidState(m@),
            GrammarError::InvalidStartRule(i) => ErrorView::InvalidStartRule(*i),
        }
    }
}

impl Clone for GrammarError {
    fn clone(&self) -> (r: Self)
        ensures
            r@ == self@,
    {
        match self {
            GrammarError::ParseError(m) => GrammarError::ParseError(m.clone()),
            GrammarError::UndefinedRule(m) => GrammarError::UndefinedRule(m.clone()),
            GrammarError::LeftRecursion(i) => GrammarError::LeftRecursion(*i),
            GrammarError::NoRootRule => GrammarError::NoRootRule,
            GrammarError::EmptyGrammar => GrammarError::EmptyGrammar,
            GrammarError::InvalidState(m) => GrammarError::InvalidState(m.clone()),
            GrammarError::InvalidStartRule(i) => GrammarError::InvalidStartRule(*i),
        }
    }
}

impl ErrorView {
    /// The human-readable description of an error.
    pub open spec fn message(self) -> Seq<char> {
        match self {
            ErrorView::ParseError(m) => "parse error: "@ + m,
            ErrorView::UndefinedRule(n) => "undefined rule: '"@ + n + "'"@,
            ErrorView::LeftRecursion(i) => "left recursion detected at rule index "@ + dec_chars(
                i as nat,
            ),
            ErrorView::NoRootRule => "grammar does not contain a 'root' rule"@,
            ErrorView::EmptyGrammar => "grammar is empty"@,
            ErrorView::InvalidState(m) => "invalid state: "@ + m,
            ErrorView::InvalidStartRule(i) => "start rule index "@ + dec_chars(i as nat)
                + " out of bounds"@,
        }
    }
}

impl GrammarError {
    /// The human-readable description of this error.
    pub fn to_string(&self) -> (s: String)
        ensures
            s@ == self@.message(),
    {
        let mut s = String::new();
        match self {
            GrammarError::ParseError(m) => {
                push_str(&mut s, "parse error: ");
                push_str(&mut s, m.as_str());
            },
            GrammarError::UndefinedRule(n) => {
                push_str(&mut s, "undefined rule: '");
                push_str(&mut s, n.as_str());
                push_str(&mut s, "'");
            },
            GrammarError::LeftRecursion(i) => {
                push_str(&mut s, "left recursion detected at rule index ");
                push_decimal(&mut s, *i as u64);
            },
            GrammarError::NoRootRule => {
                push_str(&mut s, "grammar does not contain a 'root' rule");
            },
            GrammarError::EmptyGrammar => {
                push_str(&mut s, "grammar is empty");
            },
            GrammarError::InvalidState(m) => {
                push_str(&mut s, "invalid state: ");
                push_str(&mut s, m.as_str());
            },
            GrammarError::InvalidStartRule(i) => {
                push_str(&mut s, "start rule index ");
                push_decimal(&mut s, *i as u64);
                push_str(&mut s, " out of bounds");
            },
        }
        s
    }
}

} // verus!
