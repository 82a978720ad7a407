//! Errors of grammar construction and of the queries on it.
use vstd::prelude::*;
use vstd::string::*;

verus! {

/// Why a line of grammar text could not be read.
#[derive(Debug, PartialEq, Eq)]
pub enum ParseProductionError {
    /// A non-blank line holds no `->`.
    NoArrow,
    /// The head of a production is a terminal of the grammar.
    TokenTypeMisMatch(String),
    /// The start symbol heads no production.
    StartSymbolNotFound,
}

/// Why an operation on a grammar, its item sets or its table failed.
#[derive(Debug, PartialEq, Eq)]
pub enum Error {
    /// A grammar line could not be read; `line` counts from 0, blank lines included.
    ParseProductionError { line: usize, cause: ParseProductionError },
    /// The start symbol does not head exactly one production.
    GrammarNotAugmented,
    /// A FIRST set was asked for while it was being computed. The fixpoint computation of
    /// FIRST sets never reports it.
    InvalidFirstSetState,
    /// A token sequence names a non-terminal that the grammar lacks.
    NonTerminalNotFound(String),
    /// A FIRST set could not be settled. The fixpoint computation of FIRST sets never
    /// reports it.
    UnresolvableFirstSet,
    /// There is no state of that number.
    StateNotFound(usize),
    /// Recovery found a state without the GOTO edge that one of its items asks for.
    AmbiguousGrammar,
}

/// The description of each kind of error.
pub open spec fn error_text(e: Error) -> Seq<char> {
    match e {
        Error::ParseProductionError { .. } => "Error parsing productions"@,
        Error::GrammarNotAugmented => "Grammar may be not augmented"@,
        Error::InvalidFirstSetState => "First set state is calculating"@,
        Error::NonTerminalNotFound(_) => "Grammar does not contain the non-terminal"@,
        Error::UnresolvableFirstSet => "Grammar unresolvable first set"@,
        Error::StateNotFound(_) => "No such item set state"@,
        Error::AmbiguousGrammar => "Grammar is ambiguous"@,
    }
}

impl Error {
    pub fn parse_production_error(line: usize, cause: ParseProductionError) -> (r: Self)
        ensures
            r == (Error::ParseProductionError { line, cause }),
    {
        Error::ParseProductionError { line, cause }
    }

    /// A one-line description of the error.
    pub fn message(&self) -> (r: String)
        ensures
            r@ == error_text(*self),
    {
        proof {
            reveal_strlit("Error parsing productions");
            reveal_strlit("Grammar may be not augmented");
            reveal_strlit("First set state is calculating");
            reveal_strlit("Grammar does not contain the non-terminal");
            reveal_strlit("Grammar unresolvable first set");
            reveal_strlit("No such item set state");
            reveal_strlit("Grammar is ambiguous");
        }
        match self {
            Error::ParseProductionError { .. } => "Error parsing productions".to_owned(),
            Error::GrammarNotAugmented => "Grammar may be not augmented".to_owned(),
            Error::InvalidFirstSetState => "First set state is calculating".to_owned(),
            Error::NonTerminalNotFound(_) => "Grammar does not contain the non-terminal".to_owned(),
            Error::UnresolvableFirstSet => "Grammar unresolvable first set".to_owned(),
            Error::StateNotFound(_) => "No such item set state".to_owned(),
            Error::AmbiguousGrammar => "Grammar is ambiguous".to_owned(),
        }
    }
}

} // verus!
