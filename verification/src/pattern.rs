//! Regular expressions: whether one compiles, and what it matches.

use vstd::prelude::*;
use crate::errors::ServiceError;
use crate::text::{chars_of, joined, string_of};

verus! {

/// A regular expression that has been compiled (by the crate `regex`).
#[verifier::external_body]
pub struct Compiled {
    regex: regex::Regex,
}

/// Why a regular expression does not compile.
#[derive(Debug, Clone, PartialEq, Eq)]
pub enum RegexFault {
    /// It is not written as regular expressions are; the text says where.
    Syntax(String),
    /// It would be too large once compiled.
    TooBig,
    /// Something else.
    Other,
}

/// A `RegexFault` as plain values.
pub enum RegexFaultView {
    Syntax(Seq<char>),
    TooBig,
    Other,
}

impl DeepView for RegexFault {
    type V = RegexFaultView;

    open spec fn deep_view(&self) -> RegexFaultView {
        match self {
            RegexFault::Syntax(m) => RegexFaultView::Syntax(m@),
            RegexFault::TooBig => RegexFaultView::TooBig,
            RegexFault::Other => RegexFaultView::Other,
        }
    }
}

/// Why the regular expression `pattern` does not compile: as a number, 0
/// for its syntax, 1 for its size and 2 for anything else, and the text that
/// says what is wrong with its syntax; `None` where it compiles.
pub uninterp spec fn regex_refusal(pattern: Seq<char>) -> Option<(nat, Seq<char>)>;

/// Whether the regular expression `pattern` finds a match in `text`.
pub uninterp spec fn regex_matches(pattern: Seq<char>, text: Seq<char>) -> bool;

/// The regular expression that was compiled.
pub uninterp spec fn pattern_of(compiled: Compiled) -> Seq<char>;

/// The regular expression `pattern` compiles.
pub open spec fn regex_compiles(pattern: Seq<char>) -> bool {
    regex_refusal(pattern) is None
}

/// The fault that a refusal stands for.
pub open spec fn fault_of(refusal: (nat, Seq<char>)) -> RegexFaultView {
    if refusal.0 == 0 {
        RegexFaultView::Syntax(refusal.1)
    } else if refusal.0 == 1 {
        RegexFaultView::TooBig
    } else {
        RegexFaultView::Other
    }
}

/// What is said of a regular expression with a fault.
pub open spec fn fault_message(fault: RegexFaultView) -> Option<Seq<char>> {
    match fault {
        RegexFaultView::Syntax(m) => Some("regex error: "@ + m),
        RegexFaultView::TooBig => Some("regex compiled too big."@),
        RegexFaultView::Other => None,
    }
}

/// The regular expression `pattern`, compiled: `regex::Regex::new`. It
/// is taken on trust that the same pattern compiles, or fails, in the same
/// way every time. The fault is told by the variant of the crate's error.
#[verifier::external_body]
fn compile(pattern: &str) -> (found: Result<Compiled, RegexFault>)
    ensures
        match regex_refusal(pattern@) {
            None => found is Ok && pattern_of(found->Ok_0) == pattern@,
            Some(refusal) => found is Err && found->Err_0.deep_view() == fault_of(refusal),
        },
{
    match regex::Regex::new(pattern) {
        Ok(regex) => Ok(Compiled { regex }),
        Err(regex::Error::Syntax(message)) => Err(RegexFault::Syntax(message)),
        Err(regex::Error::CompiledTooBig(_)) => Err(RegexFault::TooBig),
        Err(_) => Err(RegexFault::Other),
    }
}

/// Whether the compiled regular expression finds a match in `text`:
/// `regex::Regex::is_match`. It is taken on trust that the same expression
/// finds the same in the same text every time.
#[verifier::external_body]
fn is_match(compiled: &Compiled, text: &str) -> (found: bool)
    ensures
        found == regex_matches(pattern_of(*compiled), text@),
{
    compiled.regex.is_match(text)
}

/// The error that a fault of a regular expression is answered with: a
/// bad request for a fault of syntax or size, with what is said of it.
pub fn refused(fault: RegexFault) -> (e: ServiceError)
    ensures
        match fault_message(fault.deep_view()) {
            Some(m) => e is BadRequest && e.message() == m,
            None => e is InternalServerError,
        },
{
    match fault {
        RegexFault::Syntax(message) => {
            let text = joined(&chars_of("regex error: "), &chars_of(message.as_str()));
            ServiceError::BadRequest(string_of(&text))
        },
        RegexFault::TooBig => ServiceError::BadRequest("regex compiled too big.".to_string()),
        RegexFault::Other => ServiceError::InternalServerError,
    }
}

/// Whether the regular expression compiles.
pub fn compiles(pattern: &str) -> (ok: bool)
    ensures
        ok == regex_compiles(pattern@),
{
    compile(pattern).is_ok()
}

/// The regular expression `pattern`, compiled, or why it does not compile.
pub fn compiled(pattern: &str) -> (found: Result<Compiled, RegexFault>)
    ensures
        match regex_refusal(pattern@) {
            None => found is Ok && pattern_of(found->Ok_0) == pattern@,
            Some(refusal) => found is Err && found->Err_0.deep_view() == fault_of(refusal),
        },
{
    compile(pattern)
}

impl Compiled {
    /// Whether the regular expression finds a match in `text`.
    pub fn matches(&self, text: &str) -> (found: bool)
        ensures
            found == regex_matches(pattern_of(*self), text@),
    {
        is_match(self, text)
    }
}

} // verus!
