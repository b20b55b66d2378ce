use vstd::prelude::*;

verus! {

/// Every failure the tokenizer, the parser or the code generator can report.
///
/// Each kind carries what the failure is about and nothing more; the caller
/// decides how to present it.  No function here panics: a bad input always
/// comes back as one of these values.
#[derive(Debug, PartialEq, Eq)]
pub enum Error {
    /// A numeric literal without a single digit (a lone `.`).
    ParseFloat,
    /// A byte that starts no token; carries the offending character.
    UnknownChar(char),
    /// A token that does not fit the grammar here; carries a short
    /// description of what was expected.
    Unexpected(&'static str),
    /// A binary operator missing from the precedence table.  Defensive:
    /// the parser only climbs over operators the table holds.
    UndefinedOperator,
    /// A variable reference with no binding in the current function body.
    UndefinedVariable,
    /// A call to a function name that was never declared.
    UndefinedFunction,
    /// A call whose argument count differs from the declared parameter count.
    WrongArgumentCount,
    /// A second definition of a name whose body was already emitted.
    FunctionRedef,
    /// A redeclaration of a known name with a different parameter count.
    FunctionRedefWithDifferentParams,
}

} // verus!
