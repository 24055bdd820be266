//! Why an evaluation did not produce a value.
use vstd::prelude::*;

verus! {

/// The kind of an expression's value, as named in errors.
#[derive(Clone, Copy, Debug, PartialEq, Eq, Structural)]
pub enum Kind {
    Integer,
    Float,
    Boolean,
    String,
    Identifier,
    Math,
    Logical,
    FunctionCall,
    StringConcat,
}

#[derive(Debug)]
pub enum Error {
    /// The expression text is no expression.
    Parse,
    /// An identifier does not lead to a value in the data.
    IdentifierNotFound,
    /// An identifier leads to a value that is not a number.
    IdentifierNotNumber,
    /// An identifier leads to a value that is not a boolean.
    IdentifierNotBool,
    /// An identifier in a string concatenation leads to neither a string nor a number.
    IdentifierNotConcatenable,
    /// A value of this kind cannot be evaluated as a number.
    NotANumber(Kind),
    /// A value of this kind cannot be evaluated as a boolean.
    NotABool(Kind),
    /// A value of this kind cannot take part in a string concatenation.
    NotConcatenable(Kind),
    /// A function returned something else than a number where a number was needed.
    FunctionResultNotNumber,
    /// A function returned something else than a boolean where a boolean was needed.
    FunctionResultNotBool,
    /// An expression with filters did not evaluate to a number where a number was needed.
    ExpressionNotNumber,
    /// Only a boolean can be negated.
    NegateNonBool,
    /// No function is registered under the name.
    FunctionNotFound,
    /// No filter is registered under the name.
    FilterNotFound,
    /// Float arithmetic gave no finite number.
    InvalidNumber,
    /// The value of the evaluation keyword is not a string.
    EvalKeywordNotString,
    /// Some items could not be evaluated, and another pass would not change that.
    UnableToEvaluate,
    /// An error raised by a filter or a function.
    Custom(String),
}

} // verus!
