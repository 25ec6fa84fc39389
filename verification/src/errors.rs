use vstd::prelude::*;

verus! {

/// All the expected ways a Zia command could be invalid.
#[derive(Debug, Clone, Copy, PartialEq, Eq, Structural)]
pub enum ZiaError {
    RedundantReduction,
    RedundantDefinition,
    RedundantRefactor,
    NotAProgram,
    BadDefinition,
    CyclicReduction,
    ExpandingReduction,
    InfiniteDefinition,
    EmptyParentheses,
    AmbiguousExpression,
    DefinitionCollision,
    SettingDefinitionOfConcrete,
    ConcreteReduction,
    MultipleReductionPaths,
}

/// The result of an operation that may fail with a `ZiaError`.
pub type ZiaResult<T> = Result<T, ZiaError>;

/// The message that describes each error to the user.
pub open spec fn error_message(e: ZiaError) -> Seq<char> {
    match e {
        ZiaError::RedundantReduction => "That reduction rule already exists."@,
        ZiaError::RedundantDefinition => "That definition already exists."@,
        ZiaError::RedundantRefactor => "Relabelling something that doesn't yet exist has no effect."@,
        ZiaError::NotAProgram => "No program exists for this syntax."@,
        ZiaError::BadDefinition => "Cannot define expressions."@,
        ZiaError::CyclicReduction => "Cannot allow a chain of reduction rules to loop."@,
        ZiaError::ExpandingReduction => "Cannot reduce a concept to an expression containing itself."@,
        ZiaError::InfiniteDefinition => "Cannot define a concept as an expression containing itself."@,
        ZiaError::EmptyParentheses => "Parentheses need to contain a symbol or expression."@,
        ZiaError::AmbiguousExpression => "Ambiguity due to lack of precedence or associativity defined for the symbols in that expression."@,
        ZiaError::DefinitionCollision => "Cannot define a used symbol as another used symbol or expression."@,
        ZiaError::SettingDefinitionOfConcrete => "Cannot set a definition of a concrete concept."@,
        ZiaError::ConcreteReduction => "Cannot reduce a concrete concept."@,
        ZiaError::MultipleReductionPaths => "Cannot reduce an expression whose parts already reduce."@,
    }
}

impl ZiaError {
    /// The message that describes the error to the user.
    pub fn to_string(&self) -> (s: String)
        ensures
            s@ == error_message(*self),
    {
        match *self {
            ZiaError::RedundantReduction => String::from_str("That reduction rule already exists."),
            ZiaError::RedundantDefinition => String::from_str("That definition already exists."),
            ZiaError::RedundantRefactor => String::from_str("Relabelling something that doesn't yet exist has no effect."),
            ZiaError::NotAProgram => String::from_str("No program exists for this syntax."),
            ZiaError::BadDefinition => String::from_str("Cannot define expressions."),
            ZiaError::CyclicReduction => String::from_str("Cannot allow a chain of reduction rules to loop."),
            ZiaError::ExpandingReduction => String::from_str("Cannot reduce a concept to an expression containing itself."),
            ZiaError::InfiniteDefinition => String::from_str("Cannot define a concept as an expression containing itself."),
            ZiaError::EmptyParentheses => String::from_str("Parentheses need to contain a symbol or expression."),
            ZiaError::AmbiguousExpression => String::from_str("Ambiguity due to lack of precedence or associativity defined for the symbols in that expression."),
            ZiaError::DefinitionCollision => String::from_str("Cannot define a used symbol as another used symbol or expression."),
            ZiaError::SettingDefinitionOfConcrete => String::from_str("Cannot set a definition of a concrete concept."),
            ZiaError::ConcreteReduction => String::from_str("Cannot reduce a concrete concept."),
            ZiaError::MultipleReductionPaths => String::from_str("Cannot reduce an expression whose parts already reduce."),
        }
    }
}

} // verus!
