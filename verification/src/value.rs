use vstd::prelude::*;

verus! {

/// What an expression evaluates to.
#[derive(Debug, PartialEq, Eq)]
pub enum Value {
    String(String),
    Number(i32),
    Bool(bool),
}

/// The mathematical value that a `Value` stands for.
pub enum Val {
    String(Seq<char>),
    Number(i32),
    Bool(bool),
}

impl View for Value {
    type V = Val;

    open spec fn view(&self) -> Val {
        match *self {
            Value::String(text) => Val::String(text@),
            Value::Number(n) => Val::Number(n),
            Value::Bool(b) => Val::Bool(b),
        }
    }
}

impl Clone for Value {
    fn clone(&self) -> (copy: Value)
        ensures
            copy@ == self@,
    {
        match self {
            Value::String(text) => Value::String(text.clone()),
            Value::Number(n) => Value::Number(*n),
            Value::Bool(b) => Value::Bool(*b),
        }
    }
}

/// Why an evaluation failed.
#[derive(Debug, PartialEq, Eq, Clone, Copy)]
pub enum ErrorKind {
    /// A call names a function that the table does not hold.
    UndefinedFunction,
    /// An identifier has no binding in the active frame.
    UndefinedVariable,
    /// An arithmetic operator has an operand that is no number or that failed, no operand
    /// where it needs one, or a zero divisor.
    InvalidOperands,
    /// An arithmetic expression on two numbers names no known operator.
    UndefinedOperator,
    /// A comparison whose operands or operator do not go together.
    InvalidComparison,
    /// A conditional whose `if` condition is no boolean, or that lacks a branch.
    InvalidIfExpression,
    /// A conditional whose `else if` condition is no boolean.
    InvalidElifExpression,
    /// A statement that wraps neither a variable definition nor a `return`.
    UnknownStatement,
    /// An expression that wraps no kind of expression.
    UnknownExpression,
    /// A node that cannot be evaluated by itself.
    UnhandledNode,
    /// A call nested more deeply than the evaluator's ceiling allows.
    RecursionLimit,
}

impl ErrorKind {
    /// The words that describe the error.
    pub open spec fn text(self) -> Seq<char> {
        match self {
            ErrorKind::UndefinedFunction => "Undefined function"@,
            ErrorKind::UndefinedVariable => "Undefined variable"@,
            ErrorKind::InvalidOperands => "Invalid"@,
            ErrorKind::UndefinedOperator => "Undefined operator"@,
            ErrorKind::InvalidComparison => "Invalid comparison expression"@,
            ErrorKind::InvalidIfExpression => "Invalid if expression"@,
            ErrorKind::InvalidElifExpression => "Invalid elif expression"@,
            ErrorKind::UnknownStatement => "Unknown Statement"@,
            ErrorKind::UnknownExpression => "Unknown Expression"@,
            ErrorKind::UnhandledNode => "Unhandled Node"@,
            ErrorKind::RecursionLimit => "Recursion limit reached"@,
        }
    }

    /// The words that describe the error.
    pub fn message(&self) -> (words: &'static str)
        ensures
            words@ == self.text(),
    {
        match self {
            ErrorKind::UndefinedFunction => "Undefined function",
            ErrorKind::UndefinedVariable => "Undefined variable",
            ErrorKind::InvalidOperands => "Invalid",
            ErrorKind::UndefinedOperator => "Undefined operator",
            ErrorKind::InvalidComparison => "Invalid comparison expression",
            ErrorKind::InvalidIfExpression => "Invalid if expression",
            ErrorKind::InvalidElifExpression => "Invalid elif expression",
            ErrorKind::UnknownStatement => "Unknown Statement",
            ErrorKind::UnknownExpression => "Unknown Expression",
            ErrorKind::UnhandledNode => "Unhandled Node",
            ErrorKind::RecursionLimit => "Recursion limit reached",
        }
    }
}

/// The outcome that an evaluation's result stands for.
pub open spec fn result_view(res: Result<Value, ErrorKind>) -> Result<Val, ErrorKind> {
    match res {
        Ok(v) => Ok(v@),
        Err(e) => Err(e),
    }
}

} // verus!
