pub mod ast;
pub mod grammar;
pub mod interpreter;
pub mod lexer;
pub mod parser;
pub mod semantics;
pub mod text;
pub mod value;

pub use ast::{Node, Tree};
pub use grammar::{Failure, Level, ParseErrorKind};
pub use lexer::{lex, strip_whitespace, Lexeme, Token};
pub use parser::{
    arguments, boolean, comparison_expression, elif_branch, else_branch, expression,
    function_call, function_definition, function_return, identifier, if_branch, if_expression,
    l1, l1_infix, l2, l2_infix, l3, l3_infix, l4, math_expression, number, other_arg,
    parenthetical_expression, program, statement, string, variable_define, ParseError,
    ParseResult,
};
pub use value::{ErrorKind, Val, Value};
pub use interpreter::{evaluate, start_interpreter, Machine, Runtime, DEFAULT_MAX_DEPTH};
