use crate::ast::Tree;
use crate::text::{is_alphanumeric, is_digit};
use vstd::prelude::*;

verus! {

/// What a rule found wrong.
#[derive(Debug, PartialEq, Eq, Clone, Copy)]
pub enum ParseErrorKind {
    /// A fixed word was expected.
    Tag,
    /// A digit was expected.
    Digit,
    /// A letter or a digit was expected.
    AlphaNumeric,
    /// A repetition of zero or more met an element that took no input.
    Many0,
    /// A repetition of one or more met an element that took no input.
    Many1,
    /// A run of digits stands for a number above `i32::MAX`.
    TooLarge,
}

/// A failed rule: the text at which it failed, and what it found wrong.
pub struct Failure {
    pub rest: Seq<char>,
    pub kind: ParseErrorKind,
}

/// The outcome of a rule on a text: what follows the part it took together with what it
/// made of that part, or a failure.
pub type Parsed<T> = Result<(Seq<char>, T), Failure>;

/// The failure of kind `kind` at `rest`.
pub open spec fn fail<T>(rest: Seq<char>, kind: ParseErrorKind) -> Parsed<T> {
    Err(Failure { rest, kind })
}

/// `rest` as long as it is no longer than `text`; `text` itself otherwise. Whatever a
/// rule leaves of `text` is a tail of `text`, as the lemmas on the rules' tails show,
/// so that a rule passes on what the rule before it left.
pub open spec fn left_of(text: Seq<char>, rest: Seq<char>) -> Seq<char> {
    if rest.len() <= text.len() {
        rest
    } else {
        text
    }
}

/// Takes `word` from the front of `s`.
pub open spec fn tag(word: Seq<char>, s: Seq<char>) -> Result<Seq<char>, Failure> {
    if word.is_prefix_of(s) {
        Ok(s.skip(word.len() as int))
    } else {
        Err(Failure { rest: s, kind: ParseErrorKind::Tag })
    }
}

/// Takes the first of `words` that `s` begins with; the result names the word taken.
pub open spec fn first_tag(words: Seq<Seq<char>>, s: Seq<char>) -> Parsed<Seq<char>>
    decreases words.len(),
{
    if words.len() == 0 {
        fail(s, ParseErrorKind::Tag)
    } else if words[0].is_prefix_of(s) {
        Ok((s.skip(words[0].len() as int), words[0]))
    } else {
        first_tag(words.skip(1), s)
    }
}

/// What is left of `s` once every leading occurrence of one of `words` is taken, the
/// first fitting word each time. The words are not empty.
pub open spec fn skip_tags(words: Seq<Seq<char>>, s: Seq<char>) -> Seq<char>
    decreases s.len(),
{
    match first_tag(words, s) {
        Ok((rest, _)) => if rest.len() < s.len() {
            skip_tags(words, rest)
        } else {
            s
        },
        Err(_) => s,
    }
}

/// The length of the longest prefix of `s` in which every character satisfies `keep`.
pub open spec fn leading(s: Seq<char>, keep: spec_fn(char) -> bool) -> nat
    decreases s.len(),
{
    if s.len() > 0 && keep(s[0]) {
        1 + leading(s.skip(1), keep)
    } else {
        0
    }
}

/// The number that a run of digits writes in base ten.
pub open spec fn decimal(digits: Seq<char>) -> nat
    decreases digits.len(),
{
    if digits.len() == 0 {
        0
    } else {
        (decimal(digits.drop_last()) * 10 + (digits.last() as nat - '0' as nat)) as nat
    }
}

/// Spaces.
pub open spec fn spaces() -> Seq<Seq<char>> {
    seq![" "@]
}

/// Line feeds and spaces.
pub open spec fn blanks() -> Seq<Seq<char>> {
    seq!["\n"@, " "@]
}

/// `leading` never counts past the end.
pub proof fn lemma_leading_len(s: Seq<char>, keep: spec_fn(char) -> bool)
    ensures
        leading(s, keep) <= s.len(),
    decreases s.len(),
{
    if s.len() > 0 && keep(s[0]) {
        lemma_leading_len(s.skip(1), keep);
    }
}

/// `skip_tags` leaves no more than it was given.
pub proof fn lemma_skip_tags_len(words: Seq<Seq<char>>, s: Seq<char>)
    ensures
        skip_tags(words, s).len() <= s.len(),
    decreases s.len(),
{
    match first_tag(words, s) {
        Ok((rest, _)) => {
            if rest.len() < s.len() {
                lemma_skip_tags_len(words, rest);
            }
        },
        Err(_) => {},
    }
}

/// What `first_tag` takes is one of the words, and it stands at the front of the text.
pub proof fn lemma_first_tag(words: Seq<Seq<char>>, s: Seq<char>)
    ensures
        first_tag(words, s) matches Ok((rest, word)) ==> {
            &&& words.contains(word)
            &&& word.is_prefix_of(s)
            &&& rest == s.skip(word.len() as int)
        },
        first_tag(words, s) matches Err(e) ==> {
            &&& e == (Failure { rest: s, kind: ParseErrorKind::Tag })
            &&& forall|i: int| 0 <= i < words.len() ==> !(#[trigger] words[i]).is_prefix_of(s)
        },
    decreases words.len(),
{
    if words.len() > 0 && !words[0].is_prefix_of(s) {
        lemma_first_tag(words.skip(1), s);
        match first_tag(words.skip(1), s) {
            Ok((rest, word)) => {
                let i = choose|i: int| 0 <= i < words.skip(1).len() && words.skip(1)[i] == word;
                assert(words[i + 1] == word);
            },
            Err(_) => {
                assert forall|i: int| 0 <= i < words.len() implies !(#[trigger] words[i]).is_prefix_of(
                    s,
                ) by {
                    if i > 0 {
                        assert(words.skip(1)[i - 1] == words[i]);
                    }
                }
            },
        }
    }
}

/// Every operator is one character long.
pub proof fn lemma_operators(level: Level)
    ensures
        forall|i: int|
            0 <= i < operators(level).len() ==> (#[trigger] operators(level)[i]).len() == 1,
{
    reveal_strlit("+");
    reveal_strlit("-");
    reveal_strlit("*");
    reveal_strlit("/");
    reveal_strlit("^");
}

/// One or more letters and digits: what follows them, and the run itself.
pub open spec fn alphanumeric1(s: Seq<char>) -> Parsed<Seq<char>> {
    let n = leading(s, |c: char| is_alphanumeric(c));
    if n == 0 {
        fail(s, ParseErrorKind::AlphaNumeric)
    } else {
        Ok((s.skip(n as int), s.take(n as int)))
    }
}

/// One or more digits: what follows them, and the run itself.
pub open spec fn digit1(s: Seq<char>) -> Parsed<Seq<char>> {
    let n = leading(s, |c: char| is_digit(c));
    if n == 0 {
        fail(s, ParseErrorKind::Digit)
    } else {
        Ok((s.skip(n as int), s.take(n as int)))
    }
}

/// One or more letters and digits, as an `Identifier`.
pub open spec fn identifier(s: Seq<char>) -> Parsed<Tree> {
    match alphanumeric1(s) {
        Err(e) => Err(e),
        Ok((rest, name)) => Ok((rest, Tree::Identifier { value: name })),
    }
}

/// One or more digits, as a `Number`. A run that writes a number above `i32::MAX` is
/// no number.
pub open spec fn number(s: Seq<char>) -> Parsed<Tree> {
    match digit1(s) {
        Err(e) => Err(e),
        Ok((rest, digits)) => if decimal(digits) > i32::MAX {
            fail(s, ParseErrorKind::TooLarge)
        } else {
            Ok((rest, Tree::Number { value: decimal(digits) as i32 }))
        },
    }
}

/// `true` or `false`, as a `Bool`.
pub open spec fn boolean(s: Seq<char>) -> Parsed<Tree> {
    match first_tag(seq!["true"@, "false"@], s) {
        Ok((rest, word)) => Ok((rest, Tree::Bool { value: word == "true"@ })),
        Err(e) => Err(e),
    }
}

/// A quoted run of letters, digits and spaces, as a `String` of the run.
pub open spec fn string(s: Seq<char>) -> Parsed<Tree> {
    match tag("\""@, s) {
        Err(e) => Err(e),
        Ok(inner) => {
            let n = leading(inner, |c: char| is_alphanumeric(c) || c == ' ');
            match tag("\""@, inner.skip(n as int)) {
                Err(e) => Err(e),
                Ok(rest) => Ok((rest, Tree::String { value: inner.take(n as int) })),
            }
        },
    }
}

/// `word`, blanks, `true` or `false`, blanks: the head of a conditional branch, as the
/// `Bool` of its condition.
pub open spec fn condition(word: Seq<char>, s: Seq<char>) -> Parsed<Tree> {
    match tag(word, s) {
        Err(e) => Err(e),
        Ok(r) => match boolean(skip_tags(blanks(), r)) {
            Err(e) => Err(e),
            Ok((r2, cond)) => Ok((skip_tags(blanks(), r2), cond)),
        },
    }
}

/// A binding strength of the binary operators, loosest first.
#[derive(Debug, PartialEq, Eq, Clone, Copy)]
pub enum Level {
    /// `+` and `-`.
    Sum,
    /// `*` and `/`.
    Product,
    /// `^`.
    Power,
}

/// The operators of a level, in the order in which they are tried.
pub open spec fn operators(level: Level) -> Seq<Seq<char>> {
    match level {
        Level::Sum => seq!["+"@, "-"@],
        Level::Product => seq!["*"@, "/"@],
        Level::Power => seq!["^"@],
    }
}

/// How many levels bind at least as tightly as `level`.
pub open spec fn height(level: Level) -> nat {
    match level {
        Level::Sum => 3,
        Level::Product => 2,
        Level::Power => 1,
    }
}

/// The comparison operators, in the order in which they are tried: a two-character
/// operator before the one-character operator it begins with.
pub open spec fn comparison_operators() -> Seq<Seq<char>> {
    seq![">="@, "<="@, "=="@, "!="@, ">"@, "<"@]
}

/// `head` as the left operand of `link`, a `MathExpression` that so far holds its right
/// operand only.
pub open spec fn join(head: Tree, link: Tree) -> Tree {
    match link {
        Tree::MathExpression { name, children } => Tree::MathExpression {
            name,
            children: seq![head] + children,
        },
        _ => head,
    }
}

/// `head` joined with each of `links` in turn, from the first to the last.
pub open spec fn fold_links(head: Tree, links: Seq<Tree>) -> Tree
    decreases links.len(),
{
    if links.len() == 0 {
        head
    } else {
        fold_links(join(head, links[0]), links.skip(1))
    }
}

/// A name and, in round brackets, at most one list of arguments: a `FunctionCall` of
/// the list, if there is one.
pub open spec fn function_call(s: Seq<char>) -> Parsed<Tree>
    decreases s.len(), 0nat, 1nat,
{
    match alphanumeric1(s) {
        Err(e) => Err(e),
        Ok((r0, name)) => match tag("("@, r0) {
            Err(e) => Err(e),
            Ok(r1) => {
                proof {
                    reveal_strlit("(");
                    lemma_leading_len(s, |c: char| is_alphanumeric(c));
                }
                match args_list(r1) {
                    Err(e) => Err(e),
                    Ok((r2, args)) => match tag(")"@, r2) {
                        Err(e) => Err(e),
                        Ok(r3) => Ok((r3, Tree::FunctionCall { name, children: args })),
                    },
                }
            },
        },
    }
}

/// At most one `arguments`: the list that it made, alone, or nothing.
pub open spec fn args_list(s: Seq<char>) -> Parsed<Seq<Tree>>
    decreases s.len(), 9nat, 0nat,
{
    match arguments(s) {
        Err(_) => Ok((s, Seq::empty())),
        Ok((r, list)) => Ok((r, seq![list])),
    }
}

/// One expression and then zero or more `other_arg`, as a `FunctionArguments`.
pub open spec fn arguments(s: Seq<char>) -> Parsed<Tree>
    decreases s.len(), 8nat, 0nat,
{
    match expression(s) {
        Err(e) => Err(e),
        Ok((r, first)) => match other_args(left_of(s, r)) {
            Err(e) => Err(e),
            Ok((r2, more)) => Ok((r2, Tree::FunctionArguments { children: seq![first] + more })),
        },
    }
}

/// Zero or more `other_arg`, one after the other.
pub open spec fn other_args(s: Seq<char>) -> Parsed<Seq<Tree>>
    decreases s.len(), 0nat, 1nat,
{
    match other_arg(s) {
        Err(_) => Ok((s, Seq::empty())),
        Ok((r, first)) => if r.len() >= s.len() {
            fail(s, ParseErrorKind::Many0)
        } else {
            match other_args(r) {
                Err(e) => Err(e),
                Ok((r2, more)) => Ok((r2, seq![first] + more)),
            }
        },
    }
}

/// A comma and an expression.
pub open spec fn other_arg(s: Seq<char>) -> Parsed<Tree>
    decreases s.len(), 0nat, 0nat,
{
    match tag(","@, s) {
        Err(e) => Err(e),
        Ok(r) => {
            proof {
                reveal_strlit(",");
            }
            expression(r)
        },
    }
}

/// An arithmetic expression in round brackets, spaces allowed around each bracket.
pub open spec fn parenthetical_expression(s: Seq<char>) -> Parsed<Tree>
    decreases s.len(), 0nat, 1nat,
{
    match tag("("@, skip_tags(spaces(), s)) {
        Err(e) => Err(e),
        Ok(r) => {
            proof {
                reveal_strlit("(");
                lemma_skip_tags_len(spaces(), s);
                lemma_skip_tags_len(spaces(), r);
            }
            match chain(Level::Sum, skip_tags(spaces(), r)) {
                Err(e) => Err(e),
                Ok((r2, inner)) => match tag(")"@, skip_tags(spaces(), r2)) {
                    Err(e) => Err(e),
                    Ok(r3) => Ok((skip_tags(spaces(), r3), inner)),
                },
            }
        },
    }
}

/// An atom: a function call, a number, an identifier or a bracketed expression, the
/// first that fits.
pub open spec fn l4(s: Seq<char>) -> Parsed<Tree>
    decreases s.len(), 0nat, 2nat,
{
    match function_call(s) {
        Ok(done) => Ok(done),
        Err(_) => match number(s) {
            Ok(done) => Ok(done),
            Err(_) => match identifier(s) {
                Ok(done) => Ok(done),
                Err(_) => parenthetical_expression(s),
            },
        },
    }
}

/// One unit of the level next tighter than `level`; above `Power` that is an atom.
pub open spec fn operand(level: Level, s: Seq<char>) -> Parsed<Tree>
    decreases s.len(), height(level), 0nat,
{
    match level {
        Level::Sum => chain(Level::Product, s),
        Level::Product => chain(Level::Power, s),
        Level::Power => l4(s),
    }
}

/// An operator of `level` and its right operand, spaces allowed around the operator:
/// a `MathExpression` named by the operator, whose only child is that operand.
pub open spec fn infix(level: Level, s: Seq<char>) -> Parsed<Tree>
    decreases s.len(), height(level), 0nat,
{
    match first_tag(operators(level), skip_tags(spaces(), s)) {
        Err(e) => Err(e),
        Ok((r, op)) => {
            proof {
                lemma_first_tag(operators(level), skip_tags(spaces(), s));
                lemma_operators(level);
                lemma_skip_tags_len(spaces(), s);
                lemma_skip_tags_len(spaces(), r);
            }
            match operand(level, skip_tags(spaces(), r)) {
                Err(e) => Err(e),
                Ok((r2, right)) => Ok(
                    (r2, Tree::MathExpression { name: op, children: seq![right] }),
                ),
            }
        },
    }
}

/// Zero or more `infix` of `level`, one after the other.
pub open spec fn links(level: Level, s: Seq<char>) -> Parsed<Seq<Tree>>
    decreases s.len(), height(level), 1nat,
{
    match infix(level, s) {
        Err(_) => Ok((s, Seq::empty())),
        Ok((r, first)) => if r.len() >= s.len() {
            fail(s, ParseErrorKind::Many0)
        } else {
            match links(level, r) {
                Err(e) => Err(e),
                Ok((r2, more)) => Ok((r2, seq![first] + more)),
            }
        },
    }
}

/// A chain of `level`: one operand, then zero or more operator-operand pairs, folded
/// from the left, so that each operator takes all that stands before it as its left
/// operand.
pub open spec fn chain(level: Level, s: Seq<char>) -> Parsed<Tree>
    decreases s.len(), height(level), 2nat,
{
    match operand(level, s) {
        Err(e) => Err(e),
        Ok((r, head)) => match links(level, left_of(s, r)) {
            Err(e) => Err(e),
            Ok((r2, tail)) => Ok((r2, fold_links(head, tail))),
        },
    }
}

/// An arithmetic expression: a chain of the loosest level.
pub open spec fn math_expression(s: Seq<char>) -> Parsed<Tree>
    decreases s.len(), 4nat, 0nat,
{
    chain(Level::Sum, s)
}

/// One side of a comparison: an arithmetic expression, a function call, a number, a
/// boolean or an identifier, the first that fits.
pub open spec fn side(s: Seq<char>) -> Parsed<Tree>
    decreases s.len(), 5nat, 0nat,
{
    match math_expression(s) {
        Ok(done) => Ok(done),
        Err(_) => match function_call(s) {
            Ok(done) => Ok(done),
            Err(_) => match number(s) {
                Ok(done) => Ok(done),
                Err(_) => match boolean(s) {
                    Ok(done) => Ok(done),
                    Err(_) => identifier(s),
                },
            },
        },
    }
}

/// One side, a comparison operator, the other side, spaces allowed around the
/// operator: a `ComparisonExpression` named by the operator.
pub open spec fn comparison_expression(s: Seq<char>) -> Parsed<Tree>
    decreases s.len(), 6nat, 0nat,
{
    match side(s) {
        Err(e) => Err(e),
        Ok((r, left)) => match first_tag(comparison_operators(), skip_tags(spaces(), r)) {
            Err(e) => Err(e),
            Ok((r2, op)) => match side(left_of(s, skip_tags(spaces(), r2))) {
                Err(e) => Err(e),
                Ok((r3, right)) => Ok(
                    (r3, Tree::ComparisonExpression { name: op, children: seq![left, right] }),
                ),
            },
        },
    }
}

/// The body of a conditional branch: `{`, a `return`, `;`, `}`, blanks allowed after
/// each of `{`, `;` and `}`.
pub open spec fn block(s: Seq<char>) -> Parsed<Tree>
    decreases s.len(), 0nat, 0nat,
{
    match tag("{"@, s) {
        Err(e) => Err(e),
        Ok(r) => {
            proof {
                reveal_strlit("{");
                lemma_skip_tags_len(blanks(), r);
            }
            match function_return(skip_tags(blanks(), r)) {
                Err(e) => Err(e),
                Ok((r2, ret)) => match tag(";"@, r2) {
                    Err(e) => Err(e),
                    Ok(r3) => match tag("}"@, skip_tags(blanks(), r3)) {
                        Err(e) => Err(e),
                        Ok(r4) => Ok((skip_tags(blanks(), r4), ret)),
                    },
                },
            }
        },
    }
}

/// `if`, a boolean and a body, as an `IfBranch` of the condition and the `return`.
pub open spec fn if_branch(s: Seq<char>) -> Parsed<Tree>
    decreases s.len(), 0nat, 1nat,
{
    match condition("if"@, s) {
        Err(e) => Err(e),
        Ok((r, cond)) => match block(left_of(s, r)) {
            Err(e) => Err(e),
            Ok((r2, ret)) => Ok((r2, Tree::IfBranch { children: seq![cond, ret] })),
        },
    }
}

/// `else if`, a boolean and a body, as an `ElifBranch` of the condition and the
/// `return`.
pub open spec fn elif_branch(s: Seq<char>) -> Parsed<Tree>
    decreases s.len(), 0nat, 1nat,
{
    match condition("else if"@, s) {
        Err(e) => Err(e),
        Ok((r, cond)) => match block(left_of(s, r)) {
            Err(e) => Err(e),
            Ok((r2, ret)) => Ok((r2, Tree::ElifBranch { children: seq![cond, ret] })),
        },
    }
}

/// `else` and a body, as an `ElseBranch` of the `return`.
pub open spec fn else_branch(s: Seq<char>) -> Parsed<Tree>
    decreases s.len(), 0nat, 1nat,
{
    match tag("else"@, s) {
        Err(e) => Err(e),
        Ok(r) => match block(left_of(s, skip_tags(blanks(), r))) {
            Err(e) => Err(e),
            Ok((r2, ret)) => Ok((r2, Tree::ElseBranch { children: seq![ret] })),
        },
    }
}

/// An `if` branch, at most one `else if` branch and an `else` branch, blanks allowed
/// before each: an `IfExpression` of the branches that are there.
pub open spec fn if_expression(s: Seq<char>) -> Parsed<Tree>
    decreases s.len(), 0nat, 2nat,
{
    match if_branch(left_of(s, skip_tags(blanks(), s))) {
        Err(e) => Err(e),
        Ok((r, first)) => {
            let r1 = left_of(s, skip_tags(blanks(), r));
            match elif_branch(r1) {
                Ok((r2, second)) => match else_branch(left_of(s, skip_tags(blanks(), r2))) {
                    Err(e) => Err(e),
                    Ok((r3, last)) => Ok(
                        (r3, Tree::IfExpression { children: seq![first, second, last] }),
                    ),
                },
                Err(_) => match else_branch(left_of(s, skip_tags(blanks(), r1))) {
                    Err(e) => Err(e),
                    Ok((r3, last)) => Ok((r3, Tree::IfExpression { children: seq![first, last] })),
                },
            }
        },
    }
}

/// The first that fits of: a conditional, a boolean, a comparison, an arithmetic
/// expression, a function call, a number, a string, an identifier.
pub open spec fn expression_value(s: Seq<char>) -> Parsed<Tree>
    decreases s.len(), 7nat, 0nat,
{
    match if_expression(s) {
        Ok(done) => Ok(done),
        Err(_) => match boolean(s) {
            Ok(done) => Ok(done),
            Err(_) => match comparison_expression(s) {
                Ok(done) => Ok(done),
                Err(_) => match math_expression(s) {
                    Ok(done) => Ok(done),
                    Err(_) => match function_call(s) {
                        Ok(done) => Ok(done),
                        Err(_) => match number(s) {
                            Ok(done) => Ok(done),
                            Err(_) => match string(s) {
                                Ok(done) => Ok(done),
                                Err(_) => identifier(s),
                            },
                        },
                    },
                },
            },
        },
    }
}

/// An expression: an `Expression` around what `expression_value` finds.
pub open spec fn expression(s: Seq<char>) -> Parsed<Tree>
    decreases s.len(), 7nat, 1nat,
{
    match expression_value(s) {
        Err(e) => Err(e),
        Ok((r, inner)) => Ok((r, Tree::Expression { children: seq![inner] })),
    }
}

/// `return ` and a function call, an expression or an identifier, the first that fits:
/// a `FunctionReturn` of it.
pub open spec fn function_return(s: Seq<char>) -> Parsed<Tree>
    decreases s.len(), 0nat, 0nat,
{
    match tag("return "@, s) {
        Err(e) => Err(e),
        Ok(r) => {
            proof {
                reveal_strlit("return ");
            }
            match function_call(r) {
                Ok((r2, value)) => Ok((r2, Tree::FunctionReturn { children: seq![value] })),
                Err(_) => match expression(r) {
                    Ok((r2, value)) => Ok((r2, Tree::FunctionReturn { children: seq![value] })),
                    Err(_) => match identifier(r) {
                        Ok((r2, value)) => Ok(
                            (r2, Tree::FunctionReturn { children: seq![value] }),
                        ),
                        Err(e) => Err(e),
                    },
                },
            }
        },
    }
}

/// `let `, a name, `=` and an expression, spaces allowed around `=`: a
/// `VariableDefine` of the name and the expression.
#[verifier::opaque]
pub open spec fn variable_define(s: Seq<char>) -> Parsed<Tree> {
    match tag("let "@, s) {
        Err(e) => Err(e),
        Ok(r) => match identifier(r) {
            Err(e) => Err(e),
            Ok((r2, name)) => match tag("="@, skip_tags(spaces(), r2)) {
                Err(e) => Err(e),
                Ok(r3) => match expression(skip_tags(spaces(), r3)) {
                    Err(e) => Err(e),
                    Ok((r4, value)) => Ok(
                        (r4, Tree::VariableDefine { children: seq![name, value] }),
                    ),
                },
            },
        },
    }
}

/// Spaces and tabs, then a variable definition or a `return`, then any number of `;`,
/// of spaces and of line feeds, in that order: a `Statement` of what was found.
#[verifier::opaque]
pub open spec fn statement(s: Seq<char>) -> Parsed<Tree> {
    let start = skip_tags(seq![" "@, "\t"@], s);
    let found = match variable_define(start) {
        Ok(done) => Ok(done),
        Err(_) => function_return(start),
    };
    match found {
        Err(e) => Err(e),
        Ok((r, inner)) => Ok(
            (
                skip_tags(seq!["\n"@], skip_tags(spaces(), skip_tags(seq![";"@], r))),
                Tree::Statement { children: seq![inner] },
            ),
        ),
    }
}

/// Zero or more statements, one after the other.
pub open spec fn more_statements(s: Seq<char>) -> Parsed<Seq<Tree>>
    decreases s.len(),
{
    match statement(s) {
        Err(_) => Ok((s, Seq::empty())),
        Ok((r, first)) => if r.len() >= s.len() {
            fail(s, ParseErrorKind::Many1)
        } else {
            match more_statements(r) {
                Err(e) => Err(e),
                Ok((r2, more)) => Ok((r2, seq![first] + more)),
            }
        },
    }
}

/// One or more statements, one after the other.
pub open spec fn statements(s: Seq<char>) -> Parsed<Seq<Tree>> {
    match statement(s) {
        Err(e) => Err(e),
        Ok((r, first)) => match more_statements(r) {
            Err(e) => Err(e),
            Ok((r2, more)) => Ok((r2, seq![first] + more)),
        },
    }
}

/// `fn `, a name, at most one list of parameters in round brackets, and a body of one
/// or more statements in curly brackets: a `FunctionDefine` of the name, the parameter
/// list if there is one, and the statements, in that order.
#[verifier::opaque]
pub open spec fn function_definition(s: Seq<char>) -> Parsed<Tree> {
    match tag("fn "@, s) {
        Err(e) => Err(e),
        Ok(r) => match identifier(r) {
            Err(e) => Err(e),
            Ok((r2, name)) => match tag("("@, r2) {
                Err(e) => Err(e),
                Ok(r3) => match args_list(r3) {
                    Err(e) => Err(e),
                    Ok((r4, params)) => match tag(")"@, r4) {
                        Err(e) => Err(e),
                        Ok(r5) => match tag("{"@, skip_tags(spaces(), r5)) {
                            Err(e) => Err(e),
                            Ok(r6) => match statements(skip_tags(seq!["\n"@], r6)) {
                                Err(e) => Err(e),
                                Ok((r7, body)) => match tag("}"@, r7) {
                                    Err(e) => Err(e),
                                    Ok(r8) => Ok(
                                        (
                                            skip_tags(blanks(), r8),
                                            Tree::FunctionDefine {
                                                children: seq![name] + params + body,
                                            },
                                        ),
                                    ),
                                },
                            },
                        },
                    },
                },
            },
        },
    }
}

/// One top-level item: a function definition, a statement or an expression, the first
/// that fits.
#[verifier::opaque]
pub open spec fn item(s: Seq<char>) -> Parsed<Tree> {
    match function_definition(s) {
        Ok(done) => Ok(done),
        Err(_) => match statement(s) {
            Ok(done) => Ok(done),
            Err(_) => expression(s),
        },
    }
}

/// Zero or more items, one after the other.
pub open spec fn more_items(s: Seq<char>) -> Parsed<Seq<Tree>>
    decreases s.len(),
{
    match item(s) {
        Err(_) => Ok((s, Seq::empty())),
        Ok((r, first)) => if r.len() >= s.len() {
            fail(s, ParseErrorKind::Many1)
        } else {
            match more_items(r) {
                Err(e) => Err(e),
                Ok((r2, more)) => Ok((r2, seq![first] + more)),
            }
        },
    }
}

/// One or more items, as a `Program` of them.
pub open spec fn program(s: Seq<char>) -> Parsed<Tree> {
    match item(s) {
        Err(e) => Err(e),
        Ok((r, first)) => match more_items(r) {
            Err(e) => Err(e),
            Ok((r2, more)) => Ok((r2, Tree::Program { children: seq![first] + more })),
        },
    }
}


/// Joining one more link onto a folded chain puts the whole chain under the new
/// operator, as its left operand.
pub proof fn lemma_fold_links_push(head: Tree, links: Seq<Tree>, link: Tree)
    ensures
        fold_links(head, links.push(link)) == join(fold_links(head, links), link),
    decreases links.len(),
{
    let longer = links.push(link);
    if links.len() == 0 {
        assert(longer.skip(1) =~= Seq::<Tree>::empty());
        assert(fold_links(join(head, link), longer.skip(1)) == join(head, link));
    } else {
        assert(longer.skip(1) =~= links.skip(1).push(link));
        lemma_fold_links_push(join(head, links[0]), links.skip(1), link);
    }
}

/// Whether `rest` is what is left of `text` once some of its front is taken.
pub open spec fn is_tail(rest: Seq<char>, text: Seq<char>) -> bool {
    rest.len() <= text.len() && rest == text.skip(text.len() - rest.len())
}

/// A text is a tail of itself.
pub proof fn lemma_tail_whole(s: Seq<char>)
    ensures
        is_tail(s, s),
{
    assert(s =~= s.skip(0));
}

/// A tail of a tail is a tail.
pub proof fn lemma_tail_of_tail(a: Seq<char>, b: Seq<char>, c: Seq<char>)
    requires
        is_tail(a, b),
        is_tail(b, c),
    ensures
        is_tail(a, c),
{
    assert(c.skip(c.len() - b.len()).skip(b.len() - a.len()) =~= c.skip(c.len() - a.len()));
}

/// What `tag` leaves of a tail of `s` is a tail of `s`.
pub proof fn lemma_tag_tail(word: Seq<char>, r: Seq<char>, s: Seq<char>)
    requires
        is_tail(r, s),
    ensures
        tag(word, r) matches Ok(rest) ==> is_tail(rest, s) && rest.len() + word.len() == r.len(),
{
    if let Ok(rest) = tag(word, r) {
        assert(rest =~= r.skip(r.len() - rest.len()));
        lemma_tail_of_tail(rest, r, s);
    }
}

/// What `first_tag` leaves of a tail of `s` is a tail of `s`.
pub proof fn lemma_first_tag_tail(words: Seq<Seq<char>>, r: Seq<char>, s: Seq<char>)
    requires
        is_tail(r, s),
    ensures
        first_tag(words, r) matches Ok((rest, _)) ==> is_tail(rest, s),
{
    lemma_first_tag(words, r);
    if let Ok((rest, word)) = first_tag(words, r) {
        assert(rest =~= r.skip(r.len() - rest.len()));
        lemma_tail_of_tail(rest, r, s);
    }
}

/// What `skip_tags` leaves of a tail of `s` is a tail of `s`.
pub proof fn lemma_skip_tags_tail(words: Seq<Seq<char>>, r: Seq<char>, s: Seq<char>)
    requires
        is_tail(r, s),
    ensures
        is_tail(skip_tags(words, r), s),
    decreases r.len(),
{
    if let Ok((rest, _)) = first_tag(words, r) {
        if rest.len() < r.len() {
            lemma_first_tag_tail(words, r, s);
            lemma_skip_tags_tail(words, rest, s);
        }
    }
}

/// What a run of letters and digits, a number, an identifier, a boolean or a string
/// leaves of a tail of `s` is a tail of `s`.
pub proof fn lemma_literal_tail(r: Seq<char>, s: Seq<char>)
    requires
        is_tail(r, s),
    ensures
        alphanumeric1(r) matches Ok((rest, _)) ==> is_tail(rest, s) && rest.len() < r.len(),
        number(r) matches Ok((rest, _)) ==> is_tail(rest, s),
        identifier(r) matches Ok((rest, _)) ==> is_tail(rest, s),
        boolean(r) matches Ok((rest, _)) ==> is_tail(rest, s),
        string(r) matches Ok((rest, _)) ==> is_tail(rest, s),
{
    lemma_leading_len(r, |c: char| is_alphanumeric(c));
    lemma_leading_len(r, |c: char| is_digit(c));
    if let Ok((rest, _)) = alphanumeric1(r) {
        assert(rest =~= r.skip(r.len() - rest.len()));
        lemma_tail_of_tail(rest, r, s);
    }
    if let Ok((rest, _)) = digit1(r) {
        assert(rest =~= r.skip(r.len() - rest.len()));
        lemma_tail_of_tail(rest, r, s);
    }
    lemma_first_tag_tail(seq!["true"@, "false"@], r, s);
    lemma_tag_tail("\""@, r, s);
    if let Ok(inner) = tag("\""@, r) {
        let n = leading(inner, |c: char| is_alphanumeric(c) || c == ' ');
        lemma_leading_len(inner, |c: char| is_alphanumeric(c) || c == ' ');
        let after = inner.skip(n as int);
        assert(after =~= inner.skip(inner.len() - after.len()));
        lemma_tail_of_tail(after, inner, s);
        lemma_tag_tail("\""@, after, s);
    }
}

/// What the head of a conditional branch leaves of a tail of `s` is a tail of `s`.
pub proof fn lemma_condition_tail(word: Seq<char>, r: Seq<char>, s: Seq<char>)
    requires
        is_tail(r, s),
    ensures
        condition(word, r) matches Ok((rest, _)) ==> is_tail(rest, s),
{
    lemma_tag_tail(word, r, s);
    if let Ok(r1) = tag(word, r) {
        lemma_skip_tags_tail(blanks(), r1, s);
        lemma_literal_tail(skip_tags(blanks(), r1), s);
        if let Ok((r2, _)) = boolean(skip_tags(blanks(), r1)) {
            lemma_skip_tags_tail(blanks(), r2, s);
        }
    }
}

/// What a function call leaves is a tail of what it was given.
pub proof fn lemma_function_call_tail(s: Seq<char>)
    ensures
        function_call(s) matches Ok((rest, _)) ==> is_tail(rest, s),
    decreases s.len(), 0nat, 1nat,
{
    lemma_tail_whole(s);
    lemma_literal_tail(s, s);
    if let Ok((r0, _)) = alphanumeric1(s) {
        lemma_tag_tail("("@, r0, s);
        if let Ok(r1) = tag("("@, r0) {
            lemma_args_list_tail(r1);
            if let Ok((r2, _)) = args_list(r1) {
                lemma_tail_of_tail(r2, r1, s);
                lemma_tag_tail(")"@, r2, s);
            }
        }
    }
}

/// What an optional list of arguments leaves is a tail of what it was given.
pub proof fn lemma_args_list_tail(s: Seq<char>)
    ensures
        args_list(s) matches Ok((rest, _)) ==> is_tail(rest, s),
    decreases s.len(), 9nat, 0nat,
{
    lemma_tail_whole(s);
    lemma_arguments_tail(s);
}

/// What a list of arguments leaves is a tail of what it was given.
pub proof fn lemma_arguments_tail(s: Seq<char>)
    ensures
        arguments(s) matches Ok((rest, _)) ==> is_tail(rest, s),
    decreases s.len(), 8nat, 0nat,
{
    lemma_expression_tail(s);
    if let Ok((r, _)) = expression(s) {
        lemma_other_args_tail(r);
        if let Ok((r2, _)) = other_args(r) {
            lemma_tail_of_tail(r2, r, s);
        }
    }
}

/// What a repetition of `other_arg` leaves is a tail of what it was given.
pub proof fn lemma_other_args_tail(s: Seq<char>)
    ensures
        other_args(s) matches Ok((rest, _)) ==> is_tail(rest, s),
    decreases s.len(), 0nat, 1nat,
{
    lemma_tail_whole(s);
    lemma_other_arg_tail(s);
    if let Ok((r, _)) = other_arg(s) {
        if r.len() < s.len() {
            lemma_other_args_tail(r);
            if let Ok((r2, _)) = other_args(r) {
                lemma_tail_of_tail(r2, r, s);
            }
        }
    }
}

/// What a comma with an expression leaves is a tail of what it was given.
pub proof fn lemma_other_arg_tail(s: Seq<char>)
    ensures
        other_arg(s) matches Ok((rest, _)) ==> is_tail(rest, s),
    decreases s.len(), 0nat, 0nat,
{
    lemma_tail_whole(s);
    lemma_tag_tail(","@, s, s);
    if let Ok(r) = tag(","@, s) {
        reveal_strlit(",");
        lemma_expression_tail(r);
        if let Ok((r2, _)) = expression(r) {
            lemma_tail_of_tail(r2, r, s);
        }
    }
}

/// What a bracketed expression leaves is a tail of what it was given.
pub proof fn lemma_parenthetical_expression_tail(s: Seq<char>)
    ensures
        parenthetical_expression(s) matches Ok((rest, _)) ==> is_tail(rest, s),
    decreases s.len(), 0nat, 1nat,
{
    lemma_tail_whole(s);
    lemma_skip_tags_tail(spaces(), s, s);
    lemma_tag_tail("("@, skip_tags(spaces(), s), s);
    if let Ok(r) = tag("("@, skip_tags(spaces(), s)) {
        reveal_strlit("(");
        let inner = skip_tags(spaces(), r);
        lemma_skip_tags_tail(spaces(), r, s);
        lemma_skip_tags_len(spaces(), r);
        lemma_chain_tail(Level::Sum, inner);
        if let Ok((r2, _)) = chain(Level::Sum, inner) {
            lemma_tail_of_tail(r2, inner, s);
            lemma_skip_tags_tail(spaces(), r2, s);
            lemma_tag_tail(")"@, skip_tags(spaces(), r2), s);
            if let Ok(r3) = tag(")"@, skip_tags(spaces(), r2)) {
                lemma_skip_tags_tail(spaces(), r3, s);
            }
        }
    }
}

/// What an atom leaves is a tail of what it was given.
pub proof fn lemma_l4_tail(s: Seq<char>)
    ensures
        l4(s) matches Ok((rest, _)) ==> is_tail(rest, s),
    decreases s.len(), 0nat, 2nat,
{
    lemma_tail_whole(s);
    lemma_function_call_tail(s);
    lemma_literal_tail(s, s);
    lemma_parenthetical_expression_tail(s);
}

/// What an operand leaves is a tail of what it was given.
pub proof fn lemma_operand_tail(level: Level, s: Seq<char>)
    ensures
        operand(level, s) matches Ok((rest, _)) ==> is_tail(rest, s),
    decreases s.len(), height(level), 0nat,
{
    match level {
        Level::Sum => lemma_chain_tail(Level::Product, s),
        Level::Product => lemma_chain_tail(Level::Power, s),
        Level::Power => lemma_l4_tail(s),
    }
}

/// What an operator with its right operand leaves is a tail of what it was given.
pub proof fn lemma_infix_tail(level: Level, s: Seq<char>)
    ensures
        infix(level, s) matches Ok((rest, _)) ==> is_tail(rest, s),
    decreases s.len(), height(level), 0nat,
{
    lemma_tail_whole(s);
    let at = skip_tags(spaces(), s);
    lemma_skip_tags_tail(spaces(), s, s);
    lemma_first_tag_tail(operators(level), at, s);
    lemma_first_tag(operators(level), at);
    lemma_operators(level);
    if let Ok((r, _)) = first_tag(operators(level), at) {
        let right = skip_tags(spaces(), r);
        lemma_skip_tags_tail(spaces(), r, s);
        lemma_skip_tags_len(spaces(), r);
        lemma_operand_tail(level, right);
        if let Ok((r2, _)) = operand(level, right) {
            lemma_tail_of_tail(r2, right, s);
        }
    }
}

/// What a repetition of links leaves is a tail of what it was given.
pub proof fn lemma_links_tail(level: Level, s: Seq<char>)
    ensures
        links(level, s) matches Ok((rest, _)) ==> is_tail(rest, s),
    decreases s.len(), height(level), 1nat,
{
    lemma_tail_whole(s);
    lemma_infix_tail(level, s);
    if let Ok((r, _)) = infix(level, s) {
        if r.len() < s.len() {
            lemma_links_tail(level, r);
            if let Ok((r2, _)) = links(level, r) {
                lemma_tail_of_tail(r2, r, s);
            }
        }
    }
}

/// What a chain leaves is a tail of what it was given.
pub proof fn lemma_chain_tail(level: Level, s: Seq<char>)
    ensures
        chain(level, s) matches Ok((rest, _)) ==> is_tail(rest, s),
    decreases s.len(), height(level), 2nat,
{
    lemma_operand_tail(level, s);
    if let Ok((r, _)) = operand(level, s) {
        lemma_links_tail(level, r);
        if let Ok((r2, _)) = links(level, r) {
            lemma_tail_of_tail(r2, r, s);
        }
    }
}

/// What one side of a comparison leaves is a tail of what it was given.
pub proof fn lemma_side_tail(s: Seq<char>)
    ensures
        side(s) matches Ok((rest, _)) ==> is_tail(rest, s),
    decreases s.len(), 5nat, 0nat,
{
    lemma_tail_whole(s);
    lemma_chain_tail(Level::Sum, s);
    lemma_function_call_tail(s);
    lemma_literal_tail(s, s);
}

/// What a comparison leaves is a tail of what it was given.
pub proof fn lemma_comparison_expression_tail(s: Seq<char>)
    ensures
        comparison_expression(s) matches Ok((rest, _)) ==> is_tail(rest, s),
    decreases s.len(), 6nat, 0nat,
{
    lemma_side_tail(s);
    if let Ok((r, _)) = side(s) {
        let at = skip_tags(spaces(), r);
        lemma_skip_tags_tail(spaces(), r, s);
        lemma_first_tag_tail(comparison_operators(), at, s);
        if let Ok((r2, _)) = first_tag(comparison_operators(), at) {
            let right = skip_tags(spaces(), r2);
            lemma_skip_tags_tail(spaces(), r2, s);
            lemma_side_tail(right);
            if let Ok((r3, _)) = side(right) {
                lemma_tail_of_tail(r3, right, s);
            }
        }
    }
}

/// What the body of a conditional branch leaves is a tail of what it was given.
pub proof fn lemma_block_tail(s: Seq<char>)
    ensures
        block(s) matches Ok((rest, _)) ==> is_tail(rest, s),
    decreases s.len(), 0nat, 0nat,
{
    lemma_tail_whole(s);
    lemma_tag_tail("{"@, s, s);
    if let Ok(r) = tag("{"@, s) {
        reveal_strlit("{");
        let at = skip_tags(blanks(), r);
        lemma_skip_tags_tail(blanks(), r, s);
        lemma_skip_tags_len(blanks(), r);
        lemma_function_return_tail(at);
        if let Ok((r2, _)) = function_return(at) {
            lemma_tail_of_tail(r2, at, s);
            lemma_tag_tail(";"@, r2, s);
            if let Ok(r3) = tag(";"@, r2) {
                lemma_skip_tags_tail(blanks(), r3, s);
                lemma_tag_tail("}"@, skip_tags(blanks(), r3), s);
                if let Ok(r4) = tag("}"@, skip_tags(blanks(), r3)) {
                    lemma_skip_tags_tail(blanks(), r4, s);
                }
            }
        }
    }
}

/// What each branch of a conditional leaves is a tail of what it was given.
pub proof fn lemma_branch_tail(s: Seq<char>)
    ensures
        if_branch(s) matches Ok((rest, _)) ==> is_tail(rest, s),
        elif_branch(s) matches Ok((rest, _)) ==> is_tail(rest, s),
        else_branch(s) matches Ok((rest, _)) ==> is_tail(rest, s),
    decreases s.len(), 0nat, 1nat,
{
    lemma_tail_whole(s);
    lemma_condition_tail("if"@, s, s);
    if let Ok((r, _)) = condition("if"@, s) {
        lemma_block_tail(r);
        if let Ok((r2, _)) = block(r) {
            lemma_tail_of_tail(r2, r, s);
        }
    }
    lemma_condition_tail("else if"@, s, s);
    if let Ok((r, _)) = condition("else if"@, s) {
        lemma_block_tail(r);
        if let Ok((r2, _)) = block(r) {
            lemma_tail_of_tail(r2, r, s);
        }
    }
    lemma_tag_tail("else"@, s, s);
    if let Ok(r) = tag("else"@, s) {
        let at = skip_tags(blanks(), r);
        lemma_skip_tags_tail(blanks(), r, s);
        lemma_block_tail(at);
        if let Ok((r2, _)) = block(at) {
            lemma_tail_of_tail(r2, at, s);
        }
    }
}

/// What a conditional leaves is a tail of what it was given.
pub proof fn lemma_if_expression_tail(s: Seq<char>)
    ensures
        if_expression(s) matches Ok((rest, _)) ==> is_tail(rest, s),
    decreases s.len(), 0nat, 2nat,
{
    lemma_tail_whole(s);
    let start = skip_tags(blanks(), s);
    lemma_skip_tags_tail(blanks(), s, s);
    lemma_branch_tail(start);
    if let Ok((r, _)) = if_branch(start) {
        lemma_tail_of_tail(r, start, s);
        let r1 = skip_tags(blanks(), r);
        lemma_skip_tags_tail(blanks(), r, s);
        lemma_branch_tail(r1);
        match elif_branch(r1) {
            Ok((r2, _)) => {
                lemma_tail_of_tail(r2, r1, s);
                let r3 = skip_tags(blanks(), r2);
                lemma_skip_tags_tail(blanks(), r2, s);
                lemma_branch_tail(r3);
                if let Ok((r4, _)) = else_branch(r3) {
                    lemma_tail_of_tail(r4, r3, s);
                }
            },
            Err(_) => {
                let r3 = skip_tags(blanks(), r1);
                lemma_skip_tags_tail(blanks(), r1, s);
                lemma_branch_tail(r3);
                if let Ok((r4, _)) = else_branch(r3) {
                    lemma_tail_of_tail(r4, r3, s);
                }
            },
        }
    }
}

/// What an expression wraps leaves a tail of what it was given.
pub proof fn lemma_expression_value_tail(s: Seq<char>)
    ensures
        expression_value(s) matches Ok((rest, _)) ==> is_tail(rest, s),
    decreases s.len(), 7nat, 0nat,
{
    lemma_tail_whole(s);
    lemma_if_expression_tail(s);
    lemma_comparison_expression_tail(s);
    lemma_chain_tail(Level::Sum, s);
    lemma_function_call_tail(s);
    lemma_literal_tail(s, s);
}

/// What an expression leaves is a tail of what it was given.
pub proof fn lemma_expression_tail(s: Seq<char>)
    ensures
        expression(s) matches Ok((rest, _)) ==> is_tail(rest, s),
    decreases s.len(), 7nat, 1nat,
{
    lemma_expression_value_tail(s);
}

/// What a `return` leaves is a tail of what it was given.
pub proof fn lemma_function_return_tail(s: Seq<char>)
    ensures
        function_return(s) matches Ok((rest, _)) ==> is_tail(rest, s),
    decreases s.len(), 0nat, 0nat,
{
    lemma_tail_whole(s);
    lemma_tag_tail("return "@, s, s);
    if let Ok(r) = tag("return "@, s) {
        reveal_strlit("return ");
        lemma_function_call_tail(r);
        if let Ok((r2, _)) = function_call(r) {
            lemma_tail_of_tail(r2, r, s);
        }
        lemma_expression_tail(r);
        if let Ok((r2, _)) = expression(r) {
            lemma_tail_of_tail(r2, r, s);
        }
        lemma_literal_tail(r, s);
    }
}

/// What a variable definition leaves is a tail of what it was given.
pub proof fn lemma_variable_define_tail(s: Seq<char>)
    ensures
        variable_define(s) matches Ok((rest, _)) ==> is_tail(rest, s),
{
    reveal(variable_define);
    lemma_tail_whole(s);
    lemma_tag_tail("let "@, s, s);
    if let Ok(r) = tag("let "@, s) {
        lemma_literal_tail(r, s);
        if let Ok((r2, _)) = identifier(r) {
            lemma_skip_tags_tail(spaces(), r2, s);
            lemma_tag_tail("="@, skip_tags(spaces(), r2), s);
            if let Ok(r3) = tag("="@, skip_tags(spaces(), r2)) {
                let at = skip_tags(spaces(), r3);
                lemma_skip_tags_tail(spaces(), r3, s);
                lemma_expression_tail(at);
                if let Ok((r4, _)) = expression(at) {
                    lemma_tail_of_tail(r4, at, s);
                }
            }
        }
    }
}

/// What a statement leaves is a tail of what it was given.
pub proof fn lemma_statement_tail(s: Seq<char>)
    ensures
        statement(s) matches Ok((rest, _)) ==> is_tail(rest, s),
{
    reveal(statement);
    lemma_tail_whole(s);
    let start = skip_tags(seq![" "@, "\t"@], s);
    lemma_skip_tags_tail(seq![" "@, "\t"@], s, s);
    lemma_variable_define_tail(start);
    lemma_function_return_tail(start);
    let found = match variable_define(start) {
        Ok(done) => Ok(done),
        Err(_) => function_return(start),
    };
    if let Ok((r, _)) = found {
        lemma_tail_of_tail(r, start, s);
        let r1 = skip_tags(seq![";"@], r);
        lemma_skip_tags_tail(seq![";"@], r, s);
        lemma_skip_tags_tail(spaces(), r1, s);
        lemma_skip_tags_tail(seq!["\n"@], skip_tags(spaces(), r1), s);
    }
}

/// What a repetition of statements leaves is a tail of what it was given.
pub proof fn lemma_more_statements_tail(s: Seq<char>)
    ensures
        more_statements(s) matches Ok((rest, _)) ==> is_tail(rest, s),
    decreases s.len(),
{
    lemma_tail_whole(s);
    lemma_statement_tail(s);
    if let Ok((r, _)) = statement(s) {
        if r.len() < s.len() {
            lemma_more_statements_tail(r);
            if let Ok((r2, _)) = more_statements(r) {
                lemma_tail_of_tail(r2, r, s);
            }
        }
    }
}

/// What a function definition leaves is a tail of what it was given.
pub proof fn lemma_function_definition_tail(s: Seq<char>)
    ensures
        function_definition(s) matches Ok((rest, _)) ==> is_tail(rest, s),
{
    reveal(function_definition);
    lemma_tail_whole(s);
    lemma_tag_tail("fn "@, s, s);
    if let Ok(r) = tag("fn "@, s) {
        lemma_literal_tail(r, s);
        if let Ok((r2, _)) = identifier(r) {
            lemma_tag_tail("("@, r2, s);
            if let Ok(r3) = tag("("@, r2) {
                lemma_args_list_tail(r3);
                if let Ok((r4, _)) = args_list(r3) {
                    lemma_tail_of_tail(r4, r3, s);
                    lemma_tag_tail(")"@, r4, s);
                    if let Ok(r5) = tag(")"@, r4) {
                        lemma_skip_tags_tail(spaces(), r5, s);
                        lemma_tag_tail("{"@, skip_tags(spaces(), r5), s);
                        if let Ok(r6) = tag("{"@, skip_tags(spaces(), r5)) {
                            let at = skip_tags(seq!["\n"@], r6);
                            lemma_skip_tags_tail(seq!["\n"@], r6, s);
                            lemma_statement_tail(at);
                            if let Ok((r7, _)) = statement(at) {
                                lemma_tail_of_tail(r7, at, s);
                                lemma_more_statements_tail(r7);
                                if let Ok((r8, _)) = more_statements(r7) {
                                    lemma_tail_of_tail(r8, r7, s);
                                    lemma_tag_tail("}"@, r8, s);
                                    if let Ok(r9) = tag("}"@, r8) {
                                        lemma_skip_tags_tail(blanks(), r9, s);
                                    }
                                }
                            }
                        }
                    }
                }
            }
        }
    }
}

/// What a top-level item leaves is a tail of what it was given.
pub proof fn lemma_item_tail(s: Seq<char>)
    ensures
        item(s) matches Ok((rest, _)) ==> is_tail(rest, s),
{
    reveal(item);
    lemma_function_definition_tail(s);
    lemma_statement_tail(s);
    lemma_expression_tail(s);
}

/// What a repetition of items leaves is a tail of what it was given.
pub proof fn lemma_more_items_tail(s: Seq<char>)
    ensures
        more_items(s) matches Ok((rest, _)) ==> is_tail(rest, s),
    decreases s.len(),
{
    lemma_tail_whole(s);
    lemma_item_tail(s);
    if let Ok((r, _)) = item(s) {
        if r.len() < s.len() {
            lemma_more_items_tail(r);
            if let Ok((r2, _)) = more_items(r) {
                lemma_tail_of_tail(r2, r, s);
            }
        }
    }
}

/// What a program leaves is a tail of what it was given.
pub proof fn lemma_program_tail(s: Seq<char>)
    ensures
        program(s) matches Ok((rest, _)) ==> is_tail(rest, s),
{
    lemma_item_tail(s);
    if let Ok((r, _)) = item(s) {
        lemma_more_items_tail(r);
        if let Ok((r2, _)) = more_items(r) {
            lemma_tail_of_tail(r2, r, s);
        }
    }
}

/// Whether `tree` is a `MathExpression` with one child.
pub open spec fn is_link(tree: Tree) -> bool {
    tree matches Tree::MathExpression { children, .. } && children.len() == 1
}

/// Each link that a repetition of links reads is a `MathExpression` with its right
/// operand as its only child.
pub proof fn lemma_links_are_links(level: Level, s: Seq<char>)
    ensures
        links(level, s) matches Ok((_, tail)) ==> forall|i: int|
            0 <= i < tail.len() ==> is_link(#[trigger] tail[i]),
    decreases s.len(),
{
    if let Ok((r, first)) = infix(level, s) {
        if r.len() < s.len() {
            lemma_links_are_links(level, r);
        }
    }
}

/// Operators of one level associate to the left. Where a chain of `level` reads an
/// operand `head` and then the links `tail`, it makes `head` itself of no link; of one
/// or more links it makes the last link's operator, applied to the chain of all that
/// stands before that operator and to the last link's operand.
pub proof fn lemma_chain_left_associative(level: Level, s: Seq<char>)
    ensures
        chain(level, s) matches Ok((rest, tree)) ==> {
            &&& operand(level, s) matches Ok((r, head))
            &&& links(level, r) matches Ok((r2, tail))
            &&& rest == r2
            &&& tail.len() == 0 ==> tree == head
            &&& tail.len() > 0 ==> (tail.last() matches Tree::MathExpression { name, children }
                && tree == (Tree::MathExpression {
                name,
                children: seq![fold_links(head, tail.drop_last()), children[0]],
            }))
        },
{
    if let Ok((r, head)) = operand(level, s) {
        lemma_operand_tail(level, s);
        lemma_links_are_links(level, r);
        if let Ok((r2, tail)) = links(level, r) {
            if tail.len() > 0 {
                assert(tail.drop_last().push(tail.last()) =~= tail);
                lemma_fold_links_push(head, tail.drop_last(), tail.last());
                if let Tree::MathExpression { name, children } = tail.last() {
                    assert(seq![fold_links(head, tail.drop_last())] + children =~= seq![
                        fold_links(head, tail.drop_last()),
                        children[0],
                    ]);
                }
            }
        }
    }
}

/// Whether `parts` are a condition and a body as the grammar makes them: a `Bool` and
/// a `FunctionReturn`.
pub open spec fn is_guarded_body(parts: Seq<Tree>) -> bool {
    parts.len() == 2 && parts[0] is Bool && parts[1] is FunctionReturn
}

/// Whether `tree` is a conditional as the grammar makes it: an `if` branch first, an
/// `else` branch last, and at most an `else if` branch between them.
pub open spec fn is_conditional(tree: Tree) -> bool {
    &&& tree is IfExpression
    &&& tree->IfExpression_children.len() == 2 || tree->IfExpression_children.len() == 3
    &&& tree->IfExpression_children[0] is IfBranch
    &&& is_guarded_body(tree->IfExpression_children[0]->IfBranch_children)
    &&& tree->IfExpression_children.last() is ElseBranch
    &&& tree->IfExpression_children.last()->ElseBranch_children.len() == 1
    &&& tree->IfExpression_children.last()->ElseBranch_children[0] is FunctionReturn
    &&& tree->IfExpression_children.len() == 3 ==> tree->IfExpression_children[1] is ElifBranch
        && is_guarded_body(tree->IfExpression_children[1]->ElifBranch_children)
}

/// Every conditional that the grammar reads has the shape of a conditional.
pub proof fn lemma_if_expression_shape(s: Seq<char>)
    ensures
        if_expression(s) matches Ok((_, tree)) ==> is_conditional(tree),
{
    let start = left_of(s, skip_tags(blanks(), s));
    if let Ok((r, first)) = if_branch(start) {
        let r1 = left_of(s, skip_tags(blanks(), r));
        match elif_branch(r1) {
            Ok((r2, second)) => {
                if let Ok((_, last)) = else_branch(left_of(s, skip_tags(blanks(), r2))) {
                    let children = seq![first, second, last];
                    assert(children.last() == last);
                }
            },
            Err(_) => {
                if let Ok((_, last)) = else_branch(left_of(s, skip_tags(blanks(), r1))) {
                    let children = seq![first, last];
                    assert(children.last() == last);
                }
            },
        }
    }
}

/// Whether `tree` is of a kind that stands at the top level of a program.
pub open spec fn is_item(tree: Tree) -> bool {
    tree is FunctionDefine || tree is Statement || tree is Expression
}

/// Every item that the grammar reads is a function definition, a statement or an
/// expression.
pub proof fn lemma_item_shape(s: Seq<char>)
    ensures
        item(s) matches Ok((_, tree)) ==> is_item(tree),
{
    reveal(item);
    reveal(function_definition);
    reveal(statement);
}

/// Every entry of a repetition of items is an item.
pub proof fn lemma_more_items_shape(s: Seq<char>)
    ensures
        more_items(s) matches Ok((_, items)) ==> forall|i: int|
            0 <= i < items.len() ==> is_item(#[trigger] items[i]),
    decreases s.len(),
{
    lemma_item_shape(s);
    if let Ok((r, _)) = item(s) {
        if r.len() < s.len() {
            lemma_more_items_shape(r);
        }
    }
}

/// Every program that the grammar reads is a `Program` of one or more items.
pub proof fn lemma_program_shape(s: Seq<char>)
    ensures
        program(s) matches Ok((_, tree)) ==> {
            &&& tree is Program
            &&& tree->Program_children.len() >= 1
            &&& forall|i: int|
                0 <= i < tree->Program_children.len() ==> is_item(
                    #[trigger] tree->Program_children[i],
                )
        },
{
    lemma_item_shape(s);
    if let Ok((r, _)) = item(s) {
        lemma_more_items_shape(r);
    }
}

} // verus!
