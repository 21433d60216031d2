use crate::ast::{lemma_trees_of, trees_of, Node, Tree};
use crate::grammar;
use crate::grammar::{Failure, Level, ParseErrorKind, Parsed};
use crate::text::{is_alphanumeric, is_digit, take_alphanumeric, take_digits, take_tag};
use vstd::prelude::*;
use vstd::string::StringExecFns;

verus! {

/// Why a rule did not fit: the input at which it gave up, and what it missed there.
#[derive(Debug, PartialEq, Eq)]
pub struct ParseError<'a> {
    pub input: &'a str,
    pub kind: ParseErrorKind,
}

impl<'a> View for ParseError<'a> {
    type V = Failure;

    open spec fn view(&self) -> Failure {
        Failure { rest: self.input@, kind: self.kind }
    }
}

/// What a rule hands back: the input that it left and what it made, or its error.
pub type ParseResult<'a, T> = Result<(&'a str, T), ParseError<'a>>;

/// The outcome that a result with a node stands for.
pub open spec fn parsed_tree(res: ParseResult<Node>) -> Parsed<Tree> {
    match res {
        Ok((rest, node)) => Ok((rest@, node@)),
        Err(e) => Err(e@),
    }
}

/// The outcome that a result with a list of nodes stands for.
pub open spec fn parsed_trees(res: ParseResult<Vec<Node>>) -> Parsed<Seq<Tree>> {
    match res {
        Ok((rest, nodes)) => Ok((rest@, trees_of(nodes@))),
        Err(e) => Err(e@),
    }
}

/// The outcome that a result with a piece of text stands for.
pub open spec fn parsed_text(res: ParseResult<&str>) -> Parsed<Seq<char>> {
    match res {
        Ok((rest, text)) => Ok((rest@, text@)),
        Err(e) => Err(e@),
    }
}

/// The character sequences of a list of words.
pub open spec fn word_views(words: Seq<&'static str>) -> Seq<Seq<char>> {
    words.map_values(|w: &'static str| w@)
}

/// A prefix of `n` characters that all satisfy `keep`, and that ends the text or is
/// followed by a character that does not, is the leading run.
pub proof fn lemma_leading_is(s: Seq<char>, keep: spec_fn(char) -> bool, n: nat)
    requires
        n <= s.len(),
        forall|i: int| 0 <= i < n ==> keep(#[trigger] s[i]),
        n == s.len() || !keep(s[n as int]),
    ensures
        grammar::leading(s, keep) == n,
    decreases n,
{
    if n > 0 {
        let t = s.skip(1);
        assert forall|i: int| 0 <= i < n - 1 implies keep(#[trigger] t[i]) by {
            assert(t[i] == s[i + 1]);
        }
        lemma_leading_is(t, keep, (n - 1) as nat);
    }
}

/// The number of a run of digits is at least the number of each of its prefixes.
pub proof fn lemma_decimal_prefix(digits: Seq<char>, k: nat)
    requires
        k <= digits.len(),
        forall|i: int| 0 <= i < digits.len() ==> is_digit(#[trigger] digits[i]),
    ensures
        grammar::decimal(digits.take(k as int)) <= grammar::decimal(digits),
    decreases digits.len() - k,
{
    if k < digits.len() {
        lemma_decimal_prefix(digits, k + 1);
        let longer = digits.take(k as int + 1);
        assert(longer.drop_last() =~= digits.take(k as int));
        assert(longer.last() == digits[k as int]);
    } else {
        assert(digits.take(k as int) =~= digits);
    }
}

/// Takes `word` from the front of `input`.
fn expect<'a>(word: &str, input: &'a str) -> (res: Result<&'a str, ParseError<'a>>)
    ensures
        match res {
            Ok(rest) => grammar::tag(word@, input@) == Ok::<Seq<char>, Failure>(rest@),
            Err(e) => grammar::tag(word@, input@) == Err::<Seq<char>, Failure>(e@),
        },
{
    match take_tag(word, input) {
        Some(rest) => {
            assert(word@ =~= input@.subrange(0, word@.len() as int));
            assert(rest@ =~= input@.skip(word@.len() as int));
            Ok(rest)
        },
        None => Err(ParseError { input, kind: ParseErrorKind::Tag }),
    }
}

/// Takes the first of `words` that `input` begins with, and tells which it was.
fn one_of<'a>(words: &Vec<&'static str>, input: &'a str) -> (res: ParseResult<'a, &'static str>)
    ensures
        parsed_text(res) == grammar::first_tag(word_views(words@), input@),
{
    let mut i: usize = 0;
    assert(word_views(words@).skip(0) =~= word_views(words@));
    while i < words.len()
        invariant
            i <= words.len(),
            grammar::first_tag(word_views(words@), input@) == grammar::first_tag(
                word_views(words@).skip(i as int),
                input@,
            ),
        decreases words.len() - i,
    {
        let ghost pending = word_views(words@).skip(i as int);
        assert(pending[0] == words@[i as int]@);
        match expect(words[i], input) {
            Ok(rest) => {
                return Ok((rest, words[i]));
            },
            Err(_) => {
                assert(pending.skip(1) =~= word_views(words@).skip(i + 1));
            },
        }
        i += 1;
    }
    Err(ParseError { input, kind: ParseErrorKind::Tag })
}

/// Takes every leading occurrence of one of `words` from `input`.
fn skip<'a>(words: &Vec<&'static str>, input: &'a str) -> (rest: &'a str)
    requires
        forall|i: int| 0 <= i < words@.len() ==> (#[trigger] words@[i])@.len() > 0,
    ensures
        rest@ == grammar::skip_tags(word_views(words@), input@),
        rest@.len() <= input@.len(),
{
    let mut rest = input;
    loop
        invariant
            forall|i: int| 0 <= i < words@.len() ==> (#[trigger] words@[i])@.len() > 0,
            grammar::skip_tags(word_views(words@), input@) == grammar::skip_tags(
                word_views(words@),
                rest@,
            ),
            rest@.len() <= input@.len(),
        ensures
            rest@ == grammar::skip_tags(word_views(words@), input@),
            rest@.len() <= input@.len(),
        decreases rest@.len(),
    {
        proof {
            grammar::lemma_first_tag(word_views(words@), rest@);
        }
        match one_of(words, rest) {
            Ok((next, word)) => {
                proof {
                    let w = word_views(words@);
                    let i = choose|i: int| 0 <= i < w.len() && w[i] == word@;
                    assert(w[i] == words@[i]@);
                }
                rest = next;
            },
            Err(_) => {
                break ;
            },
        }
    }
    rest
}

/// Takes every leading space from `input`.
fn skip_spaces<'a>(input: &'a str) -> (rest: &'a str)
    ensures
        rest@ == grammar::skip_tags(grammar::spaces(), input@),
        rest@.len() <= input@.len(),
{
    let words: Vec<&'static str> = vec![" "];
    proof {
        reveal_strlit(" ");
        assert(word_views(words@) =~= grammar::spaces());
    }
    skip(&words, input)
}

/// Takes every leading line feed and space from `input`.
fn skip_blanks<'a>(input: &'a str) -> (rest: &'a str)
    ensures
        rest@ == grammar::skip_tags(grammar::blanks(), input@),
        rest@.len() <= input@.len(),
{
    let words: Vec<&'static str> = vec!["\n", " "];
    proof {
        reveal_strlit(" ");
        reveal_strlit("\n");
        assert(word_views(words@) =~= grammar::blanks());
    }
    skip(&words, input)
}

/// Takes one or more letters and digits from the front of `input`.
fn alphanumeric<'a>(input: &'a str) -> (res: ParseResult<'a, &'a str>)
    ensures
        parsed_text(res) == grammar::alphanumeric1(input@),
        res matches Ok((rest, _)) ==> rest@.len() < input@.len(),
{
    let ghost keep = |c: char| is_alphanumeric(c);
    match take_alphanumeric(input) {
        Some((rest, run)) => {
            proof {
                assert forall|i: int| 0 <= i < run@.len() implies keep(#[trigger] input@[i]) by {
                    assert(input@[i] == run@[i]);
                }
                if rest@.len() > 0 {
                    assert(input@[run@.len() as int] == rest@[0]);
                }
                lemma_leading_is(input@, keep, run@.len());
                assert(input@.skip(run@.len() as int) =~= rest@);
                assert(input@.take(run@.len() as int) =~= run@);
            }
            Ok((rest, run))
        },
        None => {
            proof {
                lemma_leading_is(input@, keep, 0);
            }
            Err(ParseError { input, kind: ParseErrorKind::AlphaNumeric })
        },
    }
}

/// Takes one or more digits from the front of `input`.
fn digits<'a>(input: &'a str) -> (res: ParseResult<'a, &'a str>)
    ensures
        parsed_text(res) == grammar::digit1(input@),
        res matches Ok((rest, run)) ==> rest@.len() < input@.len() && forall|i: int|
            0 <= i < run@.len() ==> is_digit(#[trigger] run@[i]),
{
    let ghost keep = |c: char| is_digit(c);
    match take_digits(input) {
        Some((rest, run)) => {
            proof {
                assert forall|i: int| 0 <= i < run@.len() implies keep(#[trigger] input@[i]) by {
                    assert(input@[i] == run@[i]);
                }
                if rest@.len() > 0 {
                    assert(input@[run@.len() as int] == rest@[0]);
                }
                lemma_leading_is(input@, keep, run@.len());
                assert(input@.skip(run@.len() as int) =~= rest@);
                assert(input@.take(run@.len() as int) =~= run@);
            }
            Ok((rest, run))
        },
        None => {
            proof {
                lemma_leading_is(input@, keep, 0);
            }
            Err(ParseError { input, kind: ParseErrorKind::Digit })
        },
    }
}

/// The number that a run of digits writes, unless it is above `i32::MAX`.
fn decimal_value(run: &str) -> (value: Option<i32>)
    requires
        forall|i: int| 0 <= i < run@.len() ==> is_digit(#[trigger] run@[i]),
    ensures
        match value {
            Some(v) => grammar::decimal(run@) == v,
            None => grammar::decimal(run@) > i32::MAX,
        },
{
    let bytes = run.as_bytes();
    proof {
        assert(vstd::utf8::is_ascii_chars(run@));
        vstd::utf8::is_ascii_chars_encode_utf8(run@);
    }
    let mut acc: u64 = 0;
    let mut i: usize = 0;
    assert(run@.take(0) =~= Seq::<char>::empty());
    while i < bytes.len()
        invariant
            i <= bytes.len(),
            bytes@.len() == run@.len(),
            forall|j: int| 0 <= j < run@.len() ==> is_digit(#[trigger] run@[j]),
            forall|j: int| 0 <= j < run@.len() ==> run@[j] as u8 == #[trigger] bytes@[j],
            acc == grammar::decimal(run@.take(i as int)),
            acc <= i32::MAX,
        decreases bytes.len() - i,
    {
        let d: u64 = (bytes[i] - 0x30) as u64;
        let ghost longer = run@.take(i + 1);
        proof {
            assert(is_digit(run@[i as int]));
            assert(longer.drop_last() =~= run@.take(i as int));
            assert(longer.last() == run@[i as int]);
        }
        acc = acc * 10 + d;
        i += 1;
        if acc > 0x7FFF_FFFF {
            proof {
                lemma_decimal_prefix(run@, i as nat);
            }
            return None;
        }
    }
    assert(run@.take(i as int) =~= run@);
    Some(acc as i32)
}

/// One or more letters and digits, as an `Identifier` of them.
pub fn identifier<'a>(input: &'a str) -> (res: ParseResult<'a, Node>)
    ensures
        parsed_tree(res) == grammar::identifier(input@),
        res matches Ok((rest, _)) ==> rest@.len() < input@.len(),
{
    match alphanumeric(input) {
        Ok((rest, name)) => Ok((rest, Node::Identifier { value: String::from_str(name) })),
        Err(e) => Err(e),
    }
}

/// One or more digits, as the `Number` that they write. A run of digits that writes a
/// number above `i32::MAX` is refused.
pub fn number<'a>(input: &'a str) -> (res: ParseResult<'a, Node>)
    ensures
        parsed_tree(res) == grammar::number(input@),
        res matches Ok((rest, _)) ==> rest@.len() < input@.len(),
{
    match digits(input) {
        Ok((rest, run)) => match decimal_value(run) {
            Some(value) => Ok((rest, Node::Number { value })),
            None => Err(ParseError { input, kind: ParseErrorKind::TooLarge }),
        },
        Err(e) => Err(e),
    }
}

/// `true` or `false`, as a `Bool`.
pub fn boolean<'a>(input: &'a str) -> (res: ParseResult<'a, Node>)
    ensures
        parsed_tree(res) == grammar::boolean(input@),
        res matches Ok((rest, _)) ==> rest@.len() < input@.len(),
{
    let words: Vec<&'static str> = vec!["true", "false"];
    proof {
        reveal_strlit("true");
        reveal_strlit("false");
        assert(word_views(words@) =~= seq!["true"@, "false"@]);
        grammar::lemma_first_tag(word_views(words@), input@);
    }
    match one_of(&words, input) {
        Ok((rest, word)) => {
            match expect("true", word) {
                Ok(_) => {
                    assert(word@ =~= "true"@);
                    Ok((rest, Node::Bool { value: true }))
                },
                Err(_) => Ok((rest, Node::Bool { value: false })),
            }
        },
        Err(e) => Err(e),
    }
}

/// A quoted run of letters, digits and spaces, as a `String` of the run.
pub fn string<'a>(input: &'a str) -> (res: ParseResult<'a, Node>)
    ensures
        parsed_tree(res) == grammar::string(input@),
        res matches Ok((rest, _)) ==> rest@.len() < input@.len(),
{
    let inner = match expect("\"", input) {
        Ok(inner) => inner,
        Err(e) => {
            return Err(e);
        },
    };
    let ghost keep = |c: char| is_alphanumeric(c) || c == ' ';
    let mut value = String::new();
    let mut rest = inner;
    proof {
        reveal_strlit("\"");
        reveal_strlit(" ");
        assert(value@ + rest@ =~= inner@);
    }
    loop
        invariant
            keep == |c: char| is_alphanumeric(c) || c == ' ',
            value@ + rest@ == inner@,
            forall|i: int| 0 <= i < value@.len() ==> keep(#[trigger] value@[i]),
        ensures
            value@ + rest@ == inner@,
            forall|i: int| 0 <= i < value@.len() ==> keep(#[trigger] value@[i]),
            rest@.len() == 0 || !keep(rest@[0]),
        decreases rest@.len(),
    {
        let ghost before = value@;
        let ghost pending = rest@;
        match take_alphanumeric(rest) {
            Some((next, run)) => {
                value.append(run);
                rest = next;
                proof {
                    assert(value@ + rest@ =~= before + pending);
                    assert forall|i: int| 0 <= i < value@.len() implies keep(
                        #[trigger] value@[i],
                    ) by {
                        if i >= before.len() {
                            assert(value@[i] == run@[i - before.len()]);
                        } else {
                            assert(value@[i] == before[i]);
                        }
                    }
                }
            },
            None => match take_tag(" ", rest) {
                Some(next) => {
                    value.append(" ");
                    rest = next;
                    proof {
                        reveal_strlit(" ");
                        assert(value@ + rest@ =~= before + pending);
                        assert forall|i: int| 0 <= i < value@.len() implies keep(
                            #[trigger] value@[i],
                        ) by {
                            if i >= before.len() {
                                assert(value@[i] == ' ');
                            } else {
                                assert(value@[i] == before[i]);
                            }
                        }
                    }
                },
                None => {
                    proof {
                        reveal_strlit(" ");
                        if pending.len() > 0 && pending[0] == ' ' {
                            assert(" "@ =~= pending.subrange(0, 1));
                        }
                    }
                    break ;
                },
            },
        }
    }
    proof {
        let n = value@.len();
        assert forall|i: int| 0 <= i < n implies keep(#[trigger] inner@[i]) by {
            assert(inner@[i] == value@[i]);
        }
        if rest@.len() > 0 {
            assert(inner@[n as int] == rest@[0]);
        }
        lemma_leading_is(inner@, keep, n);
        assert(inner@.skip(n as int) =~= rest@);
        assert(inner@.take(n as int) =~= value@);
    }
    match expect("\"", rest) {
        Ok(rest) => Ok((rest, Node::String { value })),
        Err(e) => Err(e),
    }
}


/// `trees_of` goes through concatenation.
pub proof fn lemma_trees_of_concat(a: Seq<Node>, b: Seq<Node>)
    ensures
        trees_of(a + b) == trees_of(a) + trees_of(b),
{
    lemma_trees_of(a);
    lemma_trees_of(b);
    lemma_trees_of(a + b);
    assert(trees_of(a + b) =~= trees_of(a) + trees_of(b));
}

/// A list of one node.
fn list1(a: Node) -> (list: Vec<Node>)
    ensures
        trees_of(list@) == seq![a@],
{
    let list = vec![a];
    proof {
        lemma_trees_of(list@);
        assert(trees_of(list@) =~= seq![a@]);
    }
    list
}

/// A list of two nodes.
fn list2(a: Node, b: Node) -> (list: Vec<Node>)
    ensures
        trees_of(list@) == seq![a@, b@],
{
    let list = vec![a, b];
    proof {
        lemma_trees_of(list@);
        assert(trees_of(list@) =~= seq![a@, b@]);
    }
    list
}

/// A list of three nodes.
fn list3(a: Node, b: Node, c: Node) -> (list: Vec<Node>)
    ensures
        trees_of(list@) == seq![a@, b@, c@],
{
    let list = vec![a, b, c];
    proof {
        lemma_trees_of(list@);
        assert(trees_of(list@) =~= seq![a@, b@, c@]);
    }
    list
}

/// `first` put before `rest`.
fn prepend(first: Node, rest: Vec<Node>) -> (list: Vec<Node>)
    ensures
        trees_of(list@) == seq![first@] + trees_of(rest@),
{
    let mut list = rest;
    list.insert(0, first);
    proof {
        assert(list@ =~= seq![first] + rest@);
        lemma_trees_of_concat(seq![first], rest@);
        lemma_trees_of(seq![first]);
        assert(trees_of(seq![first]) =~= seq![first@]);
    }
    list
}

/// `more` put behind `list`.
fn push_node(list: &mut Vec<Node>, more: Node)
    ensures
        trees_of(final(list)@) == trees_of(old(list)@).push(more@),
{
    list.push(more);
    proof {
        assert(list@.drop_last() =~= old(list)@);
    }
}

/// `prefix` put before what `p` made.
pub open spec fn after_prefix(prefix: Seq<Tree>, p: Parsed<Seq<Tree>>) -> Parsed<Seq<Tree>> {
    match p {
        Ok((rest, more)) => Ok((rest, prefix + more)),
        Err(e) => Err(e),
    }
}

/// `head` folded with the links that `p` made.
pub open spec fn folded(head: Tree, p: Parsed<Seq<Tree>>) -> Parsed<Tree> {
    match p {
        Ok((rest, tail)) => Ok((rest, grammar::fold_links(head, tail))),
        Err(e) => Err(e),
    }
}

/// `head` as the left operand of `link`.
fn join_nodes(head: Node, link: Node) -> (joined: Node)
    ensures
        joined@ == grammar::join(head@, link@),
{
    match link {
        Node::MathExpression { name, children } => {
            let children = prepend(head, children);
            Node::MathExpression { name, children }
        },
        _ => head,
    }
}

/// A name and, in round brackets, at most one list of arguments: a `FunctionCall` of
/// the list, if there is one.
pub fn function_call<'a>(input: &'a str) -> (res: ParseResult<'a, Node>)
    ensures
        parsed_tree(res) == grammar::function_call(input@),
        res matches Ok((rest, _)) ==> rest@.len() < input@.len(),
    decreases input@.len(), 0nat, 1nat,
{
    let (r0, name) = match alphanumeric(input) {
        Ok(found) => found,
        Err(e) => {
            return Err(e);
        },
    };
    let r1 = match expect("(", r0) {
        Ok(rest) => rest,
        Err(e) => {
            return Err(e);
        },
    };
    let (r2, args) = match args_list(r1) {
        Ok(found) => found,
        Err(e) => {
            return Err(e);
        },
    };
    match expect(")", r2) {
        Ok(r3) => Ok((r3, Node::FunctionCall { name: String::from_str(name), children: args })),
        Err(e) => Err(e),
    }
}

/// At most one `arguments`: the list that it made, alone, or nothing.
fn args_list<'a>(input: &'a str) -> (res: ParseResult<'a, Vec<Node>>)
    ensures
        parsed_trees(res) == grammar::args_list(input@),
        res matches Ok((rest, _)) ==> rest@.len() <= input@.len(),
    decreases input@.len(), 9nat, 0nat,
{
    match arguments(input) {
        Ok((rest, list)) => Ok((rest, list1(list))),
        Err(_) => {
            let none: Vec<Node> = Vec::new();
            proof {
                lemma_trees_of(none@);
                assert(trees_of(none@) =~= Seq::<Tree>::empty());
            }
            Ok((input, none))
        },
    }
}

/// One expression and then zero or more `other_arg`, as a `FunctionArguments` of them.
pub fn arguments<'a>(input: &'a str) -> (res: ParseResult<'a, Node>)
    ensures
        parsed_tree(res) == grammar::arguments(input@),
        res matches Ok((rest, _)) ==> rest@.len() < input@.len(),
    decreases input@.len(), 8nat, 0nat,
{
    let (r, first) = match expression(input) {
        Ok(found) => found,
        Err(e) => {
            return Err(e);
        },
    };
    match other_args(r) {
        Ok((r2, more)) => Ok((r2, Node::FunctionArguments { children: prepend(first, more) })),
        Err(e) => Err(e),
    }
}

/// Zero or more `other_arg`, one after the other.
fn other_args<'a>(input: &'a str) -> (res: ParseResult<'a, Vec<Node>>)
    ensures
        parsed_trees(res) == grammar::other_args(input@),
        res matches Ok((rest, _)) ==> rest@.len() <= input@.len(),
    decreases input@.len(), 0nat, 1nat,
{
    let mut nodes: Vec<Node> = Vec::new();
    let mut rest = input;
    assert(after_prefix(trees_of(nodes@), grammar::other_args(rest@)) =~= grammar::other_args(
        input@,
    ));
    loop
        invariant
            rest@.len() <= input@.len(),
            grammar::other_args(input@) == after_prefix(
                trees_of(nodes@),
                grammar::other_args(rest@),
            ),
        ensures
            rest@.len() <= input@.len(),
            grammar::other_args(input@) == Ok::<(Seq<char>, Seq<Tree>), Failure>(
                (rest@, trees_of(nodes@)),
            ),
        decreases rest@.len(),
    {
        match other_arg(rest) {
            Ok((next, node)) => {
                let ghost before = trees_of(nodes@);
                push_node(&mut nodes, node);
                proof {
                    let tail = grammar::other_args(next@);
                    assert(after_prefix(before, after_prefix(seq![node@], tail)) =~= after_prefix(
                        trees_of(nodes@),
                        tail,
                    )) by {
                        if let Ok((r, more)) = tail {
                            assert(before + (seq![node@] + more) =~= before.push(node@) + more);
                        }
                    }
                }
                rest = next;
            },
            Err(_) => {
                assert(trees_of(nodes@) + Seq::<Tree>::empty() =~= trees_of(nodes@));
                break ;
            },
        }
    }
    Ok((rest, nodes))
}

/// A comma and an expression.
pub fn other_arg<'a>(input: &'a str) -> (res: ParseResult<'a, Node>)
    ensures
        parsed_tree(res) == grammar::other_arg(input@),
        res matches Ok((rest, _)) ==> rest@.len() < input@.len(),
    decreases input@.len(), 0nat, 0nat,
{
    let r = match expect(",", input) {
        Ok(rest) => rest,
        Err(e) => {
            return Err(e);
        },
    };
    proof {
        reveal_strlit(",");
    }
    expression(r)
}

/// An arithmetic expression in round brackets, spaces allowed around each bracket.
pub fn parenthetical_expression<'a>(input: &'a str) -> (res: ParseResult<'a, Node>)
    ensures
        parsed_tree(res) == grammar::parenthetical_expression(input@),
        res matches Ok((rest, _)) ==> rest@.len() < input@.len(),
    decreases input@.len(), 0nat, 1nat,
{
    let r0 = skip_spaces(input);
    let r = match expect("(", r0) {
        Ok(rest) => rest,
        Err(e) => {
            return Err(e);
        },
    };
    proof {
        reveal_strlit("(");
    }
    let r1 = skip_spaces(r);
    let (r2, inner) = match chain(Level::Sum, r1) {
        Ok(found) => found,
        Err(e) => {
            return Err(e);
        },
    };
    let r3 = skip_spaces(r2);
    match expect(")", r3) {
        Ok(r4) => Ok((skip_spaces(r4), inner)),
        Err(e) => Err(e),
    }
}

/// An atom: a function call, a number, an identifier or a bracketed expression, the
/// first that fits.
pub fn l4<'a>(input: &'a str) -> (res: ParseResult<'a, Node>)
    ensures
        parsed_tree(res) == grammar::l4(input@),
        res matches Ok((rest, _)) ==> rest@.len() < input@.len(),
    decreases input@.len(), 0nat, 2nat,
{
    if let Ok(found) = function_call(input) {
        return Ok(found);
    }
    if let Ok(found) = number(input) {
        return Ok(found);
    }
    if let Ok(found) = identifier(input) {
        return Ok(found);
    }
    parenthetical_expression(input)
}

/// One unit of the level next tighter than `level`; above `Power` that is an atom.
pub fn operand<'a>(level: Level, input: &'a str) -> (res: ParseResult<'a, Node>)
    ensures
        parsed_tree(res) == grammar::operand(level, input@),
        res matches Ok((rest, _)) ==> rest@.len() < input@.len(),
    decreases input@.len(), grammar::height(level), 0nat,
{
    match level {
        Level::Sum => chain(Level::Product, input),
        Level::Product => chain(Level::Power, input),
        Level::Power => l4(input),
    }
}

/// The operators of `level`, in the order in which they are tried.
fn operator_words(level: Level) -> (words: Vec<&'static str>)
    ensures
        word_views(words@) == grammar::operators(level),
        forall|i: int| 0 <= i < words@.len() ==> (#[trigger] words@[i])@.len() == 1,
{
    proof {
        reveal_strlit("+");
        reveal_strlit("-");
        reveal_strlit("*");
        reveal_strlit("/");
        reveal_strlit("^");
    }
    let words: Vec<&'static str> = match level {
        Level::Sum => vec!["+", "-"],
        Level::Product => vec!["*", "/"],
        Level::Power => vec!["^"],
    };
    assert(word_views(words@) =~= grammar::operators(level));
    words
}

/// An operator of `level` and its right operand, spaces allowed around the operator:
/// a `MathExpression` named by the operator, whose only child is that operand.
pub fn infix<'a>(level: Level, input: &'a str) -> (res: ParseResult<'a, Node>)
    ensures
        parsed_tree(res) == grammar::infix(level, input@),
        res matches Ok((rest, _)) ==> rest@.len() < input@.len(),
    decreases input@.len(), grammar::height(level), 0nat,
{
    let words = operator_words(level);
    let r0 = skip_spaces(input);
    proof {
        grammar::lemma_first_tag(word_views(words@), r0@);
    }
    let (r, op) = match one_of(&words, r0) {
        Ok(found) => found,
        Err(e) => {
            return Err(e);
        },
    };
    proof {
        let w = word_views(words@);
        let i = choose|i: int| 0 <= i < w.len() && w[i] == op@;
        assert(w[i] == words@[i]@);
    }
    let r1 = skip_spaces(r);
    match operand(level, r1) {
        Ok((r2, right)) => Ok(
            (r2, Node::MathExpression { name: String::from_str(op), children: list1(right) }),
        ),
        Err(e) => Err(e),
    }
}

/// A chain of `level`: one operand, then zero or more operator-operand pairs, folded
/// from the left, so that each operator takes all that stands before it as its left
/// operand.
pub fn chain<'a>(level: Level, input: &'a str) -> (res: ParseResult<'a, Node>)
    ensures
        parsed_tree(res) == grammar::chain(level, input@),
        res matches Ok((rest, _)) ==> rest@.len() < input@.len(),
    decreases input@.len(), grammar::height(level), 2nat,
{
    let (start, first) = match operand(level, input) {
        Ok(found) => found,
        Err(e) => {
            return Err(e);
        },
    };
    let mut head = first;
    let mut rest = start;
    let ghost goal = folded(head@, grammar::links(level, start@));
    loop
        invariant
            rest@.len() <= start@.len(),
            start@.len() < input@.len(),
            goal == folded(head@, grammar::links(level, rest@)),
        ensures
            rest@.len() <= start@.len(),
            goal == Ok::<(Seq<char>, Tree), Failure>((rest@, head@)),
        decreases rest@.len(),
    {
        match infix(level, rest) {
            Ok((next, link)) => {
                proof {
                    if let Ok((r, more)) = grammar::links(level, next@) {
                        assert((seq![link@] + more).skip(1) =~= more);
                    }
                }
                head = join_nodes(head, link);
                rest = next;
            },
            Err(_) => {
                break ;
            },
        }
    }
    Ok((rest, head))
}

/// An atom and then zero or more `l3_infix`, folded from the left.
pub fn l3<'a>(input: &'a str) -> (res: ParseResult<'a, Node>)
    ensures
        parsed_tree(res) == grammar::chain(Level::Power, input@),
        res matches Ok((rest, _)) ==> rest@.len() < input@.len(),
{
    chain(Level::Power, input)
}

/// `^` and an atom, spaces allowed around the operator.
pub fn l3_infix<'a>(input: &'a str) -> (res: ParseResult<'a, Node>)
    ensures
        parsed_tree(res) == grammar::infix(Level::Power, input@),
        res matches Ok((rest, _)) ==> rest@.len() < input@.len(),
{
    infix(Level::Power, input)
}

/// An `l3` and then zero or more `l2_infix`, folded from the left.
pub fn l2<'a>(input: &'a str) -> (res: ParseResult<'a, Node>)
    ensures
        parsed_tree(res) == grammar::chain(Level::Product, input@),
        res matches Ok((rest, _)) ==> rest@.len() < input@.len(),
{
    chain(Level::Product, input)
}

/// `*` or `/` and an `l3`, spaces allowed around the operator.
pub fn l2_infix<'a>(input: &'a str) -> (res: ParseResult<'a, Node>)
    ensures
        parsed_tree(res) == grammar::infix(Level::Product, input@),
        res matches Ok((rest, _)) ==> rest@.len() < input@.len(),
{
    infix(Level::Product, input)
}

/// An `l2` and then zero or more `l1_infix`, folded from the left.
pub fn l1<'a>(input: &'a str) -> (res: ParseResult<'a, Node>)
    ensures
        parsed_tree(res) == grammar::chain(Level::Sum, input@),
        res matches Ok((rest, _)) ==> rest@.len() < input@.len(),
{
    chain(Level::Sum, input)
}

/// `+` or `-` and an `l2`, spaces allowed around the operator.
pub fn l1_infix<'a>(input: &'a str) -> (res: ParseResult<'a, Node>)
    ensures
        parsed_tree(res) == grammar::infix(Level::Sum, input@),
        res matches Ok((rest, _)) ==> rest@.len() < input@.len(),
{
    infix(Level::Sum, input)
}

/// An arithmetic expression: sums of products of powers of atoms.
pub fn math_expression<'a>(input: &'a str) -> (res: ParseResult<'a, Node>)
    ensures
        parsed_tree(res) == grammar::math_expression(input@),
        res matches Ok((rest, _)) ==> rest@.len() < input@.len(),
    decreases input@.len(), 4nat, 0nat,
{
    chain(Level::Sum, input)
}

/// One side of a comparison: an arithmetic expression, a function call, a number, a
/// boolean or an identifier, the first that fits.
fn side<'a>(input: &'a str) -> (res: ParseResult<'a, Node>)
    ensures
        parsed_tree(res) == grammar::side(input@),
        res matches Ok((rest, _)) ==> rest@.len() < input@.len(),
    decreases input@.len(), 5nat, 0nat,
{
    if let Ok(found) = math_expression(input) {
        return Ok(found);
    }
    if let Ok(found) = function_call(input) {
        return Ok(found);
    }
    if let Ok(found) = number(input) {
        return Ok(found);
    }
    if let Ok(found) = boolean(input) {
        return Ok(found);
    }
    identifier(input)
}

/// One side, a comparison operator, the other side, spaces allowed around the
/// operator: a `ComparisonExpression` named by the operator.
pub fn comparison_expression<'a>(input: &'a str) -> (res: ParseResult<'a, Node>)
    ensures
        parsed_tree(res) == grammar::comparison_expression(input@),
        res matches Ok((rest, _)) ==> rest@.len() < input@.len(),
    decreases input@.len(), 6nat, 0nat,
{
    let (r, left) = match side(input) {
        Ok(found) => found,
        Err(e) => {
            return Err(e);
        },
    };
    let words: Vec<&'static str> = vec![">=", "<=", "==", "!=", ">", "<"];
    assert(word_views(words@) =~= grammar::comparison_operators());
    let r1 = skip_spaces(r);
    proof {
        grammar::lemma_first_tag(word_views(words@), r1@);
    }
    let (r2, op) = match one_of(&words, r1) {
        Ok(found) => found,
        Err(e) => {
            return Err(e);
        },
    };
    let r3 = skip_spaces(r2);
    match side(r3) {
        Ok((r4, right)) => Ok(
            (
                r4,
                Node::ComparisonExpression {
                    name: String::from_str(op),
                    children: list2(left, right),
                },
            ),
        ),
        Err(e) => Err(e),
    }
}

/// `word`, blanks, `true` or `false`, blanks.
fn condition<'a>(word: &str, input: &'a str) -> (res: ParseResult<'a, Node>)
    ensures
        parsed_tree(res) == grammar::condition(word@, input@),
        res matches Ok((rest, _)) ==> rest@.len() < input@.len(),
{
    let r = match expect(word, input) {
        Ok(rest) => rest,
        Err(e) => {
            return Err(e);
        },
    };
    let r1 = skip_blanks(r);
    match boolean(r1) {
        Ok((r2, cond)) => Ok((skip_blanks(r2), cond)),
        Err(e) => Err(e),
    }
}

/// The body of a conditional branch: `{`, a `return`, `;`, `}`, blanks allowed after
/// each of `{`, `;` and `}`.
fn block<'a>(input: &'a str) -> (res: ParseResult<'a, Node>)
    ensures
        parsed_tree(res) == grammar::block(input@),
        res matches Ok((rest, _)) ==> rest@.len() < input@.len(),
    decreases input@.len(), 0nat, 0nat,
{
    let r = match expect("{", input) {
        Ok(rest) => rest,
        Err(e) => {
            return Err(e);
        },
    };
    proof {
        reveal_strlit("{");
    }
    let r1 = skip_blanks(r);
    let (r2, ret) = match function_return(r1) {
        Ok(found) => found,
        Err(e) => {
            return Err(e);
        },
    };
    let r3 = match expect(";", r2) {
        Ok(rest) => rest,
        Err(e) => {
            return Err(e);
        },
    };
    let r4 = skip_blanks(r3);
    match expect("}", r4) {
        Ok(r5) => Ok((skip_blanks(r5), ret)),
        Err(e) => Err(e),
    }
}

/// `if`, a boolean and a body, as an `IfBranch` of the condition and the `return`.
pub fn if_branch<'a>(input: &'a str) -> (res: ParseResult<'a, Node>)
    ensures
        parsed_tree(res) == grammar::if_branch(input@),
        res matches Ok((rest, _)) ==> rest@.len() < input@.len(),
    decreases input@.len(), 0nat, 1nat,
{
    let (r, cond) = match condition("if", input) {
        Ok(found) => found,
        Err(e) => {
            return Err(e);
        },
    };
    match block(r) {
        Ok((r2, ret)) => Ok((r2, Node::IfBranch { children: list2(cond, ret) })),
        Err(e) => Err(e),
    }
}

/// `else if`, a boolean and a body, as an `ElifBranch` of the condition and the
/// `return`.
pub fn elif_branch<'a>(input: &'a str) -> (res: ParseResult<'a, Node>)
    ensures
        parsed_tree(res) == grammar::elif_branch(input@),
        res matches Ok((rest, _)) ==> rest@.len() < input@.len(),
    decreases input@.len(), 0nat, 1nat,
{
    let (r, cond) = match condition("else if", input) {
        Ok(found) => found,
        Err(e) => {
            return Err(e);
        },
    };
    match block(r) {
        Ok((r2, ret)) => Ok((r2, Node::ElifBranch { children: list2(cond, ret) })),
        Err(e) => Err(e),
    }
}

/// `else` and a body, as an `ElseBranch` of the `return`.
pub fn else_branch<'a>(input: &'a str) -> (res: ParseResult<'a, Node>)
    ensures
        parsed_tree(res) == grammar::else_branch(input@),
        res matches Ok((rest, _)) ==> rest@.len() < input@.len(),
    decreases input@.len(), 0nat, 1nat,
{
    let r = match expect("else", input) {
        Ok(rest) => rest,
        Err(e) => {
            return Err(e);
        },
    };
    let r1 = skip_blanks(r);
    match block(r1) {
        Ok((r2, ret)) => Ok((r2, Node::ElseBranch { children: list1(ret) })),
        Err(e) => Err(e),
    }
}

/// An `if` branch, at most one `else if` branch and an `else` branch, blanks allowed
/// before each: an `IfExpression` of the branches that are there.
pub fn if_expression<'a>(input: &'a str) -> (res: ParseResult<'a, Node>)
    ensures
        parsed_tree(res) == grammar::if_expression(input@),
        res matches Ok((rest, _)) ==> rest@.len() < input@.len(),
    decreases input@.len(), 0nat, 2nat,
{
    let r0 = skip_blanks(input);
    let (r, first) = match if_branch(r0) {
        Ok(found) => found,
        Err(e) => {
            return Err(e);
        },
    };
    let r1 = skip_blanks(r);
    match elif_branch(r1) {
        Ok((r2, second)) => {
            let r3 = skip_blanks(r2);
            match else_branch(r3) {
                Ok((r4, last)) => Ok(
                    (r4, Node::IfExpression { children: list3(first, second, last) }),
                ),
                Err(e) => Err(e),
            }
        },
        Err(_) => {
            let r3 = skip_blanks(r1);
            match else_branch(r3) {
                Ok((r4, last)) => Ok((r4, Node::IfExpression { children: list2(first, last) })),
                Err(e) => Err(e),
            }
        },
    }
}

/// The first that fits of: a conditional, a boolean, a comparison, an arithmetic
/// expression, a function call, a number, a string, an identifier.
fn expression_value<'a>(input: &'a str) -> (res: ParseResult<'a, Node>)
    ensures
        parsed_tree(res) == grammar::expression_value(input@),
        res matches Ok((rest, _)) ==> rest@.len() < input@.len(),
    decreases input@.len(), 7nat, 0nat,
{
    if let Ok(found) = if_expression(input) {
        return Ok(found);
    }
    if let Ok(found) = boolean(input) {
        return Ok(found);
    }
    if let Ok(found) = comparison_expression(input) {
        return Ok(found);
    }
    if let Ok(found) = math_expression(input) {
        return Ok(found);
    }
    if let Ok(found) = function_call(input) {
        return Ok(found);
    }
    if let Ok(found) = number(input) {
        return Ok(found);
    }
    if let Ok(found) = string(input) {
        return Ok(found);
    }
    identifier(input)
}

/// An expression: an `Expression` around the first that fits of a conditional, a
/// boolean, a comparison, an arithmetic expression, a function call, a number, a
/// string, an identifier.
pub fn expression<'a>(input: &'a str) -> (res: ParseResult<'a, Node>)
    ensures
        parsed_tree(res) == grammar::expression(input@),
        res matches Ok((rest, _)) ==> rest@.len() < input@.len(),
    decreases input@.len(), 7nat, 1nat,
{
    match expression_value(input) {
        Ok((rest, inner)) => Ok((rest, Node::Expression { children: list1(inner) })),
        Err(e) => Err(e),
    }
}

/// `return ` and a function call, an expression or an identifier, the first that fits:
/// a `FunctionReturn` of it.
pub fn function_return<'a>(input: &'a str) -> (res: ParseResult<'a, Node>)
    ensures
        parsed_tree(res) == grammar::function_return(input@),
        res matches Ok((rest, _)) ==> rest@.len() < input@.len(),
    decreases input@.len(), 0nat, 0nat,
{
    let r = match expect("return ", input) {
        Ok(rest) => rest,
        Err(e) => {
            return Err(e);
        },
    };
    proof {
        reveal_strlit("return ");
    }
    if let Ok((r2, value)) = function_call(r) {
        return Ok((r2, Node::FunctionReturn { children: list1(value) }));
    }
    if let Ok((r2, value)) = expression(r) {
        return Ok((r2, Node::FunctionReturn { children: list1(value) }));
    }
    match identifier(r) {
        Ok((r2, value)) => Ok((r2, Node::FunctionReturn { children: list1(value) })),
        Err(e) => Err(e),
    }
}

/// `let `, a name, `=` and an expression, spaces allowed around `=`: a
/// `VariableDefine` of the name and the expression.
pub fn variable_define<'a>(input: &'a str) -> (res: ParseResult<'a, Node>)
    ensures
        parsed_tree(res) == grammar::variable_define(input@),
        res matches Ok((rest, _)) ==> rest@.len() < input@.len(),
{
    reveal(grammar::variable_define);
    let r = match expect("let ", input) {
        Ok(rest) => rest,
        Err(e) => {
            return Err(e);
        },
    };
    let (r2, name) = match identifier(r) {
        Ok(found) => found,
        Err(e) => {
            return Err(e);
        },
    };
    let r3 = skip_spaces(r2);
    let r4 = match expect("=", r3) {
        Ok(rest) => rest,
        Err(e) => {
            return Err(e);
        },
    };
    let r5 = skip_spaces(r4);
    match expression(r5) {
        Ok((r6, value)) => Ok((r6, Node::VariableDefine { children: list2(name, value) })),
        Err(e) => Err(e),
    }
}

/// Takes every leading occurrence of `first` or `second`.
fn skip_two<'a>(first: &'static str, second: &'static str, input: &'a str) -> (rest: &'a str)
    requires
        first@.len() > 0,
        second@.len() > 0,
    ensures
        rest@ == grammar::skip_tags(seq![first@, second@], input@),
        rest@.len() <= input@.len(),
{
    let words: Vec<&'static str> = vec![first, second];
    assert(word_views(words@) =~= seq![first@, second@]);
    skip(&words, input)
}

/// Takes every leading occurrence of `word`.
fn skip_one<'a>(word: &'static str, input: &'a str) -> (rest: &'a str)
    requires
        word@.len() > 0,
    ensures
        rest@ == grammar::skip_tags(seq![word@], input@),
        rest@.len() <= input@.len(),
{
    let words: Vec<&'static str> = vec![word];
    assert(word_views(words@) =~= seq![word@]);
    skip(&words, input)
}

/// Spaces and tabs, then a variable definition or a `return`, then any number of `;`,
/// of spaces and of line feeds, in that order: a `Statement` of what was found.
pub fn statement<'a>(input: &'a str) -> (res: ParseResult<'a, Node>)
    ensures
        parsed_tree(res) == grammar::statement(input@),
        res matches Ok((rest, _)) ==> rest@.len() < input@.len(),
{
    reveal(grammar::statement);
    proof {
        reveal_strlit(" ");
        reveal_strlit("\t");
        reveal_strlit(";");
        reveal_strlit("\n");
    }
    let start = skip_two(" ", "\t", input);
    let (r, inner) = match variable_define(start) {
        Ok(found) => found,
        Err(_) => match function_return(start) {
            Ok(found) => found,
            Err(e) => {
                return Err(e);
            },
        },
    };
    let r1 = skip_one(";", r);
    let r2 = skip_spaces(r1);
    let r3 = skip_one("\n", r2);
    Ok((r3, Node::Statement { children: list1(inner) }))
}

/// Zero or more statements, one after the other.
fn more_statements<'a>(input: &'a str) -> (res: ParseResult<'a, Vec<Node>>)
    ensures
        parsed_trees(res) == grammar::more_statements(input@),
        res matches Ok((rest, _)) ==> rest@.len() <= input@.len(),
{
    let mut nodes: Vec<Node> = Vec::new();
    let mut rest = input;
    assert(after_prefix(trees_of(nodes@), grammar::more_statements(rest@))
        =~= grammar::more_statements(input@));
    loop
        invariant
            rest@.len() <= input@.len(),
            grammar::more_statements(input@) == after_prefix(
                trees_of(nodes@),
                grammar::more_statements(rest@),
            ),
        ensures
            rest@.len() <= input@.len(),
            grammar::more_statements(input@) == Ok::<(Seq<char>, Seq<Tree>), Failure>(
                (rest@, trees_of(nodes@)),
            ),
        decreases rest@.len(),
    {
        match statement(rest) {
            Ok((next, node)) => {
                let ghost before = trees_of(nodes@);
                push_node(&mut nodes, node);
                proof {
                    let tail = grammar::more_statements(next@);
                    assert(after_prefix(before, after_prefix(seq![node@], tail)) =~= after_prefix(
                        trees_of(nodes@),
                        tail,
                    )) by {
                        if let Ok((r, more)) = tail {
                            assert(before + (seq![node@] + more) =~= before.push(node@) + more);
                        }
                    }
                }
                rest = next;
            },
            Err(_) => {
                assert(trees_of(nodes@) + Seq::<Tree>::empty() =~= trees_of(nodes@));
                break ;
            },
        }
    }
    Ok((rest, nodes))
}

/// `fn `, a name, at most one list of parameters in round brackets, and a body of one
/// or more statements in curly brackets: a `FunctionDefine` of the name, the parameter
/// list if there is one, and the statements, in that order.
pub fn function_definition<'a>(input: &'a str) -> (res: ParseResult<'a, Node>)
    ensures
        parsed_tree(res) == grammar::function_definition(input@),
        res matches Ok((rest, _)) ==> rest@.len() < input@.len(),
{
    reveal(grammar::function_definition);
    proof {
        reveal_strlit(" ");
        reveal_strlit("\n");
    }
    let r = match expect("fn ", input) {
        Ok(rest) => rest,
        Err(e) => {
            return Err(e);
        },
    };
    let (r2, name) = match identifier(r) {
        Ok(found) => found,
        Err(e) => {
            return Err(e);
        },
    };
    let r3 = match expect("(", r2) {
        Ok(rest) => rest,
        Err(e) => {
            return Err(e);
        },
    };
    let (r4, params) = match args_list(r3) {
        Ok(found) => found,
        Err(e) => {
            return Err(e);
        },
    };
    let r5 = match expect(")", r4) {
        Ok(rest) => rest,
        Err(e) => {
            return Err(e);
        },
    };
    let r6 = match expect("{", skip_spaces(r5)) {
        Ok(rest) => rest,
        Err(e) => {
            return Err(e);
        },
    };
    let r7 = skip_one("\n", r6);
    let (r8, first) = match statement(r7) {
        Ok(found) => found,
        Err(e) => {
            return Err(e);
        },
    };
    let (r9, more) = match more_statements(r8) {
        Ok(found) => found,
        Err(e) => {
            return Err(e);
        },
    };
    let r10 = match expect("}", r9) {
        Ok(rest) => rest,
        Err(e) => {
            return Err(e);
        },
    };
    let mut children = prepend(name, params);
    let mut body = prepend(first, more);
    proof {
        lemma_trees_of_concat(children@, body@);
    }
    children.append(&mut body);
    Ok((skip_blanks(r10), Node::FunctionDefine { children }))
}

/// One top-level item: a function definition, a statement or an expression, the first
/// that fits.
fn item<'a>(input: &'a str) -> (res: ParseResult<'a, Node>)
    ensures
        parsed_tree(res) == grammar::item(input@),
        res matches Ok((rest, _)) ==> rest@.len() < input@.len(),
{
    reveal(grammar::item);
    if let Ok(found) = function_definition(input) {
        return Ok(found);
    }
    if let Ok(found) = statement(input) {
        return Ok(found);
    }
    expression(input)
}

/// One or more function definitions, statements and expressions, as a `Program` of
/// them.
pub fn program<'a>(input: &'a str) -> (res: ParseResult<'a, Node>)
    ensures
        parsed_tree(res) == grammar::program(input@),
        res matches Ok((rest, _)) ==> rest@.len() < input@.len(),
{
    let (start, first) = match item(input) {
        Ok(found) => found,
        Err(e) => {
            return Err(e);
        },
    };
    let mut nodes: Vec<Node> = Vec::new();
    let mut rest = start;
    assert(after_prefix(trees_of(nodes@), grammar::more_items(rest@)) =~= grammar::more_items(
        start@,
    ));
    loop
        invariant
            rest@.len() <= start@.len(),
            grammar::more_items(start@) == after_prefix(
                trees_of(nodes@),
                grammar::more_items(rest@),
            ),
        ensures
            rest@.len() <= start@.len(),
            grammar::more_items(start@) == Ok::<(Seq<char>, Seq<Tree>), Failure>(
                (rest@, trees_of(nodes@)),
            ),
        decreases rest@.len(),
    {
        match item(rest) {
            Ok((next, node)) => {
                let ghost before = trees_of(nodes@);
                push_node(&mut nodes, node);
                proof {
                    let tail = grammar::more_items(next@);
                    assert(after_prefix(before, after_prefix(seq![node@], tail)) =~= after_prefix(
                        trees_of(nodes@),
                        tail,
                    )) by {
                        if let Ok((r, more)) = tail {
                            assert(before + (seq![node@] + more) =~= before.push(node@) + more);
                        }
                    }
                }
                rest = next;
            },
            Err(_) => {
                assert(trees_of(nodes@) + Seq::<Tree>::empty() =~= trees_of(nodes@));
                break ;
            },
        }
    }
    Ok((rest, Node::Program { children: prepend(first, nodes) }))
}

} // verus!
