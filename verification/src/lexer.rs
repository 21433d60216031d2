use vstd::prelude::*;
use vstd::string::StringSliceAdditionalSpecFns;

verus! {

/// One token of the scanner. Single-byte tokens carry the byte they were read from.
#[derive(Debug, PartialEq)]
pub enum Token {
    /// One of `fn`, `false`, `true`, `return`, `let`, as its bytes.
    Keyword(Vec<u8>),
    /// `a`-`z`, `A`-`Z`.
    Alpha(u8),
    /// `0`-`9`.
    Digit(u8),
    LeftParen(u8),
    RightParen(u8),
    LeftCurly(u8),
    RightCurly(u8),
    Equal(u8),
    Plus(u8),
    Dash(u8),
    Quote(u8),
    /// Space, tab, carriage return, line feed.
    WhiteSpace(u8),
    Semicolon(u8),
    Comma(u8),
    Other(),
    EOF,
}

/// What a `Token` stands for.
pub enum Lexeme {
    Keyword(Seq<u8>),
    Alpha(u8),
    Digit(u8),
    LeftParen(u8),
    RightParen(u8),
    LeftCurly(u8),
    RightCurly(u8),
    Equal(u8),
    Plus(u8),
    Dash(u8),
    Quote(u8),
    WhiteSpace(u8),
    Semicolon(u8),
    Comma(u8),
    Other,
    EOF,
}

impl View for Token {
    type V = Lexeme;

    open spec fn view(&self) -> Lexeme {
        match *self {
            Token::Keyword(word) => Lexeme::Keyword(word@),
            Token::Alpha(b) => Lexeme::Alpha(b),
            Token::Digit(b) => Lexeme::Digit(b),
            Token::LeftParen(b) => Lexeme::LeftParen(b),
            Token::RightParen(b) => Lexeme::RightParen(b),
            Token::LeftCurly(b) => Lexeme::LeftCurly(b),
            Token::RightCurly(b) => Lexeme::RightCurly(b),
            Token::Equal(b) => Lexeme::Equal(b),
            Token::Plus(b) => Lexeme::Plus(b),
            Token::Dash(b) => Lexeme::Dash(b),
            Token::Quote(b) => Lexeme::Quote(b),
            Token::WhiteSpace(b) => Lexeme::WhiteSpace(b),
            Token::Semicolon(b) => Lexeme::Semicolon(b),
            Token::Comma(b) => Lexeme::Comma(b),
            Token::Other() => Lexeme::Other,
            Token::EOF => Lexeme::EOF,
        }
    }
}

/// The lexemes of a sequence of tokens, in order.
pub open spec fn lexemes_of(tokens: Seq<Token>) -> Seq<Lexeme> {
    tokens.map_values(|t: Token| t@)
}

impl Clone for Token {
    fn clone(&self) -> (copy: Token)
        ensures
            copy@ == self@,
    {
        match self {
            Token::Keyword(word) => {
                let w = word.clone();
                assert(w@ =~= word@);
                Token::Keyword(w)
            },
            Token::Alpha(b) => Token::Alpha(*b),
            Token::Digit(b) => Token::Digit(*b),
            Token::LeftParen(b) => Token::LeftParen(*b),
            Token::RightParen(b) => Token::RightParen(*b),
            Token::LeftCurly(b) => Token::LeftCurly(*b),
            Token::RightCurly(b) => Token::RightCurly(*b),
            Token::Equal(b) => Token::Equal(*b),
            Token::Plus(b) => Token::Plus(*b),
            Token::Dash(b) => Token::Dash(*b),
            Token::Quote(b) => Token::Quote(*b),
            Token::WhiteSpace(b) => Token::WhiteSpace(*b),
            Token::Semicolon(b) => Token::Semicolon(*b),
            Token::Comma(b) => Token::Comma(*b),
            Token::Other() => Token::Other(),
            Token::EOF => Token::EOF,
        }
    }
}

/// The bytes of `fn`.
pub open spec fn word_fn() -> Seq<u8> {
    seq![0x66u8, 0x6Eu8]
}

/// The bytes of `false`.
pub open spec fn word_false() -> Seq<u8> {
    seq![0x66u8, 0x61u8, 0x6Cu8, 0x73u8, 0x65u8]
}

/// The bytes of `true`.
pub open spec fn word_true() -> Seq<u8> {
    seq![0x74u8, 0x72u8, 0x75u8, 0x65u8]
}

/// The bytes of `return`.
pub open spec fn word_return() -> Seq<u8> {
    seq![0x72u8, 0x65u8, 0x74u8, 0x75u8, 0x72u8, 0x6Eu8]
}

/// The bytes of `let`.
pub open spec fn word_let() -> Seq<u8> {
    seq![0x6Cu8, 0x65u8, 0x74u8]
}

/// The keyword that `bytes` begins with, if it begins with one.
pub open spec fn leading_keyword(bytes: Seq<u8>) -> Option<Seq<u8>> {
    if word_fn().is_prefix_of(bytes) {
        Some(word_fn())
    } else if word_false().is_prefix_of(bytes) {
        Some(word_false())
    } else if word_true().is_prefix_of(bytes) {
        Some(word_true())
    } else if word_return().is_prefix_of(bytes) {
        Some(word_return())
    } else if word_let().is_prefix_of(bytes) {
        Some(word_let())
    } else {
        None
    }
}

/// The lexeme of a single byte that starts no keyword.
pub open spec fn classify(b: u8) -> Lexeme {
    if (0x41 <= b <= 0x5A) || (0x61 <= b <= 0x7A) {
        Lexeme::Alpha(b)
    } else if 0x30 <= b <= 0x39 {
        Lexeme::Digit(b)
    } else if b == 0x28 {
        Lexeme::LeftParen(b)
    } else if b == 0x29 {
        Lexeme::RightParen(b)
    } else if b == 0x7B {
        Lexeme::LeftCurly(b)
    } else if b == 0x7D {
        Lexeme::RightCurly(b)
    } else if b == 0x3D {
        Lexeme::Equal(b)
    } else if b == 0x2B {
        Lexeme::Plus(b)
    } else if b == 0x2D {
        Lexeme::Dash(b)
    } else if b == 0x22 {
        Lexeme::Quote(b)
    } else if b == 0x20 || b == 0x0D || b == 0x09 || b == 0x0A {
        Lexeme::WhiteSpace(b)
    } else if b == 0x3B {
        Lexeme::Semicolon(b)
    } else if b == 0x2C {
        Lexeme::Comma(b)
    } else {
        Lexeme::Other
    }
}

/// The lexemes of a byte string: wherever a keyword begins it is taken whole, every
/// other byte is classified by itself, and `EOF` closes the sequence.
pub open spec fn scan(bytes: Seq<u8>) -> Seq<Lexeme>
    decreases bytes.len(),
{
    if bytes.len() == 0 {
        seq![Lexeme::EOF]
    } else {
        match leading_keyword(bytes) {
            Some(word) => seq![Lexeme::Keyword(word)] + scan(bytes.skip(word.len() as int)),
            None => seq![classify(bytes[0])] + scan(bytes.skip(1)),
        }
    }
}

/// Whether `word` stands in `bytes` at index `at`.
fn has_word_at(bytes: &[u8], at: usize, word: &Vec<u8>) -> (found: bool)
    requires
        at <= bytes.len(),
    ensures
        found == word@.is_prefix_of(bytes@.skip(at as int)),
{
    if word.len() > bytes.len() - at {
        return false;
    }
    let mut i: usize = 0;
    while i < word.len()
        invariant
            at <= bytes.len(),
            word.len() <= bytes.len() - at,
            i <= word.len(),
            forall|j: int| 0 <= j < i ==> word@[j] == bytes@[at + j],
        decreases word.len() - i,
    {
        if word[i] != bytes[at + i] {
            assert(bytes@.skip(at as int).subrange(0, word@.len() as int)[i as int] != word@[i as int]);
            return false;
        }
        i += 1;
    }
    assert(word@ =~= bytes@.skip(at as int).subrange(0, word@.len() as int));
    true
}

/// The token of a single byte.
fn classify_byte(b: u8) -> (token: Token)
    ensures
        token@ == classify(b),
{
    if (0x41 <= b && b <= 0x5A) || (0x61 <= b && b <= 0x7A) {
        Token::Alpha(b)
    } else if 0x30 <= b && b <= 0x39 {
        Token::Digit(b)
    } else if b == 0x28 {
        Token::LeftParen(b)
    } else if b == 0x29 {
        Token::RightParen(b)
    } else if b == 0x7B {
        Token::LeftCurly(b)
    } else if b == 0x7D {
        Token::RightCurly(b)
    } else if b == 0x3D {
        Token::Equal(b)
    } else if b == 0x2B {
        Token::Plus(b)
    } else if b == 0x2D {
        Token::Dash(b)
    } else if b == 0x22 {
        Token::Quote(b)
    } else if b == 0x20 || b == 0x0D || b == 0x09 || b == 0x0A {
        Token::WhiteSpace(b)
    } else if b == 0x3B {
        Token::Semicolon(b)
    } else if b == 0x2C {
        Token::Comma(b)
    } else {
        Token::Other()
    }
}

/// The keyword that stands in `bytes` at `at`, if one does.
fn keyword_at(bytes: &[u8], at: usize) -> (word: Option<Vec<u8>>)
    requires
        at <= bytes.len(),
    ensures
        match word {
            Some(w) => leading_keyword(bytes@.skip(at as int)) == Some(w@),
            None => leading_keyword(bytes@.skip(at as int)) is None,
        },
{
    let w: Vec<u8> = vec![0x66u8, 0x6Eu8];
    assert(w@ =~= word_fn());
    if has_word_at(bytes, at, &w) {
        return Some(w);
    }
    let w: Vec<u8> = vec![0x66u8, 0x61u8, 0x6Cu8, 0x73u8, 0x65u8];
    assert(w@ =~= word_false());
    if has_word_at(bytes, at, &w) {
        return Some(w);
    }
    let w: Vec<u8> = vec![0x74u8, 0x72u8, 0x75u8, 0x65u8];
    assert(w@ =~= word_true());
    if has_word_at(bytes, at, &w) {
        return Some(w);
    }
    let w: Vec<u8> = vec![0x72u8, 0x65u8, 0x74u8, 0x75u8, 0x72u8, 0x6Eu8];
    assert(w@ =~= word_return());
    if has_word_at(bytes, at, &w) {
        return Some(w);
    }
    let w: Vec<u8> = vec![0x6Cu8, 0x65u8, 0x74u8];
    assert(w@ =~= word_let());
    if has_word_at(bytes, at, &w) {
        return Some(w);
    }
    None
}

/// Splits the bytes of `input` into tokens and closes them with `EOF`.
pub fn lex(input: &str) -> (tokens: Vec<Token>)
    ensures
        lexemes_of(tokens@) == scan(input.spec_bytes()),
{
    let bytes = input.as_bytes();
    let mut tokens: Vec<Token> = Vec::new();
    let mut counter: usize = 0;
    proof {
        assert(bytes@.skip(0) =~= bytes@);
        assert(lexemes_of(tokens@) + scan(bytes@) =~= scan(bytes@));
    }
    while counter < bytes.len()
        invariant
            counter <= bytes.len(),
            bytes@ == input.spec_bytes(),
            lexemes_of(tokens@) + scan(bytes@.skip(counter as int)) == scan(bytes@),
        decreases bytes.len() - counter,
    {
        let ghost before = tokens@;
        let ghost rest = bytes@.skip(counter as int);
        match keyword_at(bytes, counter) {
            Some(word) => {
                let n = word.len();
                let token = Token::Keyword(word);
                tokens.push(token);
                counter += n;
                assert(rest.skip(n as int) =~= bytes@.skip(counter as int));
                assert(lexemes_of(tokens@) =~= lexemes_of(before) + seq![token@]);
            },
            None => {
                let token = classify_byte(bytes[counter]);
                tokens.push(token);
                counter += 1;
                assert(rest.skip(1) =~= bytes@.skip(counter as int));
                assert(lexemes_of(tokens@) =~= lexemes_of(before) + seq![token@]);
            },
        }
        assert(lexemes_of(tokens@) + scan(bytes@.skip(counter as int)) =~= lexemes_of(before)
            + scan(rest));
    }
    let ghost before = tokens@;
    tokens.push(Token::EOF);
    assert(lexemes_of(tokens@) =~= lexemes_of(before) + seq![Lexeme::EOF]);
    assert(bytes@.skip(counter as int).len() == 0);
    tokens
}

/// The tokens of `tokens` that are no white space, in their order.
pub fn strip_whitespace(tokens: &Vec<Token>) -> (kept: Vec<Token>)
    ensures
        lexemes_of(kept@) == lexemes_of(tokens@).filter(|l: Lexeme| !(l is WhiteSpace)),
{
    let ghost keep = |l: Lexeme| !(l is WhiteSpace);
    let mut kept: Vec<Token> = Vec::new();
    let mut i: usize = 0;
    proof {
        reveal(Seq::filter);
        assert(lexemes_of(tokens@.take(0)) =~= Seq::<Lexeme>::empty());
    }
    while i < tokens.len()
        invariant
            i <= tokens.len(),
            keep == |l: Lexeme| !(l is WhiteSpace),
            lexemes_of(kept@) == lexemes_of(tokens@.take(i as int)).filter(keep),
        decreases tokens.len() - i,
    {
        let ghost before = kept@;
        proof {
            reveal(Seq::filter);
            assert(lexemes_of(tokens@.take(i + 1)).drop_last() =~= lexemes_of(
                tokens@.take(i as int),
            ));
            assert(lexemes_of(tokens@.take(i + 1)).last() == tokens@[i as int]@);
        }
        match &tokens[i] {
            Token::WhiteSpace(_) => {},
            other => {
                let copy = other.clone();
                kept.push(copy);
                assert(lexemes_of(kept@) =~= lexemes_of(before).push(copy@));
            },
        }
        i += 1;
    }
    assert(tokens@.take(i as int) =~= tokens@);
    kept
}

} // verus!
