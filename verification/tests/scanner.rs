use asalang::{lex, strip_whitespace, Token};

#[test]
fn empty_input_is_the_end_alone() {
    assert_eq!(lex(""), vec![Token::EOF]);
    assert_eq!(strip_whitespace(&lex("")), vec![Token::EOF]);
}

#[test]
fn trailing_f_is_a_letter() {
    assert_eq!(lex("f"), vec![Token::Alpha(b'f'), Token::EOF]);
    assert_eq!(lex("if"), vec![Token::Alpha(b'i'), Token::Alpha(b'f'), Token::EOF]);
}

#[test]
fn keywords_are_taken_wherever_they_begin() {
    assert_eq!(
        lex("fnx"),
        vec![Token::Keyword(b"fn".to_vec()), Token::Alpha(b'x'), Token::EOF]
    );
    assert_eq!(
        lex("xlet"),
        vec![Token::Alpha(b'x'), Token::Keyword(b"let".to_vec()), Token::EOF]
    );
    assert_eq!(lex("return"), vec![Token::Keyword(b"return".to_vec()), Token::EOF]);
    assert_eq!(
        lex("truefalse"),
        vec![Token::Keyword(b"true".to_vec()), Token::Keyword(b"false".to_vec()), Token::EOF]
    );
}

#[test]
fn broken_keywords_are_letters() {
    assert_eq!(
        lex("fals"),
        vec![
            Token::Alpha(b'f'),
            Token::Alpha(b'a'),
            Token::Alpha(b'l'),
            Token::Alpha(b's'),
            Token::EOF
        ]
    );
    assert_eq!(lex("tru"), vec![Token::Alpha(b't'), Token::Alpha(b'r'), Token::Alpha(b'u'), Token::EOF]);
    assert_eq!(lex("le"), vec![Token::Alpha(b'l'), Token::Alpha(b'e'), Token::EOF]);
    assert_eq!(lex("r"), vec![Token::Alpha(b'r'), Token::EOF]);
}

#[test]
fn every_class_of_byte() {
    assert_eq!(
        lex("aZ09(){}=+-\" \r\t\n;,*"),
        vec![
            Token::Alpha(b'a'),
            Token::Alpha(b'Z'),
            Token::Digit(b'0'),
            Token::Digit(b'9'),
            Token::LeftParen(b'('),
            Token::RightParen(b')'),
            Token::LeftCurly(b'{'),
            Token::RightCurly(b'}'),
            Token::Equal(b'='),
            Token::Plus(b'+'),
            Token::Dash(b'-'),
            Token::Quote(b'"'),
            Token::WhiteSpace(b' '),
            Token::WhiteSpace(b'\r'),
            Token::WhiteSpace(b'\t'),
            Token::WhiteSpace(b'\n'),
            Token::Semicolon(b';'),
            Token::Comma(b','),
            Token::Other(),
            Token::EOF,
        ]
    );
}

#[test]
fn bytes_beyond_ascii_are_other() {
    assert_eq!(lex("\u{e9}"), vec![Token::Other(), Token::Other(), Token::EOF]);
}

#[test]
fn strip_whitespace_keeps_the_rest_in_order() {
    let tokens = vec![
        Token::WhiteSpace(b' '),
        Token::Alpha(b'a'),
        Token::WhiteSpace(b'\n'),
        Token::WhiteSpace(b'\t'),
        Token::Keyword(b"let".to_vec()),
        Token::Other(),
        Token::WhiteSpace(b'\r'),
    ];
    assert_eq!(
        strip_whitespace(&tokens),
        vec![Token::Alpha(b'a'), Token::Keyword(b"let".to_vec()), Token::Other()]
    );
    assert_eq!(tokens.len(), 7);
    assert_eq!(Token::Keyword(b"fn".to_vec()).clone(), Token::Keyword(b"fn".to_vec()));
}
