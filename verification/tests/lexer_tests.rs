use kaleidoscope::error::Error;
use kaleidoscope::lexer::{Lexer, Token};

fn tokens_of(src: &str) -> Vec<Token> {
    let mut lexer = Lexer::new(src.as_bytes().to_vec());
    let mut out = Vec::new();
    loop {
        let t = lexer.next_token().expect("unexpected lexical error");
        let done = t == Token::Eof;
        out.push(t);
        if done {
            return out;
        }
    }
}

#[test]
fn number_literals_tokenize_to_their_own_text() {
    for lit in ["1", "42", "007", "1.5", "0.", ".5", "3.1415", "10.01"] {
        let mut lexer = Lexer::new(lit.as_bytes().to_vec());
        match lexer.next_token().unwrap() {
            Token::Number(text) => {
                assert_eq!(text, lit);
                let direct: f64 = lit.parse().unwrap();
                let via_token: f64 = text.parse().unwrap();
                assert_eq!(via_token, direct);
            },
            other => panic!("expected a number token for {:?}, got {:?}", lit, other),
        }
        assert_eq!(lexer.next_token().unwrap(), Token::Eof);
    }
}

#[test]
fn whitespace_only_input_is_eof() {
    for src in ["", " ", "  \t\r\n ", "\n\n\n", "\t \t"] {
        let mut lexer = Lexer::new(src.as_bytes().to_vec());
        assert_eq!(lexer.next_token().unwrap(), Token::Eof);
        assert_eq!(lexer.next_token().unwrap(), Token::Eof);
    }
}

#[test]
fn comment_line_yields_following_token() {
    let mut lexer = Lexer::new(b"# this is a comment\n42".to_vec());
    assert_eq!(lexer.next_token().unwrap(), Token::Number("42".to_string()));
    assert_eq!(lexer.next_token().unwrap(), Token::Eof);
}

#[test]
fn comment_to_end_of_input_is_eof() {
    let mut lexer = Lexer::new(b"# nothing after this".to_vec());
    assert_eq!(lexer.next_token().unwrap(), Token::Eof);
}

#[test]
fn consecutive_comment_lines_are_skipped() {
    let mut lexer = Lexer::new(b"# one\n# two\n  # three\nfoo".to_vec());
    assert_eq!(lexer.next_token().unwrap(), Token::Identifier("foo".to_string()));
}

#[test]
fn keywords_and_identifiers() {
    let toks = tokens_of("def extern define def1 deff x1y2");
    assert_eq!(
        toks,
        vec![
            Token::Def,
            Token::Extern,
            Token::Identifier("define".to_string()),
            Token::Identifier("def1".to_string()),
            Token::Identifier("deff".to_string()),
            Token::Identifier("x1y2".to_string()),
            Token::Eof,
        ]
    );
}

#[test]
fn punctuation_tokens() {
    let toks = tokens_of("< + - * ; ( ) ,");
    assert_eq!(
        toks,
        vec![
            Token::LessThan,
            Token::Plus,
            Token::Minus,
            Token::Star,
            Token::SemiColon,
            Token::OpenParen,
            Token::CloseParen,
            Token::Comma,
            Token::Eof,
        ]
    );
}

#[test]
fn lone_dot_is_a_parse_float_error() {
    let mut lexer = Lexer::new(b".".to_vec());
    assert_eq!(lexer.next_token(), Err(Error::ParseFloat));
    assert_eq!(lexer.next_token().unwrap(), Token::Eof);
}

#[test]
fn unknown_character_is_reported() {
    let mut lexer = Lexer::new(b"$".to_vec());
    assert_eq!(lexer.next_token(), Err(Error::UnknownChar('$')));
}

#[test]
fn number_with_trailing_dot_run() {
    // "1.2.3" reads as the literal "1.2" and then the literal ".3".
    let mut lexer = Lexer::new(b"1.2.3".to_vec());
    assert_eq!(lexer.next_token().unwrap(), Token::Number("1.2".to_string()));
    assert_eq!(lexer.next_token().unwrap(), Token::Number(".3".to_string()));
    assert_eq!(lexer.next_token().unwrap(), Token::Eof);
}

#[test]
fn peek_does_not_consume() {
    let mut lexer = Lexer::new(b"def x".to_vec());
    assert_eq!(lexer.peek().unwrap(), Token::Def);
    assert_eq!(lexer.peek().unwrap(), Token::Def);
    assert_eq!(lexer.next_token().unwrap(), Token::Def);
    assert_eq!(lexer.peek().unwrap(), Token::Identifier("x".to_string()));
    assert_eq!(lexer.next_token().unwrap(), Token::Identifier("x".to_string()));
    assert_eq!(lexer.peek().unwrap(), Token::Eof);
    assert_eq!(lexer.next_token().unwrap(), Token::Eof);
}

#[test]
fn adjacent_tokens_without_spaces() {
    let toks = tokens_of("foo(1,2)+bar");
    assert_eq!(
        toks,
        vec![
            Token::Identifier("foo".to_string()),
            Token::OpenParen,
            Token::Number("1".to_string()),
            Token::Comma,
            Token::Number("2".to_string()),
            Token::CloseParen,
            Token::Plus,
            Token::Identifier("bar".to_string()),
            Token::Eof,
        ]
    );
}
