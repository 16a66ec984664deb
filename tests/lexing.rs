use lexparse::lexer::{Class, Lexeme, Lexer};

fn all_lexemes(source: &[u8]) -> Vec<Lexeme> {
    let mut lexer = Lexer::new(source).unwrap();
    let mut out = Vec::new();
    loop {
        let lexeme = lexer.lex();
        let done = lexeme.class == Class::Sentinel;
        out.push(lexeme);
        if done {
            return out;
        }
    }
}

fn tag(text: &str) -> Class {
    Class::Tag(ascii::AsciiString::from_ascii(text).unwrap())
}

#[test]
fn whitespace_only_lexes_to_sentinel() {
    let source = b" \t\n  \n";
    let mut lexer = Lexer::new(source).unwrap();
    for _ in 0..3 {
        let lexeme = lexer.lex();
        assert_eq!(lexeme.class, Class::Sentinel);
        assert_eq!(lexeme.location, source.len());
    }
}

#[test]
fn empty_input_lexes_to_sentinel_at_zero() {
    let lexemes = all_lexemes(b"");
    assert_eq!(lexemes.len(), 1);
    assert_eq!(lexemes[0].class, Class::Sentinel);
    assert_eq!(lexemes[0].location, 0);
}

#[test]
fn word_lexes_to_one_tag() {
    for word in ["abc_123", "9lives", "_", "Z"] {
        let lexemes = all_lexemes(word.as_bytes());
        assert_eq!(lexemes.len(), 2);
        assert_eq!(lexemes[0].class, tag(word));
        assert_eq!(lexemes[0].location, 0);
        assert_eq!(lexemes[1].class, Class::Sentinel);
        assert_eq!(lexemes[1].location, word.len());
    }
}

#[test]
fn lexing_is_restartable() {
    let a = all_lexemes(b"| x : y = \"q\"");
    let b = all_lexemes(b"| x : y = \"q\"");
    assert_eq!(a.len(), b.len());
    for (l, r) in a.iter().zip(b.iter()) {
        assert_eq!(l.class, r.class);
        assert_eq!(l.location, r.location);
    }
}

#[test]
fn lone_hyphen_is_invalid() {
    let lexemes = all_lexemes(b"-");
    assert_eq!(lexemes[0].class, Class::Invalid);
    assert_eq!(lexemes[0].location, 0);
    assert_eq!(lexemes[1].class, Class::Sentinel);
    assert_eq!(lexemes[1].location, 1);
}

#[test]
fn arrow_is_into_lazy() {
    let lexemes = all_lexemes(b"->");
    assert_eq!(lexemes[0].class, Class::IntoLazy);
    assert_eq!(lexemes[0].location, 0);
    assert_eq!(lexemes[1].class, Class::Sentinel);
    assert_eq!(lexemes[1].location, 2);
}

#[test]
fn hyphen_before_other_byte_consumes_one() {
    let lexemes = all_lexemes(b"-x");
    assert_eq!(lexemes[0].class, Class::Invalid);
    assert_eq!(lexemes[0].location, 0);
    assert_eq!(lexemes[1].class, tag("x"));
    assert_eq!(lexemes[1].location, 1);
}

#[test]
fn quote_holds_its_bytes() {
    let lexemes = all_lexemes(b"\"ab\"");
    assert_eq!(lexemes[0].class, Class::Quote(vec![b'a', b'b']));
    assert_eq!(lexemes[0].location, 0);
    assert_eq!(lexemes[1].location, 4);
}

#[test]
fn escaped_quote_does_not_terminate() {
    let lexemes = all_lexemes(b"\"a\\\"b\"");
    assert_eq!(lexemes[0].class, Class::Quote(vec![b'a', b'\\', b'"', b'b']));
    assert_eq!(lexemes[1].class, Class::Sentinel);
    assert_eq!(lexemes[1].location, 6);
}

#[test]
fn unterminated_quote_is_invalid() {
    let lexemes = all_lexemes(b"\"unterminated");
    assert_eq!(lexemes[0].class, Class::Invalid);
    assert_eq!(lexemes[0].location, 0);
    assert_eq!(lexemes[1].class, Class::Sentinel);
    assert_eq!(lexemes.len(), 2);
}

#[test]
fn backslash_at_end_of_quote_is_invalid() {
    let lexemes = all_lexemes(b"\"ab\\");
    assert_eq!(lexemes[0].class, Class::Invalid);
    assert_eq!(lexemes[1].class, Class::Sentinel);
    assert_eq!(lexemes[1].location, 4);
}

#[test]
fn punctuation_lexes_by_table() {
    let lexemes = all_lexemes(b"|~:=$.(){}<>,;");
    let expected = [
        Class::Define,
        Class::Dynamic,
        Class::Typify,
        Class::Equal,
        Class::Abstract,
        Class::Apply,
        Class::LeftParen,
        Class::RightParen,
        Class::LeftBrace,
        Class::RightBrace,
        Class::LeftAngle,
        Class::RightAngle,
        Class::Comma,
        Class::Semicolon,
        Class::Sentinel,
    ];
    assert_eq!(lexemes.len(), expected.len());
    for (i, (lexeme, class)) in lexemes.iter().zip(expected.iter()).enumerate() {
        assert_eq!(&lexeme.class, class);
        assert_eq!(lexeme.location, i);
    }
}

#[test]
fn unknown_byte_is_invalid_and_consumes_one() {
    let lexemes = all_lexemes(b"#a \x80");
    assert_eq!(lexemes[0].class, Class::Invalid);
    assert_eq!(lexemes[0].location, 0);
    assert_eq!(lexemes[1].class, tag("a"));
    assert_eq!(lexemes[1].location, 1);
    assert_eq!(lexemes[2].class, Class::Invalid);
    assert_eq!(lexemes[2].location, 3);
    assert_eq!(lexemes[3].class, Class::Sentinel);
}

#[test]
fn whitespace_separates_tokens() {
    let lexemes = all_lexemes(b"  ab\tcd\n");
    assert_eq!(lexemes[0].class, tag("ab"));
    assert_eq!(lexemes[0].location, 2);
    assert_eq!(lexemes[1].class, tag("cd"));
    assert_eq!(lexemes[1].location, 5);
    assert_eq!(lexemes[2].class, Class::Sentinel);
    assert_eq!(lexemes[2].location, 8);
}

#[test]
fn span_of_tag_or_quote_relexes_the_same() {
    let source = b" ab_1 \"x\\\"y\" ;";
    let mut lexer = Lexer::new(source).unwrap();
    let first = lexer.lex();
    let second = lexer.lex();
    let third = lexer.lex();
    let spans = [(first, second.location - 1), (second, third.location - 1)];
    for (lexeme, end) in spans {
        let span = &source[lexeme.location..end];
        let again = all_lexemes(span);
        assert_eq!(again[0].class, lexeme.class);
        assert_eq!(again[0].location, 0);
        assert_eq!(again[1].class, Class::Sentinel);
        assert_eq!(again[1].location, span.len());
    }
}

#[test]
fn class_copies_the_payload() {
    let lexemes = all_lexemes(b"name \"q\"");
    assert_eq!(lexemes[0].class(), tag("name"));
    assert_eq!(lexemes[1].class(), Class::Quote(vec![b'q']));
    assert_eq!(lexemes[2].class(), Class::Sentinel);
}

#[test]
fn peek_and_next_walk_the_buffer() {
    let source = b"ab";
    let mut lexer = Lexer::new(source).unwrap();
    assert_eq!(lexer.peek(), Some(b'a'));
    lexer.next();
    assert_eq!(lexer.peek(), Some(b'b'));
    lexer.next();
    assert_eq!(lexer.peek(), None);
}
