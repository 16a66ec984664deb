use lexparse::lexer::{Class, Lexer};
use lexparse::parser::{ParseError, Parser};
use lexparse::trees::{
    Abstraction, ClosedExpr, Definition, ExponentialType, Expr, File, OrdinalType, Phase, Quote,
    Statement, Tag,
};

fn parser(source: &[u8]) -> Parser<'_> {
    Parser::new(Lexer::new(source).unwrap())
}

fn parse_file(source: &[u8]) -> Result<File, ParseError> {
    File::try_parse(&mut parser(source))
}

fn is_tag(c: &ClosedExpr, text: &str) -> bool {
    matches!(c, ClosedExpr::Tag(t) if t.tag.as_str() == text)
}

fn is_tag_expr(e: &Expr, text: &str) -> bool {
    matches!(e, Expr::ClosedExpr(c) if is_tag(c, text))
}

#[test]
fn whitespace_only_file_is_empty() {
    let file = parse_file(b"  \n\t ").unwrap();
    assert!(file.definitions.is_empty());
    let file = parse_file(b"").unwrap();
    assert!(file.definitions.is_empty());
}

#[test]
fn definition_with_ordinal_type() {
    let file = parse_file(b"| x : <a , b> = a").unwrap();
    assert_eq!(file.definitions.len(), 1);
    let d = &file.definitions[0];
    assert!(matches!(d.phase, Phase::Universal));
    assert_eq!(d.tag.tag.as_str(), "x");
    match &d.ty {
        Expr::ClosedExpr(ClosedExpr::OrdinalType(o)) => {
            let labels: Vec<&str> = o.labels.iter().map(|t| t.tag.as_str()).collect();
            assert_eq!(labels, vec!["a", "b"]);
        }
        _ => panic!("type is not an ordinal"),
    }
    assert!(is_tag_expr(&d.value, "a"));
}

#[test]
fn stray_semicolon_at_file_scope_is_an_error() {
    let r = parse_file(b"| x : <a, b> = a;");
    assert_eq!(r.unwrap_err(), ParseError::Expected("Definition or EOF in file"));
}

#[test]
fn abstraction_holds_a_definition() {
    let mut p = parser(b"$ ( | y : t = v )");
    let e = Expr::try_parse(&mut p).unwrap();
    match e {
        Expr::ClosedExpr(ClosedExpr::Abstraction(a)) => {
            assert_eq!(a.sequence.len(), 1);
            match &a.sequence[0] {
                Statement::Definition(d) => {
                    assert_eq!(d.tag.tag.as_str(), "y");
                    assert!(is_tag_expr(&d.ty, "t"));
                    assert!(is_tag_expr(&d.value, "v"));
                }
                _ => panic!("statement is not a definition"),
            }
        }
        _ => panic!("not an abstraction"),
    }
    assert_eq!(p.lexeme.class, Class::Sentinel);
}

#[test]
fn abstraction_statements_are_separated_by_semicolons() {
    let mut p = parser(b"$ ( a ; \"q\" ; f . g )");
    let a = Abstraction::try_maybe_parse(&mut p).unwrap().unwrap();
    assert_eq!(a.sequence.len(), 3);
    assert!(matches!(&a.sequence[0], Statement::Expr(e) if is_tag_expr(e, "a")));
    assert!(matches!(&a.sequence[1],
        Statement::Expr(Expr::ClosedExpr(ClosedExpr::Quote(q))) if q.quote == vec![b'q']));
    assert!(matches!(&a.sequence[2],
        Statement::Expr(Expr::Application { operator, argument })
            if is_tag(operator, "f") && is_tag(argument, "g")));
}

#[test]
fn empty_abstraction_and_ordinal() {
    let mut p = parser(b"$ ( ) < >");
    let a = Abstraction::try_maybe_parse(&mut p).unwrap().unwrap();
    assert!(a.sequence.is_empty());
    let o = OrdinalType::try_maybe_parse(&mut p).unwrap().unwrap();
    assert!(o.labels.is_empty());
    assert_eq!(p.lexeme.class, Class::Sentinel);
}

#[test]
fn abstraction_errors() {
    let r = Abstraction::try_maybe_parse(&mut parser(b"$ a"));
    assert_eq!(r.unwrap_err(), ParseError::Expected("LeftParen in abstraction"));
    let r = Abstraction::try_maybe_parse(&mut parser(b"$ ( a b )"));
    assert_eq!(
        r.unwrap_err(),
        ParseError::Expected("RightParen or Semicolon following statement in abstraction")
    );
    let r = Abstraction::try_maybe_parse(&mut parser(b"$ ( a ; )"));
    assert_eq!(r.unwrap_err(), ParseError::Invalid);
}

#[test]
fn exponential_type() {
    let mut p = parser(b"{ a -> b }");
    let e = Expr::try_parse(&mut p).unwrap();
    match e {
        Expr::ClosedExpr(ClosedExpr::ExponentialType(x)) => {
            assert!(is_tag_expr(&x.domain, "a"));
            assert!(is_tag_expr(&x.codomain, "b"));
        }
        _ => panic!("not an exponential type"),
    }
}

#[test]
fn exponential_errors() {
    let r = ExponentialType::try_maybe_parse(&mut parser(b"{ a b }"));
    assert_eq!(r.unwrap_err(), ParseError::Expected("IntoLazy in exponential"));
    let r = ExponentialType::try_maybe_parse(&mut parser(b"{ a -> b"));
    assert_eq!(r.unwrap_err(), ParseError::Expected("RightBrace in exponential"));
    let r = ExponentialType::try_maybe_parse(&mut parser(b"{ -> b }"));
    assert_eq!(r.unwrap_err(), ParseError::Invalid);
}

#[test]
fn ordinal_errors() {
    let r = OrdinalType::try_maybe_parse(&mut parser(b"< a ; b >"));
    assert_eq!(r.unwrap_err(), ParseError::Expected("RightAngle or Comma following tag in ordinal"));
    let r = OrdinalType::try_maybe_parse(&mut parser(b"< \"a\" >"));
    assert_eq!(r.unwrap_err(), ParseError::Invalid);
}

#[test]
fn definition_errors() {
    let r = Definition::try_maybe_parse(&mut parser(b"| x = y"));
    assert_eq!(r.unwrap_err(), ParseError::Expected("Typify in definition"));
    let r = Definition::try_maybe_parse(&mut parser(b"| x : y ; z"));
    assert_eq!(r.unwrap_err(), ParseError::Expected("Equal in definition"));
    let r = Definition::try_maybe_parse(&mut parser(b"| : y = z"));
    assert_eq!(r.unwrap_err(), ParseError::Invalid);
}

#[test]
fn dynamic_definition_is_nonstatic() {
    let file = parse_file(b"| ~ f : {a -> b} = $(a)\n| g : t = \"s\"").unwrap();
    assert_eq!(file.definitions.len(), 2);
    assert!(matches!(file.definitions[0].phase, Phase::Nonstatic));
    assert!(matches!(file.definitions[1].phase, Phase::Universal));
    assert_eq!(file.definitions[1].tag.tag.as_str(), "g");
}

#[test]
fn application_takes_one_argument_only() {
    let mut p = parser(b"a.b.c");
    let e = Expr::try_parse(&mut p).unwrap();
    assert!(matches!(&e, Expr::Application { operator, argument }
        if is_tag(operator, "a") && is_tag(argument, "b")));
    assert_eq!(p.lexeme.class, Class::Apply);
    assert_eq!(p.lexeme.location, 3);
    assert!(parse_file(b"| x : t = a.b.c").is_err());
}

#[test]
fn application_needs_an_argument() {
    let r = Expr::try_parse(&mut parser(b"a . ;"));
    assert_eq!(r.unwrap_err(), ParseError::Invalid);
}

#[test]
fn invalid_lexeme_is_a_parse_error() {
    assert_eq!(parse_file(b"| x : - = y").unwrap_err(), ParseError::Invalid);
    assert_eq!(parse_file(b"#").unwrap_err(), ParseError::Expected("Definition or EOF in file"));
}

#[test]
fn statement_dispatches_on_define() {
    let s = Statement::try_parse(&mut parser(b"| a : b = c")).unwrap();
    assert!(matches!(s, Statement::Definition(_)));
    let s = Statement::try_parse(&mut parser(b"<x>")).unwrap();
    assert!(matches!(s, Statement::Expr(Expr::ClosedExpr(ClosedExpr::OrdinalType(_)))));
    assert_eq!(Statement::try_parse(&mut parser(b")")).unwrap_err(), ParseError::Invalid);
}

#[test]
fn no_match_leaves_the_parser_unmoved() {
    let mut p = parser(b"  ; x");
    let before_class = p.lexeme.class();
    let before_location = p.lexeme.location;
    assert!(Quote::maybe_parse(&mut p).is_none());
    assert!(Tag::maybe_parse(&mut p).is_none());
    assert!(Abstraction::try_maybe_parse(&mut p).unwrap().is_none());
    assert!(ExponentialType::try_maybe_parse(&mut p).unwrap().is_none());
    assert!(OrdinalType::try_maybe_parse(&mut p).unwrap().is_none());
    assert!(ClosedExpr::try_maybe_parse(&mut p).unwrap().is_none());
    assert!(Definition::try_maybe_parse(&mut p).unwrap().is_none());
    assert!(matches!(Phase::parse(&mut p), Phase::Universal));
    assert_eq!(p.lexeme.class, before_class);
    assert_eq!(p.lexeme.location, before_location);
    let next = p.lexer.lex();
    assert_eq!(next.class, Class::Tag(ascii::AsciiString::from_ascii("x").unwrap()));
    assert_eq!(next.location, 4);
}

#[test]
fn tag_and_quote_are_consumed() {
    let mut p = parser(b"name \"text\" rest");
    let t = Tag::try_parse(&mut p).unwrap();
    assert_eq!(t.tag.as_str(), "name");
    let q = Quote::maybe_parse(&mut p).unwrap();
    assert_eq!(q.quote, b"text".to_vec());
    assert_eq!(p.lexeme.location, 12);
    assert_eq!(Tag::try_parse(&mut parser(b"\"q\"")).unwrap_err(), ParseError::Invalid);
}

#[test]
fn required_forms_turn_no_match_into_invalid() {
    assert_eq!(Abstraction::try_parse(&mut parser(b"x")).unwrap_err(), ParseError::Invalid);
    assert_eq!(ExponentialType::try_parse(&mut parser(b"x")).unwrap_err(), ParseError::Invalid);
    assert_eq!(OrdinalType::try_parse(&mut parser(b"x")).unwrap_err(), ParseError::Invalid);
    assert_eq!(Definition::try_parse(&mut parser(b"x")).unwrap_err(), ParseError::Invalid);
    assert_eq!(Quote::try_parse(&mut parser(b"x")).unwrap_err(), ParseError::Invalid);
}

#[test]
fn required_forms_parse_and_pass_errors_on() {
    let q = Quote::try_parse(&mut parser(b"\"z\"")).unwrap();
    assert_eq!(q.quote, vec![b'z']);
    let e = ExponentialType::try_parse(&mut parser(b"{ <a> -> \"s\" }")).unwrap();
    assert!(matches!(e.domain, Expr::ClosedExpr(ClosedExpr::OrdinalType(_))));
    let o = OrdinalType::try_parse(&mut parser(b"<p, q, r>")).unwrap();
    assert_eq!(o.labels.len(), 3);
    let a = Abstraction::try_parse(&mut parser(b"$()")).unwrap();
    assert!(a.sequence.is_empty());
    assert_eq!(
        Abstraction::try_parse(&mut parser(b"$ x")).unwrap_err(),
        ParseError::Expected("LeftParen in abstraction")
    );
    assert_eq!(
        Definition::try_parse(&mut parser(b"| x t = v")).unwrap_err(),
        ParseError::Expected("Typify in definition")
    );
}

#[test]
fn definition_stops_before_semicolon() {
    let mut p = parser(b"| x : <a , b> = a ;");
    let d = Definition::try_maybe_parse(&mut p).unwrap().unwrap();
    assert_eq!(d.tag.tag.as_str(), "x");
    assert!(matches!(d.phase, Phase::Universal));
    assert_eq!(p.lexeme.class, Class::Semicolon);
}

#[test]
fn nested_forms_parse() {
    let file = parse_file(b"| f : { <a,b> -> $ ( | y : t = v ; g . \"x\" ; {c -> d} ) } = $()\n| ~ g : h = i").unwrap();
    assert_eq!(file.definitions.len(), 2);
    match &file.definitions[0].ty {
        Expr::ClosedExpr(ClosedExpr::ExponentialType(e)) => match &e.codomain {
            Expr::ClosedExpr(ClosedExpr::Abstraction(a)) => assert_eq!(a.sequence.len(), 3),
            _ => panic!("codomain is not an abstraction"),
        },
        _ => panic!("type is not an exponential"),
    }
    assert!(matches!(file.definitions[1].phase, Phase::Nonstatic));
}

#[test]
fn definition_head_errors() {
    let r = Definition::try_maybe_parse(&mut parser(b"| ~ : t = v"));
    assert_eq!(r.unwrap_err(), ParseError::Invalid);
    let r = Definition::try_maybe_parse(&mut parser(b"| ~ x = v"));
    assert_eq!(r.unwrap_err(), ParseError::Expected("Typify in definition"));
    let r = Statement::try_parse(&mut parser(b"| x y"));
    assert_eq!(r.unwrap_err(), ParseError::Expected("Typify in definition"));
    let r = ClosedExpr::try_maybe_parse(&mut parser(b"$ x"));
    assert_eq!(r.unwrap_err(), ParseError::Expected("LeftParen in abstraction"));
}

#[test]
fn nested_definition_keeps_universal_extent() {
    let mut p = parser(b"$ ( | y : t = v )");
    let a = Abstraction::try_maybe_parse(&mut p).unwrap().unwrap();
    assert!(matches!(&a.sequence[0], Statement::Definition(d) if matches!(d.phase, Phase::Universal)));
    assert_eq!(p.lexeme.class, Class::Sentinel);
}
