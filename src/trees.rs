use crate::lexer::{ascii_bytes, Token};
use ascii::AsciiString;
use vstd::prelude::*;

verus! {

/// A quoted literal: the bytes between the quotes, escapes kept as written.
#[derive(Debug)]
pub struct Quote {
    pub quote: Vec<u8>,
}

/// An identifier.
#[derive(Debug)]
pub struct Tag {
    pub tag: AsciiString,
}

/// The extent annotation of a definition.
///
/// `Nondynamic` is spelled by the `Static` token, which no lexeme carries,
/// so no input parses to it.
#[derive(Debug)]
pub enum Phase {
    Universal,
    Nonstatic,
    Nondynamic,
}

/// A function body: statements separated by `;`.
#[derive(Debug)]
pub struct Abstraction {
    pub sequence: Vec<Statement>,
}

/// A function type `{domain -> codomain}`.
#[derive(Debug)]
pub struct ExponentialType {
    pub domain: Expr,
    pub codomain: Expr,
}

/// An enumeration type `<a, b, c>`.
#[derive(Debug)]
pub struct OrdinalType {
    pub labels: Vec<Tag>,
}

/// An expression that needs no delimiter to know where it ends.
#[derive(Debug)]
pub enum ClosedExpr {
    Quote(Quote),
    Tag(Tag),
    Abstraction(Box<Abstraction>),
    ExponentialType(Box<ExponentialType>),
    OrdinalType(OrdinalType),
}

/// A closed expression, or one applied to another with `.`.
#[derive(Debug)]
pub enum Expr {
    Application { operator: ClosedExpr, argument: ClosedExpr },
    ClosedExpr(ClosedExpr),
}

/// `| [extent] tag : type = value`
#[derive(Debug)]
pub struct Definition {
    pub phase: Phase,
    pub tag: Tag,
    pub ty: Expr,
    pub value: Expr,
}

/// A statement of an abstraction.
#[derive(Debug)]
pub enum Statement {
    Definition(Definition),
    Expr(Expr),
}

/// A whole program: definitions one after another.
#[derive(Debug)]
pub struct File {
    pub definitions: Vec<Definition>,
}

// What each node is spelled as: the sequence of tokens that it is parsed from.

impl Quote {
    pub open spec fn tokens(&self) -> Seq<Token> {
        seq![Token::Quote(self.quote@)]
    }
}

impl Tag {
    pub open spec fn text(&self) -> Seq<u8> {
        ascii_bytes(self.tag)
    }

    pub open spec fn tokens(&self) -> Seq<Token> {
        seq![Token::Tag(self.text())]
    }
}

impl Phase {
    pub open spec fn tokens(&self) -> Seq<Token> {
        match self {
            Phase::Nonstatic => seq![Token::Dynamic],
            Phase::Nondynamic => seq![Token::Static],
            Phase::Universal => seq![],
        }
    }
}

/// Tags separated by commas.
pub open spec fn labels_tokens(s: Seq<Tag>) -> Seq<Token>
    decreases s.len(),
{
    if s.len() == 0 {
        seq![]
    } else if s.len() == 1 {
        s[0].tokens()
    } else {
        labels_tokens(s.drop_last()) + seq![Token::Comma] + s.last().tokens()
    }
}

/// Statements separated by semicolons.
pub open spec fn statements_tokens(s: Seq<Statement>) -> Seq<Token>
    decreases s,
{
    if s.len() == 0 {
        seq![]
    } else if s.len() == 1 {
        s[0].tokens()
    } else {
        statements_tokens(s.subrange(0, s.len() - 1)) + seq![Token::Semicolon] + s[s.len()
            - 1].tokens()
    }
}

impl Abstraction {
    pub open spec fn tokens(&self) -> Seq<Token>
        decreases self,
    {
        seq![Token::Abstract, Token::LeftParen] + statements_tokens(self.sequence@) + seq![
            Token::RightParen,
        ]
    }
}

impl ExponentialType {
    pub open spec fn tokens(&self) -> Seq<Token>
        decreases self,
    {
        seq![Token::LeftBrace] + self.domain.tokens() + seq![Token::IntoLazy]
            + self.codomain.tokens() + seq![Token::RightBrace]
    }
}

impl OrdinalType {
    pub open spec fn tokens(&self) -> Seq<Token> {
        seq![Token::LeftAngle] + labels_tokens(self.labels@) + seq![Token::RightAngle]
    }
}

impl ClosedExpr {
    pub open spec fn tokens(&self) -> Seq<Token>
        decreases self,
    {
        match self {
            ClosedExpr::Quote(q) => q.tokens(),
            ClosedExpr::Tag(t) => t.tokens(),
            ClosedExpr::Abstraction(a) => a.tokens(),
            ClosedExpr::ExponentialType(e) => e.tokens(),
            ClosedExpr::OrdinalType(o) => o.tokens(),
        }
    }
}

impl Expr {
    pub open spec fn tokens(&self) -> Seq<Token>
        decreases self,
    {
        match self {
            Expr::Application { operator, argument } => operator.tokens() + seq![Token::Apply]
                + argument.tokens(),
            Expr::ClosedExpr(c) => c.tokens(),
        }
    }
}

impl Definition {
    pub open spec fn tokens(&self) -> Seq<Token>
        decreases self,
    {
        seq![Token::Define] + self.phase.tokens() + self.tag.tokens() + seq![Token::Typify]
            + self.ty.tokens() + seq![Token::Equal] + self.value.tokens()
    }
}

impl Statement {
    pub open spec fn tokens(&self) -> Seq<Token>
        decreases self,
    {
        match self {
            Statement::Definition(d) => d.tokens(),
            Statement::Expr(e) => e.tokens(),
        }
    }
}

/// Definitions one after another.
pub open spec fn definitions_tokens(s: Seq<Definition>) -> Seq<Token>
    decreases s.len(),
{
    if s.len() == 0 {
        seq![]
    } else {
        definitions_tokens(s.drop_last()) + s.last().tokens()
    }
}

impl File {
    pub open spec fn tokens(&self) -> Seq<Token> {
        definitions_tokens(self.definitions@)
    }
}

} // verus!
