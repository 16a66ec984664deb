use crate::lexer::{lemma_lex_at_bounds, lex_at, punctuation, skip_space, Class, Lexeme, Lexer, Token};
use crate::trees::{
    definitions_tokens, labels_tokens, statements_tokens, Abstraction, ClosedExpr, Definition,
    ExponentialType, Expr, File, OrdinalType, Phase, Quote, Statement, Tag,
};
use vstd::prelude::*;

verus! {

/// Why a parse stopped.
#[derive(Debug, PartialEq, Eq)]
pub enum ParseError {
    /// No alternative fits the current lexeme.
    Invalid,
    /// A construct had begun and the named token or construct did not follow.
    Expected(&'static str),
}

pub type ParseResult<T> = Result<T, ParseError>;

/// Whether a token can begin a closed expression.
pub open spec fn starts_closed_expr(t: Token) -> bool {
    t is Quote || t is Tag || t is Abstract || t is LeftBrace || t is LeftAngle
}

/// The first `n` tokens lexed from position `i` of `src`, and the position
/// after them.
pub open spec fn stream(src: Seq<u8>, i: nat, n: nat) -> (Seq<Token>, nat)
    decreases n,
{
    if n == 0 {
        (Seq::empty(), i)
    } else {
        let (tokens, p) = stream(src, i, (n - 1) as nat);
        let (t, _, q) = lex_at(src, p);
        (tokens.push(t), q)
    }
}

/// Taking the first token off a stream leaves the stream that starts after it.
pub proof fn lemma_stream_first(src: Seq<u8>, i: nat, n: nat)
    ensures
        stream(src, i, n + 1).0 == seq![lex_at(src, i).0] + stream(src, lex_at(src, i).2, n).0,
        stream(src, i, n + 1).1 == stream(src, lex_at(src, i).2, n).1,
    decreases n,
{
    if n > 0 {
        lemma_stream_first(src, i, (n - 1) as nat);
        let (tokens, p) = stream(src, lex_at(src, i).2, (n - 1) as nat);
        assert(stream(src, i, n + 1).0 =~= seq![lex_at(src, i).0] + tokens.push(lex_at(src, p).0));
    } else {
        assert(stream(src, i, 0) == (Seq::<Token>::empty(), i));
        assert(stream(src, lex_at(src, i).2, 0) == (Seq::<Token>::empty(), lex_at(src, i).2));
        assert(stream(src, i, 1).0 =~= seq![lex_at(src, i).0]);
    }
}

/// No lexeme carries `Static`, so a stream of lexed tokens holds none, and a
/// tree parsed from it has no `Nondynamic` extent anywhere.
pub proof fn lemma_stream_has_no_static(src: Seq<u8>, i: nat, n: nat)
    ensures
        forall|k: int| 0 <= k < n ==> !(#[trigger] stream(src, i, n).0[k] is Static),
    decreases n,
{
    lemma_stream_len(src, i, n);
    if n > 0 {
        lemma_stream_has_no_static(src, i, (n - 1) as nat);
        lemma_stream_len(src, i, (n - 1) as nat);
        let p = stream(src, i, (n - 1) as nat).1;
        lemma_lex_at_not_static(src, p);
        assert forall|k: int| 0 <= k < n implies !(#[trigger] stream(src, i, n).0[k] is Static) by {
            if k < n - 1 {
                assert(stream(src, i, n).0[k] == stream(src, i, (n - 1) as nat).0[k]);
            }
        }
    }
}

proof fn lemma_lex_at_not_static(src: Seq<u8>, i: nat)
    ensures
        !(lex_at(src, i).0 is Static),
{
    let s = skip_space(src, i);
    if s < src.len() {
        let b = src[s as int];
        assert(!(punctuation(b) is Static));
    }
}

/// A stream of `n` tokens has `n` of them.
pub proof fn lemma_stream_len(src: Seq<u8>, i: nat, n: nat)
    ensures
        stream(src, i, n).0.len() == n,
    decreases n,
{
    if n > 0 {
        lemma_stream_len(src, i, (n - 1) as nat);
    }
}

/// A stream of `a + b` tokens is the first `a`, then `b` more from where
/// those end.
pub proof fn lemma_stream_split(src: Seq<u8>, i: nat, a: nat, b: nat)
    ensures
        stream(src, i, a + b).0 == stream(src, i, a).0 + stream(src, stream(src, i, a).1, b).0,
        stream(src, i, a + b).1 == stream(src, stream(src, i, a).1, b).1,
    decreases b,
{
    let p = stream(src, i, a).1;
    if b == 0 {
        assert(stream(src, i, a).0 + stream(src, p, 0).0 =~= stream(src, i, a).0);
    } else {
        lemma_stream_split(src, i, a, (b - 1) as nat);
        assert((a + b - 1) as nat == a + (b - 1) as nat);
        let (rest, q) = stream(src, p, (b - 1) as nat);
        assert(stream(src, i, a + b).0 =~= (stream(src, i, a).0 + rest).push(lex_at(src, q).0));
        assert(stream(src, i, a).0 + rest.push(lex_at(src, q).0) =~= (stream(src, i, a).0
            + rest).push(lex_at(src, q).0));
    }
}

proof fn lemma_after_one(ts: Seq<Token>, k: int, first: Seq<Token>, rest: Seq<Token>)
    requires
        0 <= k < ts.len(),
        first.len() == 1,
        first + rest == ts.subrange(k, ts.len() as int),
    ensures
        rest == ts.subrange(k + 1, ts.len() as int),
{
    assert(rest =~= (first + rest).drop_first());
    assert(ts.subrange(k + 1, ts.len() as int) =~= ts.subrange(k, ts.len() as int).drop_first());
}

/// The first `a` tokens of a longer stream are the stream of `a` tokens.
pub proof fn lemma_stream_prefix(src: Seq<u8>, i: nat, a: nat, b: nat)
    ensures
        stream(src, i, a).0 == stream(src, i, a + b).0.subrange(0, a as int),
{
    lemma_stream_split(src, i, a, b);
    lemma_stream_len(src, i, a);
    assert(stream(src, i, a + b).0.subrange(0, a as int) =~= stream(src, i, a).0);
}

proof fn lemma_concat_prefix(x: Seq<Token>, y: Seq<Token>)
    ensures
        (x + y).subrange(0, x.len() as int) == x,
{
    assert((x + y).subrange(0, x.len() as int) =~= x);
}

proof fn lemma_concat_cancel(t: Seq<Token>, a: Seq<Token>, b: Seq<Token>)
    requires
        t + a == t + b,
        a.len() == b.len(),
    ensures
        a == b,
{
    assert forall|j: int| 0 <= j < a.len() implies a[j] == b[j] by {
        assert((t + a)[t.len() + j] == a[j]);
        assert((t + b)[t.len() + j] == b[j]);
    }
    assert(a =~= b);
}

proof fn lemma_closed_first(c: ClosedExpr)
    ensures
        c.tokens().len() > 0 && starts_closed_expr(c.tokens()[0]),
{
    match c {
        ClosedExpr::Abstraction(a) => assert(a.tokens()[0] == Token::Abstract),
        ClosedExpr::ExponentialType(e) => assert(e.tokens()[0] == Token::LeftBrace),
        ClosedExpr::OrdinalType(o) => assert(o.tokens()[0] == Token::LeftAngle),
        _ => {},
    }
}

proof fn lemma_expr_first(e: Expr)
    ensures
        e.tokens().len() > 0 && starts_closed_expr(e.tokens()[0]),
{
    match e {
        Expr::Application { operator, argument } => {
            lemma_closed_first(operator);
            assert(e.tokens()[0] == operator.tokens()[0]);
        },
        Expr::ClosedExpr(c) => lemma_closed_first(c),
    }
}

proof fn lemma_statement_first(s: Statement)
    ensures
        s.tokens().len() > 0,
        s is Definition <==> s.tokens()[0] is Define,
        !(s.tokens()[0] is RightParen),
{
    match s {
        Statement::Definition(d) => assert(d.tokens()[0] == Token::Define),
        Statement::Expr(e) => lemma_expr_first(e),
    }
}

proof fn lemma_statements_front(s: Seq<Statement>)
    requires
        s.len() > 1,
    ensures
        statements_tokens(s) == s[0].tokens() + seq![Token::Semicolon] + statements_tokens(
            s.subrange(1, s.len() as int),
        ),
    decreases s.len(),
{
    let n = s.len() as int;
    let t = s.subrange(1, n);
    if n > 2 {
        lemma_statements_front(s.subrange(0, n - 1));
        assert(s.subrange(0, n - 1).subrange(1, n - 1) =~= t.subrange(0, t.len() - 1));
        assert(s.subrange(0, n - 1)[0] == s[0]);
        assert(t[t.len() - 1] == s[n - 1]);
        assert(statements_tokens(s) == statements_tokens(s.subrange(0, n - 1)) + seq![
            Token::Semicolon,
        ] + s[n - 1].tokens());
        assert(statements_tokens(t) == statements_tokens(t.subrange(0, t.len() - 1)) + seq![
            Token::Semicolon,
        ] + t[t.len() - 1].tokens());
        let x = statements_tokens(t.subrange(0, t.len() - 1));
        assert(statements_tokens(s.subrange(0, n - 1)) == s[0].tokens() + seq![Token::Semicolon]
            + x);
        let a = s[0].tokens();
        let sc = seq![Token::Semicolon];
        let l = s[n - 1].tokens();
        assert(statements_tokens(s) == (a + sc + x) + sc + l);
        assert(statements_tokens(t) == x + sc + l);
        assert((a + sc + x) + sc + l =~= a + sc + (x + sc + l));
    } else {
        assert(s.subrange(0, n - 1) =~= seq![s[0]]);
        assert(t =~= seq![s[1]]);
        assert(statements_tokens(s.subrange(0, n - 1)) == s[0].tokens());
        assert(statements_tokens(t) == s[1].tokens());
        assert(statements_tokens(s) == s[0].tokens() + seq![Token::Semicolon] + s[1].tokens());
    }
}

proof fn lemma_definitions_front(s: Seq<Definition>)
    requires
        s.len() > 0,
    ensures
        definitions_tokens(s) == s[0].tokens() + definitions_tokens(s.subrange(1, s.len() as int)),
    decreases s.len(),
{
    let n = s.len() as int;
    let t = s.subrange(1, n);
    if n > 1 {
        lemma_definitions_front(s.drop_last());
        assert(s.drop_last().subrange(1, n - 1) =~= t.drop_last());
        assert(s.drop_last()[0] == s[0]);
        assert(t.last() == s.last());
        assert(definitions_tokens(s) =~= s[0].tokens() + definitions_tokens(t));
    } else {
        assert(s.drop_last() =~= Seq::<Definition>::empty());
        assert(t =~= Seq::<Definition>::empty());
        assert(definitions_tokens(s) =~= s[0].tokens() + definitions_tokens(t));
    }
}

proof fn lemma_labels_spell(s: Seq<Tag>)
    ensures
        spells_labels(labels_tokens(s)),
        s.len() > 0 ==> labels_tokens(s).len() % 2 == 1,
    decreases s.len(),
{
    if s.len() > 1 {
        lemma_labels_spell(s.drop_last());
        let l = labels_tokens(s.drop_last());
        let t = labels_tokens(s);
        assert forall|k: int| 0 <= k < t.len() implies if k % 2 == 0 {
            #[trigger] t[k] is Tag
        } else {
            t[k] is Comma
        } by {
            if k < l.len() {
                assert(t[k] == l[k]);
            }
        }
    }
}

proof fn lemma_ordinal_spells(o: OrdinalType)
    ensures
        spells_ordinal(o.tokens()),
{
    lemma_labels_spell(o.labels@);
    let t = o.tokens();
    assert(t.subrange(1, t.len() - 1) =~= labels_tokens(o.labels@));
}

proof fn lemma_ordinal_unique(s: Seq<Token>, a: nat, b: nat)
    requires
        a <= s.len(),
        b <= s.len(),
        spells_ordinal(s.subrange(0, a as int)),
        spells_ordinal(s.subrange(0, b as int)),
    ensures
        a == b,
{
    if a < b {
        let inner = s.subrange(0, b as int).subrange(1, b - 1);
        assert(inner[a - 2] == s[a - 1]);
        assert(s.subrange(0, a as int).last() == s[a - 1]);
    } else if b < a {
        let inner = s.subrange(0, a as int).subrange(1, a - 1);
        assert(inner[b - 2] == s[b - 1]);
        assert(s.subrange(0, b as int).last() == s[b - 1]);
    }
}

/// `ts` spells the inside of an ordinal type: tags separated by commas.
pub open spec fn spells_labels(ts: Seq<Token>) -> bool {
    ts.len() == 0 || (ts.len() % 2 == 1 && forall|k: int|
        0 <= k < ts.len() ==> if k % 2 == 0 {
            #[trigger] ts[k] is Tag
        } else {
            ts[k] is Comma
        })
}

/// `ts` spells an ordinal type: `<`, tags separated by commas, `>`.
pub open spec fn spells_ordinal(ts: Seq<Token>) -> bool {
    &&& ts.len() >= 2
    &&& ts[0] is LeftAngle
    &&& ts.last() is RightAngle
    &&& spells_labels(ts.subrange(1, ts.len() - 1))
}

/// A cursor over the lexemes of a buffer, holding the current one.
pub struct Parser<'source> {
    pub lexer: Lexer<'source>,
    pub lexeme: Lexeme,
    /// The tokens consumed so far, in order.
    pub consumed: Ghost<Seq<Token>>,
    /// Where in the buffer the parser began.
    pub origin: Ghost<nat>,
    /// Where in the buffer the current lexeme was scanned from.
    pub at: Ghost<nat>,
}

impl<'source> Parser<'source> {
    pub open spec fn wf(&self) -> bool {
        &&& self.lexer.wf()
        &&& self.lexeme.location <= self.lexer.pos()
        &&& self.lexeme.class is Sentinel ==> self.lexeme.location == self.lexer.pos()
            == self.lexer.text().len()
        &&& !(self.lexeme.class is Sentinel) ==> self.lexeme.location < self.lexer.pos()
        &&& self.at@ <= self.lexer.text().len()
        &&& lex_at(self.lexer.text(), self.at@) == (
            self.lexeme.class@,
            self.lexeme.location as nat,
            self.lexer.pos(),
        )
        &&& stream(self.lexer.text(), self.origin@, self.consumed@.len()) == (
            self.consumed@,
            self.at@,
        )
    }

    /// The next `n` tokens, the current lexeme's first.
    pub open spec fn ahead(&self, n: nat) -> Seq<Token> {
        stream(self.lexer.text(), self.at@, n).0
    }

    /// The tokens ahead begin with `ts`.
    pub open spec fn sees(&self, ts: Seq<Token>) -> bool {
        self.ahead(ts.len()) == ts
    }

    /// The tokens ahead begin with `ts`, and then a token that is no `.`.
    pub open spec fn sees_then_no_apply(&self, ts: Seq<Token>) -> bool {
        self.sees(ts) && !(self.ahead(ts.len() + 1)[ts.len() as int] is Apply)
    }

    /// How many bytes of the buffer lie at or after the current lexeme.
    pub open spec fn remaining(&self) -> nat {
        (self.lexer.text().len() - self.lexeme.location) as nat
    }

    /// This parser is `before` after consuming exactly `tokens`.
    pub open spec fn consumed_from(&self, before: Parser<'source>, tokens: Seq<Token>) -> bool {
        &&& self.wf()
        &&& self.lexer.text() == before.lexer.text()
        &&& self.consumed@ == before.consumed@ + tokens
        &&& self.origin == before.origin
        &&& before.lexeme.location <= self.lexeme.location
        &&& tokens.len() > 0 ==> before.lexeme.location < self.lexeme.location
    }

    /// What a parser consumed is what lay ahead of it.
    pub proof fn lemma_consumed_was_ahead(before: Parser<'source>, after: Parser<'source>, tokens: Seq<Token>, m: nat)
        requires
            before.wf(),
            after.consumed_from(before, tokens),
        ensures
            before.ahead(tokens.len() + m) == tokens + after.ahead(m),
    {
        let src = before.lexer.text();
        let o = before.origin@;
        let c = before.consumed@.len();
        lemma_stream_split(src, o, c, tokens.len() + m);
        lemma_stream_split(src, o, c + tokens.len(), m);
        assert(c + (tokens.len() + m) == (c + tokens.len()) + m);
        let whole = stream(src, o, c + tokens.len() + m).0;
        assert(whole == before.consumed@ + before.ahead(tokens.len() + m));
        assert(whole == before.consumed@ + tokens + after.ahead(m));
        assert(before.ahead(tokens.len() + m) =~= whole.subrange(c as int, whole.len() as int));
        assert(tokens + after.ahead(m) =~= whole.subrange(c as int, whole.len() as int));
    }

    /// The first token ahead is the current lexeme's.
    pub proof fn lemma_ahead_first(&self, m: nat)
        requires
            self.wf(),
            m > 0,
        ensures
            self.ahead(m)[0] == self.lexeme.class@,
    {
        lemma_stream_first(self.lexer.text(), self.at@, (m - 1) as nat);
    }

    /// What is seen ahead is seen in part.
    pub proof fn lemma_sees_prefix(&self, x: Seq<Token>, y: Seq<Token>)
        requires
            self.sees(x + y),
        ensures
            self.sees(x),
    {
        lemma_stream_prefix(self.lexer.text(), self.at@, x.len(), y.len());
        lemma_concat_prefix(x, y);
    }

    /// After consuming `t` out of `t + rest`, `rest` lies ahead.
    pub proof fn lemma_advance(before: Parser<'source>, after: Parser<'source>, t: Seq<Token>, rest: Seq<Token>)
        requires
            before.wf(),
            after.consumed_from(before, t),
            before.sees(t + rest),
        ensures
            after.sees(rest),
    {
        Parser::lemma_consumed_was_ahead(before, after, t, rest.len());
        lemma_stream_len(after.lexer.text(), after.at@, rest.len());
        lemma_concat_cancel(t, after.ahead(rest.len()), rest);
    }

    /// After consuming `t` out of `t + rest`, `rest` lies ahead, and the
    /// current lexeme is its first token.
    pub proof fn lemma_advance_first(before: Parser<'source>, after: Parser<'source>, t: Seq<Token>, rest: Seq<Token>)
        requires
            before.wf(),
            after.consumed_from(before, t),
            before.sees(t + rest),
            rest.len() > 0,
        ensures
            after.sees(rest),
            after.lexeme.class@ == rest[0],
    {
        Parser::lemma_advance(before, after, t, rest);
        after.lemma_ahead_first(rest.len());
    }

    /// A parser whose current lexeme is the first one that `lexer` yields.
    pub fn new(mut lexer: Lexer<'source>) -> (r: Self)
        requires
            lexer.wf(),
        ensures
            r.wf(),
            r.lexer.text() == lexer.text(),
            (r.lexeme.class@, r.lexeme.location as nat, r.lexer.pos()) == lex_at(
                lexer.text(),
                lexer.pos(),
            ),
            r.consumed@ == Seq::<Token>::empty(),
            r.origin@ == lexer.pos(),
    {
        proof {
            lemma_lex_at_bounds(lexer.text(), lexer.pos());
        }
        let ghost origin = lexer.pos();
        let lexeme = lexer.lex();
        Self { lexeme, lexer, consumed: Ghost(Seq::empty()), origin: Ghost(origin), at: Ghost(origin) }
    }

    /// Consumes the current lexeme, hands it back, and fetches the next.
    fn step(&mut self) -> (prev: Lexeme)
        requires
            old(self).wf(),
        ensures
            final(self).wf(),
            final(self).lexer.text() == old(self).lexer.text(),
            final(self).consumed@ == old(self).consumed@.push(old(self).lexeme.class@),
            final(self).origin == old(self).origin,
            forall|n: nat| #[trigger] final(self).ahead(n) == old(self).ahead(n + 1).drop_first(),
            prev == old(self).lexeme,
            !(old(self).lexeme.class is Sentinel) ==> final(self).consumed_from(
                *old(self),
                seq![old(self).lexeme.class@],
            ),
            (final(self).lexeme.class@, final(self).lexeme.location as nat, final(self).lexer.pos())
                == lex_at(old(self).lexer.text(), old(self).lexer.pos()),
            old(self).lexeme.location <= final(self).lexeme.location,
            !(old(self).lexeme.class is Sentinel) ==> old(self).lexeme.location
                < final(self).lexeme.location,
    {
        proof {
            lemma_lex_at_bounds(self.lexer.text(), self.lexer.pos());
        }
        let ghost at = self.lexer.pos();
        let mut lexeme = self.lexer.lex();
        std::mem::swap(&mut self.lexeme, &mut lexeme);
        self.consumed = Ghost(self.consumed@.push(lexeme.class@));
        self.at = Ghost(at);
        assert(self.consumed@ =~= old(self).consumed@ + seq![old(self).lexeme.class@]);
        proof {
            assert forall|n: nat| #[trigger] self.ahead(n) == old(self).ahead(n + 1).drop_first() by {
                lemma_stream_first(self.lexer.text(), old(self).at@, n);
                assert(old(self).ahead(n + 1).drop_first() =~= self.ahead(n));
            }
        }
        lexeme
    }
}

impl Quote {
    /// A quoted literal where the current lexeme is one; otherwise nothing,
    /// with the parser untouched.
    pub fn maybe_parse(parser: &mut Parser) -> (r: Option<Self>)
        requires
            old(parser).wf(),
        ensures
            r is Some <==> old(parser).lexeme.class is Quote,
            r is None ==> *final(parser) == *old(parser),
            r matches Some(q) ==> q.tokens() == seq![old(parser).lexeme.class@]
                && final(parser).consumed_from(*old(parser), q.tokens()),
    {
        if !matches!(parser.lexeme.class, Class::Quote(_)) {
            return None;
        }
        let lexeme = parser.step();
        assert(parser.consumed@ =~= old(parser).consumed@ + seq![old(parser).lexeme.class@]);
        match lexeme.class {
            Class::Quote(quote) => Some(Self { quote }),
            _ => None,
        }
    }

    /// A quoted literal, which must stand at the current lexeme.
    pub fn try_parse(parser: &mut Parser) -> (r: ParseResult<Self>)
        requires
            old(parser).wf(),
        ensures
            r is Ok <==> old(parser).lexeme.class is Quote,
            r is Err ==> r == Err::<Self, ParseError>(ParseError::Invalid) && *final(parser)
                == *old(parser),
            r matches Ok(q) ==> q.tokens() == seq![old(parser).lexeme.class@]
                && final(parser).consumed_from(*old(parser), q.tokens()),
    {
        match Self::maybe_parse(parser) {
            Some(q) => Ok(q),
            None => Err(ParseError::Invalid),
        }
    }
}

impl Tag {
    /// A tag where the current lexeme is one; otherwise nothing, with the
    /// parser untouched.
    pub fn maybe_parse(parser: &mut Parser) -> (r: Option<Self>)
        requires
            old(parser).wf(),
        ensures
            r is Some <==> old(parser).lexeme.class is Tag,
            r is None ==> *final(parser) == *old(parser),
            r matches Some(t) ==> t.tokens() == seq![old(parser).lexeme.class@]
                && final(parser).consumed_from(*old(parser), t.tokens()),
    {
        if !matches!(parser.lexeme.class, Class::Tag(_)) {
            return None;
        }
        let lexeme = parser.step();
        assert(parser.consumed@ =~= old(parser).consumed@ + seq![old(parser).lexeme.class@]);
        match lexeme.class {
            Class::Tag(tag) => Some(Self { tag }),
            _ => None,
        }
    }

    /// A tag, which must stand at the current lexeme.
    pub fn try_parse(parser: &mut Parser) -> (r: ParseResult<Self>)
        requires
            old(parser).wf(),
        ensures
            r is Ok <==> old(parser).lexeme.class is Tag,
            r is Err ==> r == Err::<Self, ParseError>(ParseError::Invalid) && *final(parser)
                == *old(parser),
            r matches Ok(t) ==> t.tokens() == seq![old(parser).lexeme.class@]
                && final(parser).consumed_from(*old(parser), t.tokens()),
    {
        match Self::maybe_parse(parser) {
            Some(t) => Ok(t),
            None => Err(ParseError::Invalid),
        }
    }
}

impl Phase {
    /// The extent of a definition: `~` gives `Nonstatic`; with no annotation
    /// it is `Universal` and nothing is consumed.
    pub fn parse(parser: &mut Parser) -> (r: Self)
        requires
            old(parser).wf(),
        ensures
            r is Nonstatic <==> old(parser).lexeme.class is Dynamic,
            r is Universal <==> !(old(parser).lexeme.class is Dynamic),
            final(parser).consumed_from(*old(parser), r.tokens()),
            r is Universal ==> *final(parser) == *old(parser),
    {
        match parser.lexeme.class {
            Class::Dynamic => {
                parser.step();
                assert(parser.consumed@ =~= old(parser).consumed@ + seq![Token::Dynamic]);
                Phase::Nonstatic
            },
            _ => {
                assert(old(parser).consumed@ + seq![] =~= old(parser).consumed@);
                Phase::Universal
            },
        }
    }
}

impl Abstraction {
    /// `$ ( statement ; ... ; statement )` where the current lexeme is `$`;
    /// otherwise nothing, with the parser untouched. Where the tokens ahead
    /// spell an abstraction, it succeeds.
    pub fn try_maybe_parse(parser: &mut Parser) -> (r: ParseResult<Option<Self>>)
        requires
            old(parser).wf(),
        ensures
            r matches Ok(None) <==> !(old(parser).lexeme.class is Abstract),
            r matches Ok(None) ==> *final(parser) == *old(parser),
            r matches Ok(Some(a)) ==> final(parser).consumed_from(*old(parser), a.tokens()),
            old(parser).lexeme.class is Abstract && !(lex_at(
                old(parser).lexer.text(),
                old(parser).lexer.pos(),
            ).0 is LeftParen) ==> r == Err::<Option<Self>, ParseError>(
                ParseError::Expected("LeftParen in abstraction"),
            ),
            (exists|x: Abstraction| old(parser).sees(#[trigger] x.tokens())) ==> (r matches Ok(
                Some(_),
            )),
    {
        let ghost w = if exists|x: Abstraction| parser.sees(#[trigger] x.tokens()) {
            Some(choose|x: Abstraction| parser.sees(#[trigger] x.tokens()))
        } else {
            None
        };
        Self::try_maybe_parse_as(parser, Ghost(w))
    }

    /// As `try_maybe_parse`, with no match turned into `ParseError::Invalid`
    /// and errors passed on.
    pub fn try_parse(parser: &mut Parser) -> (r: ParseResult<Self>)
        requires
            old(parser).wf(),
        ensures
            !(old(parser).lexeme.class is Abstract) ==> r == Err::<Self, ParseError>(ParseError::Invalid)
                && *final(parser) == *old(parser),
            old(parser).lexeme.class is Abstract && !(lex_at(
                old(parser).lexer.text(),
                old(parser).lexer.pos(),
            ).0 is LeftParen) ==> r == Err::<Self, ParseError>(
                ParseError::Expected("LeftParen in abstraction"),
            ),
            r matches Ok(x) ==> final(parser).consumed_from(*old(parser), x.tokens()),
            (exists|x: Abstraction| old(parser).sees(#[trigger] x.tokens())) ==> r is Ok,
    {
        match Self::try_maybe_parse(parser) {
            Ok(Some(x)) => Ok(x),
            Ok(None) => Err(ParseError::Invalid),
            Err(e) => Err(e),
        }
    }

    #[verifier::rlimit(60)]
    fn try_maybe_parse_as(parser: &mut Parser, Ghost(w): Ghost<Option<Self>>) -> (r: ParseResult<
        Option<Self>,
    >)
        requires
            old(parser).wf(),
        ensures
            r matches Ok(None) <==> !(old(parser).lexeme.class is Abstract),
            r matches Ok(None) ==> *final(parser) == *old(parser),
            r matches Ok(Some(a)) ==> final(parser).consumed_from(*old(parser), a.tokens()),
            old(parser).lexeme.class is Abstract && !(lex_at(
                old(parser).lexer.text(),
                old(parser).lexer.pos(),
            ).0 is LeftParen) ==> r == Err::<Option<Self>, ParseError>(
                ParseError::Expected("LeftParen in abstraction"),
            ),
            w matches Some(x) ==> (old(parser).sees(x.tokens()) ==> (r matches Ok(Some(y))
                && y.tokens() == x.tokens())),
        decreases old(parser).remaining(), 2nat,
    {
        let ghost owed = w is Some && old(parser).sees(w->0.tokens());
        let ghost x = w->0;
        let ghost ws = x.sequence@;
        let ghost n = ws.len();
        let ghost close = seq![Token::RightParen];
        proof {
            if owed {
                old(parser).lemma_ahead_first(x.tokens().len());
                assert(x.tokens() =~= seq![Token::Abstract] + (seq![Token::LeftParen] + (
                statements_tokens(ws) + close)));
            }
        }
        if !matches!(parser.lexeme.class, Class::Abstract) {
            return Ok(None);
        }
        parser.step();
        proof {
            if owed {
                Parser::lemma_advance_first(*old(parser), *parser, seq![Token::Abstract], seq![Token::LeftParen] + (
                statements_tokens(ws) + close));
            }
        }
        if !matches!(parser.lexeme.class, Class::LeftParen) {
            return Err(ParseError::Expected("LeftParen in abstraction"));
        }
        let ghost p1 = *parser;
        parser.step();
        proof {
            if owed {
                if n > 1 {
                    lemma_statements_front(ws);
                } else if n == 1 {
                    assert(statements_tokens(ws) == ws[0].tokens());
                }
                if n > 0 {
                    lemma_statement_first(ws[0]);
                    assert((statements_tokens(ws) + close)[0] == ws[0].tokens()[0]);
                }
                assert(ws.subrange(0, n as int) =~= ws);
                assert(ws.subrange(0, 0) =~= Seq::<Statement>::empty());
                Parser::lemma_advance_first(p1, *parser, seq![Token::LeftParen], statements_tokens(ws) + close);
            }
        }
        let ghost base = parser.consumed@;
        assert(base =~= old(parser).consumed@ + seq![Token::Abstract, Token::LeftParen]);
        let mut sequence: Vec<Statement> = Vec::new();
        if !matches!(parser.lexeme.class, Class::RightParen) {
            loop
                invariant_except_break
                    parser.consumed@ == base + statements_tokens(sequence@) + (if sequence@.len()
                        == 0 {
                        Seq::<Token>::empty()
                    } else {
                        seq![Token::Semicolon]
                    }),
                    owed ==> {
                        &&& sequence@.len() < n
                        &&& parser.sees(statements_tokens(ws.subrange(sequence@.len() as int, n as int)) + close)
                        &&& statements_tokens(sequence@) == statements_tokens(ws.subrange(0, sequence@.len() as int))
                    },
                invariant
                    parser.wf(),
                    parser.lexer.text() == old(parser).lexer.text(),
                    parser.origin == old(parser).origin,
                    old(parser).lexeme.location < parser.lexeme.location,
                    old(parser).lexeme.class is Abstract,
                    lex_at(old(parser).lexer.text(), old(parser).lexer.pos()).0 is LeftParen,
                    owed == (w is Some && old(parser).sees(w->0.tokens())),
                    x == w->0,
                    ws == x.sequence@,
                    n == ws.len(),
                    close == seq![Token::RightParen],
                ensures
                    parser.consumed@ == base + statements_tokens(sequence@),
                    parser.lexeme.class is RightParen,
                    owed ==> statements_tokens(sequence@) == statements_tokens(ws),
                decreases parser.remaining(),
            {
                let ghost before = sequence@;
                let ghost i = sequence@.len();
                let ghost tail = ws.subrange(i as int, n as int);
                let ghost f = if i + 1 < n { Token::Semicolon } else { Token::RightParen };
                let ghost after_i = if i + 1 < n {
                    seq![Token::Semicolon] + (statements_tokens(ws.subrange(i + 1 as int, n as int)) + close)
                } else {
                    close
                };
                proof {
                    if owed {
                        if i + 1 < n {
                            lemma_statements_front(tail);
                            assert(tail.subrange(1, tail.len() as int) =~= ws.subrange(i + 1 as int, n as int));
                        } else {
                            assert(tail =~= seq![ws[i as int]]);
                        }
                        assert(tail[0] == ws[i as int]);
                        assert(statements_tokens(tail) + close =~= ws[i as int].tokens() + after_i);
                        assert(ws[i as int].tokens() + after_i =~= (ws[i as int].tokens() + seq![f]) + after_i.drop_first());
                        parser.lemma_sees_prefix(ws[i as int].tokens() + seq![f], after_i.drop_first());
                    }
                }
                let ghost p2 = *parser;
                let statement = match Statement::try_parse_as(
                    parser,
                    Ghost(if owed { Some((ws[i as int], f)) } else { None }),
                ) {
                    Ok(statement) => statement,
                    Err(e) => return Err(e),
                };
                let ghost tokens = statement.tokens();
                proof {
                    if owed {
                        Parser::lemma_advance_first(p2, *parser, ws[i as int].tokens(), after_i);
                    }
                }
                sequence.push(statement);
                proof {
                    assert(sequence@.subrange(0, sequence@.len() - 1) =~= before);
                    if before.len() == 0 {
                        assert(statements_tokens(sequence@) == tokens);
                    } else {
                        assert(statements_tokens(sequence@) == statements_tokens(before) + seq![
                            Token::Semicolon,
                        ] + tokens);
                    }
                    assert(parser.consumed@ =~= base + statements_tokens(sequence@));
                    if owed {
                        let pre = ws.subrange(0, i + 1 as int);
                        assert(pre.subrange(0, i as int) =~= ws.subrange(0, i as int));
                        assert(pre[i as int] == ws[i as int]);
                        if i == 0 {
                            assert(statements_tokens(pre) == pre[0].tokens());
                        } else {
                            assert(statements_tokens(pre) == statements_tokens(pre.subrange(0, i as int)) + seq![Token::Semicolon] + pre[i as int].tokens());
                        }
                        assert(ws.subrange(0, n as int) =~= ws);
                    }
                }
                match parser.lexeme.class {
                    Class::RightParen => break,
                    Class::Semicolon => {
                        let ghost p3 = *parser;
                        parser.step();
                        assert(parser.consumed@ =~= base + statements_tokens(sequence@) + seq![
                            Token::Semicolon,
                        ]);
                        proof {
                            if owed {
                                Parser::lemma_advance(p3, *parser, seq![Token::Semicolon], statements_tokens(ws.subrange(i + 1 as int, n as int)) + close);
                            }
                        }
                    },
                    _ => {
                        return Err(
                            ParseError::Expected(
                                "RightParen or Semicolon following statement in abstraction",
                            ),
                        )
                    },
                }
            }
        }
        parser.step();
        let a = Self { sequence };
        assert(parser.consumed@ =~= old(parser).consumed@ + a.tokens());
        Ok(Some(a))
    }
}

impl ExponentialType {
    /// `{ domain -> codomain }` where the current lexeme is `{`; otherwise
    /// nothing, with the parser untouched. Where the tokens ahead spell an
    /// exponential type, it succeeds.
    pub fn try_maybe_parse(parser: &mut Parser) -> (r: ParseResult<Option<Self>>)
        requires
            old(parser).wf(),
        ensures
            r matches Ok(None) <==> !(old(parser).lexeme.class is LeftBrace),
            r matches Ok(None) ==> *final(parser) == *old(parser),
            r matches Ok(Some(e)) ==> final(parser).consumed_from(*old(parser), e.tokens()),
            old(parser).lexeme.class is LeftBrace && !starts_closed_expr(
                lex_at(old(parser).lexer.text(), old(parser).lexer.pos()).0,
            ) ==> r == Err::<Option<Self>, ParseError>(ParseError::Invalid),
            (exists|x: ExponentialType| old(parser).sees(#[trigger] x.tokens())) ==> (r matches Ok(
                Some(_),
            )),
    {
        let ghost w = if exists|x: ExponentialType| parser.sees(#[trigger] x.tokens()) {
            Some(choose|x: ExponentialType| parser.sees(#[trigger] x.tokens()))
        } else {
            None
        };
        Self::try_maybe_parse_as(parser, Ghost(w))
    }

    /// As `try_maybe_parse`, with no match turned into `ParseError::Invalid`
    /// and errors passed on.
    pub fn try_parse(parser: &mut Parser) -> (r: ParseResult<Self>)
        requires
            old(parser).wf(),
        ensures
            !(old(parser).lexeme.class is LeftBrace) ==> r == Err::<Self, ParseError>(ParseError::Invalid)
                && *final(parser) == *old(parser),
            old(parser).lexeme.class is LeftBrace && !starts_closed_expr(
                lex_at(old(parser).lexer.text(), old(parser).lexer.pos()).0,
            ) ==> r == Err::<Self, ParseError>(ParseError::Invalid),
            r matches Ok(x) ==> final(parser).consumed_from(*old(parser), x.tokens()),
            (exists|x: ExponentialType| old(parser).sees(#[trigger] x.tokens())) ==> r is Ok,
    {
        match Self::try_maybe_parse(parser) {
            Ok(Some(x)) => Ok(x),
            Ok(None) => Err(ParseError::Invalid),
            Err(e) => Err(e),
        }
    }

    #[verifier::rlimit(100)]
    #[verifier::spinoff_prover]
    fn try_maybe_parse_as(parser: &mut Parser, Ghost(w): Ghost<Option<Self>>) -> (r: ParseResult<
        Option<Self>,
    >)
        requires
            old(parser).wf(),
        ensures
            r matches Ok(None) <==> !(old(parser).lexeme.class is LeftBrace),
            r matches Ok(None) ==> *final(parser) == *old(parser),
            r matches Ok(Some(e)) ==> final(parser).consumed_from(*old(parser), e.tokens()),
            old(parser).lexeme.class is LeftBrace && !starts_closed_expr(
                lex_at(old(parser).lexer.text(), old(parser).lexer.pos()).0,
            ) ==> r == Err::<Option<Self>, ParseError>(ParseError::Invalid),
            w matches Some(x) ==> (old(parser).sees(x.tokens()) ==> (r matches Ok(Some(y))
                && y.tokens() == x.tokens())),
        decreases old(parser).remaining(), 2nat,
    {
        let ghost owed = w is Some && old(parser).sees(w->0.tokens());
        let ghost x = w->0;
        let ghost dom = x.domain.tokens();
        let ghost cod = x.codomain.tokens();
        let ghost arrow = seq![Token::IntoLazy];
        let ghost close = seq![Token::RightBrace];
        proof {
            if owed {
                old(parser).lemma_ahead_first(x.tokens().len());
            }
        }
        if !matches!(parser.lexeme.class, Class::LeftBrace) {
            return Ok(None);
        }
        parser.step();
        proof {
            if owed {
                assert(x.tokens() =~= seq![Token::LeftBrace] + (dom + arrow + cod + close));
                Parser::lemma_advance(*old(parser), *parser, seq![Token::LeftBrace], dom + arrow + cod + close);
                assert(dom + arrow + cod + close =~= (dom + seq![Token::IntoLazy]) + (cod + close));
                parser.lemma_sees_prefix(dom + seq![Token::IntoLazy], cod + close);
            }
        }
        let ghost p1 = *parser;
        let domain = match Expr::try_parse_as(
            parser,
            Ghost(if owed { Some((x.domain, Token::IntoLazy)) } else { None }),
        ) {
            Ok(domain) => domain,
            Err(e) => return Err(e),
        };
        proof {
            if owed {
                assert(dom + arrow + cod + close =~= dom + (arrow + cod + close));
                Parser::lemma_advance_first(p1, *parser, dom, arrow + cod + close);
            }
        }
        if !matches!(parser.lexeme.class, Class::IntoLazy) {
            return Err(ParseError::Expected("IntoLazy in exponential"));
        }
        let ghost p2 = *parser;
        parser.step();
        proof {
            if owed {
                assert(arrow + cod + close =~= seq![Token::IntoLazy] + (cod + close));
                Parser::lemma_advance(p2, *parser, seq![Token::IntoLazy], cod + close);
            }
        }
        let ghost p3 = *parser;
        let codomain = match Expr::try_parse_as(
            parser,
            Ghost(if owed { Some((x.codomain, Token::RightBrace)) } else { None }),
        ) {
            Ok(codomain) => codomain,
            Err(e) => return Err(e),
        };
        proof {
            if owed {
                Parser::lemma_advance_first(p3, *parser, cod, close);
            }
        }
        if !matches!(parser.lexeme.class, Class::RightBrace) {
            return Err(ParseError::Expected("RightBrace in exponential"));
        }
        parser.step();
        let e = Self { domain, codomain };
        assert(parser.consumed@ =~= old(parser).consumed@ + e.tokens());
        Ok(Some(e))
    }
}

impl OrdinalType {
    /// `< tag , ... , tag >` where the current lexeme is `<`; otherwise
    /// nothing, with the parser untouched. Where the tokens ahead spell an
    /// ordinal type, it succeeds.
    #[verifier::spinoff_prover]
    pub fn try_maybe_parse(parser: &mut Parser) -> (r: ParseResult<Option<Self>>)
        requires
            old(parser).wf(),
        ensures
            r matches Ok(None) <==> !(old(parser).lexeme.class is LeftAngle),
            r matches Ok(None) ==> *final(parser) == *old(parser),
            r matches Ok(Some(o)) ==> final(parser).consumed_from(*old(parser), o.tokens()),
            old(parser).lexeme.class is LeftAngle && ({
                let next = lex_at(old(parser).lexer.text(), old(parser).lexer.pos()).0;
                !(next is Tag) && !(next is RightAngle)
            }) ==> r == Err::<Option<Self>, ParseError>(ParseError::Invalid),
            (exists|n: nat| spells_ordinal(#[trigger] old(parser).ahead(n))) ==> r matches Ok(
                Some(_),
            ),
    {
        let ghost owed = exists|n: nat| spells_ordinal(#[trigger] old(parser).ahead(n));
        let ghost n: nat = if owed {
            choose|n: nat| spells_ordinal(#[trigger] old(parser).ahead(n))
        } else {
            0
        };
        let ghost ts = old(parser).ahead(n);
        let ghost inner = if owed {
            ts.subrange(1, ts.len() - 1)
        } else {
            ts
        };
        proof {
            lemma_stream_len(old(parser).lexer.text(), old(parser).at@, n);
            if owed {
                old(parser).lemma_ahead_first(n);
            }
        }
        if !matches!(parser.lexeme.class, Class::LeftAngle) {
            return Ok(None);
        }
        parser.step();
        let ghost base = parser.consumed@;
        assert(base =~= old(parser).consumed@ + seq![Token::LeftAngle]);
        let ghost mut k: nat = 1;
        proof {
            if owed {
                assert(parser.ahead((n - 1) as nat) =~= ts.subrange(1, n as int));
            }
        }
        let mut labels: Vec<Tag> = Vec::new();
        if !matches!(parser.lexeme.class, Class::RightAngle) {
            proof {
                if owed {
                    parser.lemma_ahead_first((n - 1) as nat);
                }
            }
            loop
                invariant_except_break
                    parser.consumed@ == base + labels_tokens(labels@) + (if labels@.len() == 0 {
                        Seq::<Token>::empty()
                    } else {
                        seq![Token::Comma]
                    }),
                    owed ==> {
                        &&& k == 1 + 2 * labels@.len()
                        &&& k + 1 < n
                        &&& parser.ahead((n - k) as nat) == ts.subrange(k as int, n as int)
                    },
                invariant
                    parser.wf(),
                    parser.lexer.text() == old(parser).lexer.text(),
                    parser.origin == old(parser).origin,
                    old(parser).lexeme.location < parser.lexeme.location,
                    old(parser).lexeme.class is LeftAngle,
                    labels@.len() == 0 ==> parser.lexeme.class@ == lex_at(
                        old(parser).lexer.text(),
                        old(parser).lexer.pos(),
                    ).0,
                    labels@.len() > 0 ==> lex_at(
                        old(parser).lexer.text(),
                        old(parser).lexer.pos(),
                    ).0 is Tag,
                    owed == exists|n: nat| spells_ordinal(#[trigger] old(parser).ahead(n)),
                    ts == old(parser).ahead(n),
                    owed ==> spells_ordinal(ts) && ts.len() == n && inner == ts.subrange(
                        1,
                        n - 1,
                    ),
                ensures
                    labels@.len() > 0,
                    parser.consumed@ == base + labels_tokens(labels@),
                    parser.lexeme.class is RightAngle,
                decreases parser.remaining(),
            {
                let ghost before = labels@;
                let ghost was = *parser;
                proof {
                    if owed {
                        parser.lemma_ahead_first((n - k) as nat);
                        assert(parser.lexeme.class@ == ts[k as int]);
                        assert((k - 1) % 2 == 0);
                        assert(inner.len() % 2 == 1);
                        assert(inner[k - 1] == ts[k as int]);
                        assert(inner[k - 1] is Tag);
                        assert(ts[k as int] is Tag);
                    }
                }
                let tag = match Tag::try_parse(parser) {
                    Ok(tag) => tag,
                    Err(e) => return Err(e),
                };
                let ghost tokens = tag.tokens();
                proof {
                    if owed {
                        assert(tokens.len() == 1);
                        Parser::lemma_consumed_was_ahead(was, *parser, tokens, (n - k - 1) as nat);
                        assert(1 + (n - k - 1) as nat == (n - k) as nat);
                        assert(was.ahead((n - k) as nat) == tokens + parser.ahead((n - k - 1) as nat));
                        lemma_stream_len(parser.lexer.text(), parser.at@, (n - k - 1) as nat);
                        lemma_after_one(ts, k as int, tokens, parser.ahead((n - k - 1) as nat));
                        parser.lemma_ahead_first((n - k - 1) as nat);
                        assert(parser.lexeme.class@ == ts[k + 1 as int]);
                        if k + 2 < n {
                            assert(inner[k as int] == ts[k + 1 as int]);
                            assert(ts[k + 1 as int] is Comma);
                        }
                    }
                }
                labels.push(tag);
                proof {
                    assert(labels@.drop_last() =~= before);
                    assert(parser.consumed@ =~= base + labels_tokens(labels@));
                }
                match parser.lexeme.class {
                    Class::RightAngle => break,
                    Class::Comma => {
                        let ghost stepped = *parser;
                        parser.step();
                        assert(parser.consumed@ =~= base + labels_tokens(labels@) + seq![
                            Token::Comma,
                        ]);
                        proof {
                            if owed {
                                assert(parser.ahead((n - k - 2) as nat) == stepped.ahead(
                                    (n - k - 2 + 1) as nat,
                                ).drop_first());
                                assert(parser.ahead((n - k - 2) as nat) =~= ts.subrange(
                                    k + 2 as int,
                                    n as int,
                                ));
                                k = k + 2;
                                parser.lemma_ahead_first((n - k) as nat);
                            }
                        }
                    },
                    _ => {
                        return Err(
                            ParseError::Expected("RightAngle or Comma following tag in ordinal"),
                        )
                    },
                }
            }
        }
        parser.step();
        let o = Self { labels };
        assert(parser.consumed@ =~= old(parser).consumed@ + o.tokens());
        Ok(Some(o))
    }

    /// As `try_maybe_parse`, with no match turned into `ParseError::Invalid`
    /// and errors passed on.
    pub fn try_parse(parser: &mut Parser) -> (r: ParseResult<Self>)
        requires
            old(parser).wf(),
        ensures
            !(old(parser).lexeme.class is LeftAngle) ==> r == Err::<Self, ParseError>(ParseError::Invalid)
                && *final(parser) == *old(parser),
            old(parser).lexeme.class is LeftAngle && ({
                let next = lex_at(old(parser).lexer.text(), old(parser).lexer.pos()).0;
                !(next is Tag) && !(next is RightAngle)
            }) ==> r == Err::<Self, ParseError>(ParseError::Invalid),
            r matches Ok(x) ==> final(parser).consumed_from(*old(parser), x.tokens()),
            (exists|n: nat| spells_ordinal(#[trigger] old(parser).ahead(n))) ==> r is Ok,
    {
        match Self::try_maybe_parse(parser) {
            Ok(Some(x)) => Ok(x),
            Ok(None) => Err(ParseError::Invalid),
            Err(e) => Err(e),
        }
    }
}

impl ClosedExpr {
    /// A closed expression where the current lexeme can begin one;
    /// otherwise nothing, with the parser untouched. Where the tokens ahead
    /// spell a closed expression, it succeeds.
    pub fn try_maybe_parse(parser: &mut Parser) -> (r: ParseResult<Option<Self>>)
        requires
            old(parser).wf(),
        ensures
            r matches Ok(None) <==> !starts_closed_expr(old(parser).lexeme.class@),
            r matches Ok(None) ==> *final(parser) == *old(parser),
            r matches Ok(Some(c)) ==> final(parser).consumed_from(*old(parser), c.tokens()),
            old(parser).lexeme.class is Abstract && !(lex_at(
                old(parser).lexer.text(),
                old(parser).lexer.pos(),
            ).0 is LeftParen) ==> r == Err::<Option<Self>, ParseError>(
                ParseError::Expected("LeftParen in abstraction"),
            ),
            old(parser).lexeme.class is LeftBrace && !starts_closed_expr(
                lex_at(old(parser).lexer.text(), old(parser).lexer.pos()).0,
            ) ==> r == Err::<Option<Self>, ParseError>(ParseError::Invalid),
            old(parser).lexeme.class is LeftAngle && ({
                let next = lex_at(old(parser).lexer.text(), old(parser).lexer.pos()).0;
                !(next is Tag) && !(next is RightAngle)
            }) ==> r == Err::<Option<Self>, ParseError>(ParseError::Invalid),
            (exists|x: ClosedExpr| old(parser).sees(#[trigger] x.tokens())) ==> (r matches Ok(
                Some(_),
            )),
    {
        let ghost w = if exists|x: ClosedExpr| parser.sees(#[trigger] x.tokens()) {
            Some(choose|x: ClosedExpr| parser.sees(#[trigger] x.tokens()))
        } else {
            None
        };
        Self::try_maybe_parse_as(parser, Ghost(w))
    }

    fn try_maybe_parse_as(parser: &mut Parser, Ghost(w): Ghost<Option<Self>>) -> (r: ParseResult<
        Option<Self>,
    >)
        requires
            old(parser).wf(),
        ensures
            r matches Ok(None) <==> !starts_closed_expr(old(parser).lexeme.class@),
            r matches Ok(None) ==> *final(parser) == *old(parser),
            r matches Ok(Some(c)) ==> final(parser).consumed_from(*old(parser), c.tokens()),
            old(parser).lexeme.class is Abstract && !(lex_at(
                old(parser).lexer.text(),
                old(parser).lexer.pos(),
            ).0 is LeftParen) ==> r == Err::<Option<Self>, ParseError>(
                ParseError::Expected("LeftParen in abstraction"),
            ),
            old(parser).lexeme.class is LeftBrace && !starts_closed_expr(
                lex_at(old(parser).lexer.text(), old(parser).lexer.pos()).0,
            ) ==> r == Err::<Option<Self>, ParseError>(ParseError::Invalid),
            old(parser).lexeme.class is LeftAngle && ({
                let next = lex_at(old(parser).lexer.text(), old(parser).lexer.pos()).0;
                !(next is Tag) && !(next is RightAngle)
            }) ==> r == Err::<Option<Self>, ParseError>(ParseError::Invalid),
            old(parser).lexeme.class is Quote || old(parser).lexeme.class is Tag ==> (r matches Ok(
                Some(_),
            )) && (
                final(parser).lexeme.class@,
                final(parser).lexeme.location as nat,
                final(parser).lexer.pos(),
            ) == lex_at(old(parser).lexer.text(), old(parser).lexer.pos()),
            w matches Some(x) ==> (old(parser).sees(x.tokens()) ==> (r matches Ok(Some(y))
                && y.tokens() == x.tokens())),
        decreases old(parser).remaining(), 3nat,
    {
        let ghost owed = w is Some && old(parser).sees(w->0.tokens());
        let ghost x = w->0;
        proof {
            if owed {
                lemma_closed_first(x);
                old(parser).lemma_ahead_first(x.tokens().len());
            }
        }
        if let Some(quote) = Quote::maybe_parse(parser) {
            return Ok(Some(ClosedExpr::Quote(quote)));
        }
        if let Some(tag) = Tag::maybe_parse(parser) {
            return Ok(Some(ClosedExpr::Tag(tag)));
        }
        match Abstraction::try_maybe_parse_as(
            parser,
            Ghost(
                match x {
                    ClosedExpr::Abstraction(a) => Some(*a),
                    _ => None,
                },
            ),
        ) {
            Ok(Some(abstraction)) => return Ok(Some(ClosedExpr::Abstraction(Box::new(abstraction)))),
            Err(e) => return Err(e),
            Ok(None) => {},
        }
        match ExponentialType::try_maybe_parse_as(
            parser,
            Ghost(
                match x {
                    ClosedExpr::ExponentialType(e) => Some(*e),
                    _ => None,
                },
            ),
        ) {
            Ok(Some(exponential)) => return Ok(
                Some(ClosedExpr::ExponentialType(Box::new(exponential))),
            ),
            Err(e) => return Err(e),
            Ok(None) => {},
        }
        let ghost p0 = *parser;
        proof {
            if owed {
                if let ClosedExpr::OrdinalType(o) = x {
                    assert(spells_ordinal(parser.ahead(o.tokens().len())) ) by {
                        lemma_ordinal_spells(o);
                    }
                }
            }
        }
        let r = match OrdinalType::try_maybe_parse(parser) {
            Ok(Some(ordinal)) => Ok(Some(ClosedExpr::OrdinalType(ordinal))),
            Err(e) => Err(e),
            Ok(None) => Ok(None),
        };
        proof {
            if owed {
                if let ClosedExpr::OrdinalType(o) = x {
                    let y = r->Ok_0->Some_0->OrdinalType_0;
                    let a = o.tokens().len();
                    let b = y.tokens().len();
                    Parser::lemma_consumed_was_ahead(p0, *parser, y.tokens(), 0);
                    assert(y.tokens() + parser.ahead(0) =~= y.tokens());
                    lemma_ordinal_spells(y);
                    lemma_stream_prefix(p0.lexer.text(), p0.at@, a, b);
                    lemma_stream_prefix(p0.lexer.text(), p0.at@, b, a);
                    lemma_stream_len(p0.lexer.text(), p0.at@, a + b);
                    assert(a + b == b + a);
                    let big = p0.ahead(a + b);
                    lemma_ordinal_unique(big, a, b);
                }
            }
        }
        r
    }

    /// A closed expression, which must begin at the current lexeme.
    pub fn try_parse(parser: &mut Parser) -> (r: ParseResult<Self>)
        requires
            old(parser).wf(),
        ensures
            !starts_closed_expr(old(parser).lexeme.class@) ==> r == Err::<Self, ParseError>(
                ParseError::Invalid,
            ) && *final(parser) == *old(parser),
            r matches Ok(c) ==> final(parser).consumed_from(*old(parser), c.tokens()),
            (exists|x: ClosedExpr| old(parser).sees(#[trigger] x.tokens())) ==> r is Ok,
    {
        match Self::try_maybe_parse(parser) {
            Ok(Some(c)) => Ok(c),
            Ok(None) => Err(ParseError::Invalid),
            Err(e) => Err(e),
        }
    }
}

impl Expr {
    /// A closed expression, applied with `.` to a second one where `.`
    /// follows it. Where the tokens ahead spell an expression followed by
    /// something other than `.`, it succeeds.
    pub fn try_parse(parser: &mut Parser) -> (r: ParseResult<Self>)
        requires
            old(parser).wf(),
        ensures
            !starts_closed_expr(old(parser).lexeme.class@) ==> r == Err::<Self, ParseError>(
                ParseError::Invalid,
            ) && *final(parser) == *old(parser),
            r matches Ok(e) ==> final(parser).consumed_from(*old(parser), e.tokens()),
            r matches Ok(Expr::ClosedExpr(_)) ==> !(final(parser).lexeme.class is Apply),
            (exists|x: Expr, f: Token| (x is Application || !(f is Apply)) && old(parser).sees(
                #[trigger] (x.tokens() + seq![f]),
            )) ==> r is Ok,
    {
        let ghost w = if exists|x: Expr, f: Token| (x is Application || !(f is Apply)) && parser.sees(
            #[trigger] (x.tokens() + seq![f]),
        ) {
            Some(
                choose|x: Expr, f: Token| (x is Application || !(f is Apply)) && parser.sees(
                    #[trigger] (x.tokens() + seq![f]),
                ),
            )
        } else {
            None
        };
        Self::try_parse_as(parser, Ghost(w))
    }

    fn try_parse_as(parser: &mut Parser, Ghost(w): Ghost<Option<(Self, Token)>>) -> (r: ParseResult<
        Self,
    >)
        requires
            old(parser).wf(),
        ensures
            !starts_closed_expr(old(parser).lexeme.class@) ==> r == Err::<Self, ParseError>(
                ParseError::Invalid,
            ) && *final(parser) == *old(parser),
            r matches Ok(e) ==> final(parser).consumed_from(*old(parser), e.tokens()),
            r matches Ok(Expr::ClosedExpr(_)) ==> !(final(parser).lexeme.class is Apply),
            w matches Some((x, f)) ==> ((x is Application || !(f is Apply)) && old(parser).sees(
                x.tokens() + seq![f],
            ) ==> (r matches Ok(y) && y.tokens() == x.tokens())),
        decreases old(parser).remaining(), 5nat,
    {
        let ghost pair = w->0;
        let ghost x = pair.0;
        let ghost f = pair.1;
        let ghost owed = w is Some && (x is Application || !(f is Apply)) && old(parser).sees(
            x.tokens() + seq![f],
        );
        let ghost first = match x {
            Expr::Application { operator, argument } => operator,
            Expr::ClosedExpr(c) => c,
        };
        let ghost rest = match x {
            Expr::Application { operator, argument } => seq![Token::Apply] + argument.tokens()
                + seq![f],
            Expr::ClosedExpr(c) => seq![f],
        };
        proof {
            if owed {
                assert(x.tokens() + seq![f] =~= first.tokens() + rest);
                old(parser).lemma_sees_prefix(first.tokens(), rest);
            }
        }
        let closed = match ClosedExpr::try_maybe_parse_as(
            parser,
            Ghost(if owed { Some(first) } else { None }),
        ) {
            Ok(Some(closed)) => closed,
            Ok(None) => return Err(ParseError::Invalid),
            Err(e) => return Err(e),
        };
        proof {
            if owed {
                Parser::lemma_advance_first(*old(parser), *parser, first.tokens(), rest);
            }
        }
        if matches!(parser.lexeme.class, Class::Apply) {
            let ghost p1 = *parser;
            parser.step();
            proof {
                if owed {
                    let argument = x->Application_argument;
                    assert(rest =~= seq![Token::Apply] + (argument.tokens() + seq![f]));
                    Parser::lemma_advance(p1, *parser, seq![Token::Apply], argument.tokens() + seq![f]);
                    parser.lemma_sees_prefix(argument.tokens(), seq![f]);
                }
            }
            let argument = match ClosedExpr::try_maybe_parse_as(
                parser,
                Ghost(if owed { Some(x->Application_argument) } else { None }),
            ) {
                Ok(Some(argument)) => argument,
                Ok(None) => return Err(ParseError::Invalid),
                Err(e) => return Err(e),
            };
            let e = Expr::Application { operator: closed, argument };
            assert(parser.consumed@ =~= old(parser).consumed@ + e.tokens());
            return Ok(e);
        }
        Ok(Expr::ClosedExpr(closed))
    }
}

/// Where the tag of a definition stands among the four tokens `a` that
/// begin it: after `|`, and after `~` where one follows.
pub open spec fn head_tag_index(a: Seq<Token>) -> int {
    if a[1] is Dynamic {
        2
    } else {
        1
    }
}

/// `| [~] tag :` at the start of a definition: its extent and its tag.
#[verifier::rlimit(100)]
#[verifier::spinoff_prover]
fn definition_head(parser: &mut Parser) -> (r: ParseResult<(Phase, Tag)>)
    requires
        old(parser).wf(),
        old(parser).lexeme.class is Define,
    ensures
        final(parser).wf(),
        final(parser).lexer.text() == old(parser).lexer.text(),
        ({
            let a = old(parser).ahead(4);
            let k = head_tag_index(a);
            &&& !(a[k] is Tag) ==> r == Err::<(Phase, Tag), ParseError>(ParseError::Invalid)
            &&& a[k] is Tag && !(a[k + 1] is Typify) ==> r == Err::<(Phase, Tag), ParseError>(
                ParseError::Expected("Typify in definition"),
            )
            &&& a[k] is Tag && a[k + 1] is Typify ==> (r matches Ok((ph, tg)) && (ph is Nonstatic
                <==> a[1] is Dynamic) && (ph is Universal <==> !(a[1] is Dynamic))
                && tg.tokens() == seq![a[k]] && final(parser).consumed_from(
                *old(parser),
                a.subrange(0, k + 2),
            ) && a.subrange(0, k + 2) == seq![Token::Define] + ph.tokens() + tg.tokens() + seq![
                Token::Typify,
            ])
        }),
{
    let ghost a = old(parser).ahead(4);
    proof {
        lemma_stream_len(old(parser).lexer.text(), old(parser).at@, 4);
        old(parser).lemma_ahead_first(4);
    }
    parser.step();
    let ghost p1 = *parser;
    proof {
        assert(parser.ahead(3) == a.drop_first());
        parser.lemma_ahead_first(3);
    }
    let phase = Phase::parse(parser);
    let ghost k = head_tag_index(a);
    proof {
        lemma_stream_len(parser.lexer.text(), parser.at@, 2);
        assert(a.drop_first() =~= a.subrange(1, 4));
        if phase is Nonstatic {
            Parser::lemma_consumed_was_ahead(p1, *parser, phase.tokens(), 2);
            assert(phase.tokens().len() + 2 == 3);
            lemma_after_one(a, 1, phase.tokens(), parser.ahead(2));
        } else {
            lemma_stream_prefix(p1.lexer.text(), p1.at@, 2, 1);
            assert(parser.ahead(2) =~= a.subrange(1, 3));
        }
        assert(parser.ahead(2) =~= a.subrange(k, k + 2));
        parser.lemma_ahead_first(2);
    }
    let ghost p2 = *parser;
    let tag = match Tag::try_parse(parser) {
        Ok(tag) => tag,
        Err(e) => return Err(e),
    };
    proof {
        Parser::lemma_consumed_was_ahead(p2, *parser, tag.tokens(), 1);
        lemma_stream_len(parser.lexer.text(), parser.at@, 1);
        assert(tag.tokens().len() == 1);
        let ts = a.subrange(0, k + 2);
        assert(ts.subrange(k, ts.len() as int) =~= a.subrange(k, k + 2));
        lemma_after_one(ts, k, tag.tokens(), parser.ahead(1));
        assert(parser.ahead(1) =~= a.subrange(k + 1, k + 2));
        parser.lemma_ahead_first(1);
    }
    if !matches!(parser.lexeme.class, Class::Typify) {
        return Err(ParseError::Expected("Typify in definition"));
    }
    parser.step();
    proof {
        assert(tag.tokens() == seq![a[k]]);
        if k == 2 {
            assert(phase.tokens() == seq![a[1]]);
        }
        assert(a.subrange(0, k + 2) =~= seq![Token::Define] + phase.tokens() + tag.tokens() + seq![
            Token::Typify,
        ]);
        assert(parser.consumed@ =~= old(parser).consumed@ + a.subrange(0, k + 2));
    }
    Ok((phase, tag))
}

impl Definition {
    /// `| [~] tag : type = value` where the current lexeme is `|`; otherwise
    /// nothing, with the parser untouched. Where the tokens ahead spell a
    /// definition followed by something other than `.`, it succeeds.
    pub fn try_maybe_parse(parser: &mut Parser) -> (r: ParseResult<Option<Self>>)
        requires
            old(parser).wf(),
        ensures
            r matches Ok(None) <==> !(old(parser).lexeme.class is Define),
            r matches Ok(None) ==> *final(parser) == *old(parser),
            r matches Ok(Some(d)) ==> final(parser).consumed_from(*old(parser), d.tokens()),
            r matches Ok(Some(d)) ==> (d.phase is Nonstatic <==> old(parser).ahead(4)[1] is Dynamic)
                && !(d.phase is Nondynamic),
            old(parser).lexeme.class is Define && !(old(parser).ahead(4)[head_tag_index(
                old(parser).ahead(4),
            )] is Tag) ==> r == Err::<Option<Self>, ParseError>(ParseError::Invalid),
            old(parser).lexeme.class is Define && old(parser).ahead(4)[head_tag_index(
                old(parser).ahead(4),
            )] is Tag && !(old(parser).ahead(4)[head_tag_index(old(parser).ahead(4)) + 1] is Typify)
                ==> r == Err::<Option<Self>, ParseError>(
                ParseError::Expected("Typify in definition"),
            ),
            (exists|x: Definition, f: Token| !(f is Apply) && old(parser).sees(
                #[trigger] (x.tokens() + seq![f]),
            )) ==> (r matches Ok(Some(_))),
    {
        let ghost w = if exists|x: Definition, f: Token| !(f is Apply) && parser.sees(
            #[trigger] (x.tokens() + seq![f]),
        ) {
            Some(
                choose|x: Definition, f: Token| !(f is Apply) && parser.sees(
                    #[trigger] (x.tokens() + seq![f]),
                ),
            )
        } else {
            None
        };
        Self::try_maybe_parse_as(parser, Ghost(w))
    }

    /// As `try_maybe_parse`, with no match turned into `ParseError::Invalid`
    /// and errors passed on.
    pub fn try_parse(parser: &mut Parser) -> (r: ParseResult<Self>)
        requires
            old(parser).wf(),
        ensures
            !(old(parser).lexeme.class is Define) ==> r == Err::<Self, ParseError>(ParseError::Invalid)
                && *final(parser) == *old(parser),
            old(parser).lexeme.class is Define && !(old(parser).ahead(4)[head_tag_index(
                old(parser).ahead(4),
            )] is Tag) ==> r == Err::<Self, ParseError>(ParseError::Invalid),
            old(parser).lexeme.class is Define && old(parser).ahead(4)[head_tag_index(
                old(parser).ahead(4),
            )] is Tag && !(old(parser).ahead(4)[head_tag_index(old(parser).ahead(4)) + 1] is Typify)
                ==> r == Err::<Self, ParseError>(ParseError::Expected("Typify in definition")),
            r matches Ok(d) ==> (d.phase is Nonstatic <==> old(parser).ahead(4)[1] is Dynamic)
                && !(d.phase is Nondynamic),
            r matches Ok(x) ==> final(parser).consumed_from(*old(parser), x.tokens()),
            (exists|x: Definition, f: Token| !(f is Apply) && old(parser).sees(
                #[trigger] (x.tokens() + seq![f]),
            )) ==> r is Ok,
    {
        match Self::try_maybe_parse(parser) {
            Ok(Some(x)) => Ok(x),
            Ok(None) => Err(ParseError::Invalid),
            Err(e) => Err(e),
        }
    }

    #[verifier::rlimit(100)]
    #[verifier::spinoff_prover]
    fn try_maybe_parse_as(parser: &mut Parser, Ghost(w): Ghost<Option<(Self, Token)>>) -> (r:
        ParseResult<Option<Self>>)
        requires
            old(parser).wf(),
        ensures
            r matches Ok(None) <==> !(old(parser).lexeme.class is Define),
            r matches Ok(None) ==> *final(parser) == *old(parser),
            r matches Ok(Some(d)) ==> final(parser).consumed_from(*old(parser), d.tokens()),
            r matches Ok(Some(d)) ==> (d.phase is Nonstatic <==> old(parser).ahead(4)[1] is Dynamic)
                && !(d.phase is Nondynamic),
            old(parser).lexeme.class is Define && !(old(parser).ahead(4)[head_tag_index(
                old(parser).ahead(4),
            )] is Tag) ==> r == Err::<Option<Self>, ParseError>(ParseError::Invalid),
            old(parser).lexeme.class is Define && old(parser).ahead(4)[head_tag_index(
                old(parser).ahead(4),
            )] is Tag && !(old(parser).ahead(4)[head_tag_index(old(parser).ahead(4)) + 1] is Typify)
                ==> r == Err::<Option<Self>, ParseError>(
                ParseError::Expected("Typify in definition"),
            ),
            w matches Some((x, f)) ==> (!(f is Apply) && old(parser).sees(x.tokens() + seq![f])
                ==> (r matches Ok(Some(y)) && y.tokens() == x.tokens())),
        decreases old(parser).remaining(), 6nat,
    {
        let ghost pair = w->0;
        let ghost x = pair.0;
        let ghost f = pair.1;
        let ghost owed = w is Some && !(f is Apply) && old(parser).sees(x.tokens() + seq![f]);
        let ghost ph = x.phase.tokens();
        let ghost tg = x.tag.tokens();
        let ghost ty = x.ty.tokens();
        let ghost va = x.value.tokens();
        let ghost colon = seq![Token::Typify];
        let ghost eq = seq![Token::Equal];
        let ghost fs = seq![f];
        proof {
            if owed {
                old(parser).lemma_ahead_first((x.tokens() + fs).len());
                assert(x.tokens() + fs =~= seq![Token::Define] + (ph + tg + colon + ty + eq + va + fs));
            }
        }
        if !matches!(parser.lexeme.class, Class::Define) {
            return Ok(None);
        }
        let ghost a = old(parser).ahead(4);
        let ghost pre = seq![Token::Define] + ph + tg + colon;
        let ghost rest = ty + eq + va + fs;
        proof {
            lemma_stream_len(old(parser).lexer.text(), old(parser).at@, 4);
            if owed {
                lemma_expr_first(x.ty);
                assert(x.tokens() + fs =~= pre + rest);
                lemma_stream_prefix(
                    old(parser).lexer.text(),
                    old(parser).at@,
                    4,
                    ((pre + rest).len() - 4) as nat,
                );
                lemma_stream_has_no_static(old(parser).lexer.text(), old(parser).at@, 4);
                assert(a =~= (pre + rest).subrange(0, 4));
                if x.phase is Nondynamic {
                    assert(a[1] == Token::Static);
                }
                assert(pre =~= a.subrange(0, head_tag_index(a) + 2));
            }
        }
        let (phase, tag) = match definition_head(parser) {
            Ok(head) => head,
            Err(e) => return Err(e),
        };
        proof {
            if owed {
                Parser::lemma_advance(*old(parser), *parser, pre, rest);
                assert(rest =~= (ty + seq![Token::Equal]) + (va + fs));
                parser.lemma_sees_prefix(ty + seq![Token::Equal], va + fs);
            }
        }
        let ghost p4 = *parser;
        let ty_expr = match Expr::try_parse_as(
            parser,
            Ghost(if owed { Some((x.ty, Token::Equal)) } else { None }),
        ) {
            Ok(t) => t,
            Err(e) => return Err(e),
        };
        proof {
            if owed {
                assert(ty + eq + va + fs =~= ty + (eq + va + fs));
                Parser::lemma_advance_first(p4, *parser, ty, eq + va + fs);
            }
        }
        if !matches!(parser.lexeme.class, Class::Equal) {
            return Err(ParseError::Expected("Equal in definition"));
        }
        let ghost p5 = *parser;
        parser.step();
        proof {
            if owed {
                assert(eq + va + fs =~= seq![Token::Equal] + (va + fs));
                Parser::lemma_advance(p5, *parser, seq![Token::Equal], va + fs);
            }
        }
        let value = match Expr::try_parse_as(
            parser,
            Ghost(if owed { Some((x.value, f)) } else { None }),
        ) {
            Ok(value) => value,
            Err(e) => return Err(e),
        };
        let d = Self { phase, tag, ty: ty_expr, value };
        assert(parser.consumed@ =~= old(parser).consumed@ + d.tokens());
        Ok(Some(d))
    }
}

impl Statement {
    /// A definition where the current lexeme is `|`, an expression otherwise.
    /// Where the tokens ahead spell a statement followed by something other
    /// than `.`, it succeeds.
    pub fn try_parse(parser: &mut Parser) -> (r: ParseResult<Self>)
        requires
            old(parser).wf(),
        ensures
            r matches Ok(s) ==> final(parser).consumed_from(*old(parser), s.tokens()),
            r matches Ok(s) ==> (s is Definition <==> old(parser).lexeme.class is Define),
            old(parser).lexeme.class is Define && !(old(parser).ahead(4)[head_tag_index(
                old(parser).ahead(4),
            )] is Tag) ==> r == Err::<Self, ParseError>(ParseError::Invalid),
            old(parser).lexeme.class is Define && old(parser).ahead(4)[head_tag_index(
                old(parser).ahead(4),
            )] is Tag && !(old(parser).ahead(4)[head_tag_index(old(parser).ahead(4)) + 1] is Typify)
                ==> r == Err::<Self, ParseError>(ParseError::Expected("Typify in definition")),
            !(old(parser).lexeme.class is Define) && !starts_closed_expr(
                old(parser).lexeme.class@,
            ) ==> r == Err::<Self, ParseError>(ParseError::Invalid) && *final(parser)
                == *old(parser),
            (exists|x: Statement, f: Token| !(f is Apply) && old(parser).sees(
                #[trigger] (x.tokens() + seq![f]),
            )) ==> r is Ok,
    {
        let ghost w = if exists|x: Statement, f: Token| !(f is Apply) && parser.sees(
            #[trigger] (x.tokens() + seq![f]),
        ) {
            Some(
                choose|x: Statement, f: Token| !(f is Apply) && parser.sees(
                    #[trigger] (x.tokens() + seq![f]),
                ),
            )
        } else {
            None
        };
        Self::try_parse_as(parser, Ghost(w))
    }

    fn try_parse_as(parser: &mut Parser, Ghost(w): Ghost<Option<(Self, Token)>>) -> (r: ParseResult<
        Self,
    >)
        requires
            old(parser).wf(),
        ensures
            r matches Ok(s) ==> final(parser).consumed_from(*old(parser), s.tokens()),
            r matches Ok(s) ==> (s is Definition <==> old(parser).lexeme.class is Define),
            old(parser).lexeme.class is Define && !(old(parser).ahead(4)[head_tag_index(
                old(parser).ahead(4),
            )] is Tag) ==> r == Err::<Self, ParseError>(ParseError::Invalid),
            old(parser).lexeme.class is Define && old(parser).ahead(4)[head_tag_index(
                old(parser).ahead(4),
            )] is Tag && !(old(parser).ahead(4)[head_tag_index(old(parser).ahead(4)) + 1] is Typify)
                ==> r == Err::<Self, ParseError>(ParseError::Expected("Typify in definition")),
            !(old(parser).lexeme.class is Define) && !starts_closed_expr(
                old(parser).lexeme.class@,
            ) ==> r == Err::<Self, ParseError>(ParseError::Invalid) && *final(parser)
                == *old(parser),
            w matches Some((x, f)) ==> (!(f is Apply) && old(parser).sees(x.tokens() + seq![f])
                ==> (r matches Ok(y) && y.tokens() == x.tokens())),
        decreases old(parser).remaining(), 7nat,
    {
        let ghost pair = w->0;
        let ghost x = pair.0;
        let ghost f = pair.1;
        let ghost owed = w is Some && !(f is Apply) && old(parser).sees(x.tokens() + seq![f]);
        proof {
            if owed {
                lemma_statement_first(x);
                old(parser).lemma_ahead_first((x.tokens() + seq![f]).len());
            }
        }
        match Definition::try_maybe_parse_as(
            parser,
            Ghost(
                match x {
                    Statement::Definition(d) => Some((d, f)),
                    _ => None,
                },
            ),
        ) {
            Ok(Some(definition)) => Ok(Statement::Definition(definition)),
            Err(e) => Err(e),
            Ok(None) => match Expr::try_parse_as(
                parser,
                Ghost(
                    match x {
                        Statement::Expr(e) => Some((e, f)),
                        _ => None,
                    },
                ),
            ) {
                Ok(expr) => Ok(Statement::Expr(expr)),
                Err(e) => Err(e),
            },
        }
    }
}

impl File {
    /// Definitions one after another up to the end of the input. Where the
    /// tokens ahead spell a file up to the end, it succeeds.
    #[verifier::rlimit(100)]
    #[verifier::spinoff_prover]
    pub fn try_parse(parser: &mut Parser) -> (r: ParseResult<Self>)
        requires
            old(parser).wf(),
        ensures
            r matches Ok(f) ==> final(parser).consumed_from(*old(parser), f.tokens())
                && final(parser).lexeme.class is Sentinel,
            old(parser).consumed@.len() == 0 ==> (r matches Ok(f) ==> stream(
                final(parser).lexer.text(),
                old(parser).origin@,
                f.tokens().len(),
            ).0 == f.tokens()),
            old(parser).lexeme.class is Sentinel ==> (r matches Ok(f) && f.definitions@.len()
                == 0),
            !(old(parser).lexeme.class is Sentinel) && !(old(parser).lexeme.class is Define)
                ==> r == Err::<Self, ParseError>(
                ParseError::Expected("Definition or EOF in file"),
            ),
            (exists|x: File| old(parser).sees(#[trigger] (x.tokens() + seq![Token::Sentinel])))
                ==> r is Ok,
    {
        let ghost owed = exists|x: File| parser.sees(#[trigger] (x.tokens() + seq![Token::Sentinel]));
        let ghost x = choose|x: File| parser.sees(#[trigger] (x.tokens() + seq![Token::Sentinel]));
        let ghost ws = x.definitions@;
        let ghost n = ws.len();
        let ghost end = seq![Token::Sentinel];
        proof {
            if owed {
                assert(ws.subrange(0, n as int) =~= ws);
            }
        }
        let mut definitions: Vec<Definition> = Vec::new();
        loop
            invariant
                parser.wf(),
                parser.lexer.text() == old(parser).lexer.text(),
                parser.origin == old(parser).origin,
                parser.consumed@ == old(parser).consumed@ + definitions_tokens(definitions@),
                old(parser).lexeme.location <= parser.lexeme.location,
                definitions@.len() == 0 ==> *parser == *old(parser),
                old(parser).lexeme.class is Sentinel ==> definitions@.len() == 0,
                !(old(parser).lexeme.class is Define) ==> definitions@.len() == 0,
                owed == exists|x: File| old(parser).sees(#[trigger] (x.tokens() + seq![Token::Sentinel])),
                ws == x.definitions@,
                n == ws.len(),
                end == seq![Token::Sentinel],
                owed ==> definitions@.len() <= n && parser.sees(
                    definitions_tokens(ws.subrange(definitions@.len() as int, n as int)) + end,
                ),
            ensures
                parser.lexeme.class is Sentinel,
            decreases parser.remaining(),
        {
            if matches!(parser.lexeme.class, Class::Sentinel) {
                break;
            }
            let ghost before = definitions@;
            let ghost i = definitions@.len();
            let ghost tail = ws.subrange(i as int, n as int);
            let ghost after_i = definitions_tokens(ws.subrange(i + 1 as int, n as int)) + end;
            let ghost f = after_i[0];
            proof {
                if owed {
                    if i == n {
                        assert(tail =~= Seq::<Definition>::empty());
                        assert(definitions_tokens(tail) + end =~= end);
                        parser.lemma_ahead_first(1);
                    }
                    lemma_definitions_front(tail);
                    assert(tail.subrange(1, tail.len() as int) =~= ws.subrange(i + 1 as int, n as int));
                    assert(tail[0] == ws[i as int]);
                    if i + 1 < n {
                        let rest = ws.subrange(i + 1 as int, n as int);
                        lemma_definitions_front(rest);
                        assert(rest[0].tokens()[0] == Token::Define);
                        assert(after_i[0] == rest[0].tokens()[0]);
                    } else {
                        assert(ws.subrange(i + 1 as int, n as int) =~= Seq::<Definition>::empty());
                        assert(after_i =~= end);
                    }
                    assert(definitions_tokens(tail) + end =~= ws[i as int].tokens() + after_i);
                    assert(ws[i as int].tokens() + after_i =~= (ws[i as int].tokens() + seq![f])
                        + after_i.drop_first());
                    parser.lemma_sees_prefix(ws[i as int].tokens() + seq![f], after_i.drop_first());
                }
            }
            let ghost p1 = *parser;
            match Definition::try_maybe_parse_as(
                parser,
                Ghost(if owed { Some((ws[i as int], f)) } else { None }),
            ) {
                Ok(Some(definition)) => {
                    proof {
                        if owed {
                            Parser::lemma_advance(p1, *parser, ws[i as int].tokens(), after_i);
                        }
                    }
                    definitions.push(definition);
                    assert(definitions@.drop_last() =~= before);
                    assert(parser.consumed@ =~= old(parser).consumed@ + definitions_tokens(
                        definitions@,
                    ));
                },
                Ok(None) => return Err(ParseError::Expected("Definition or EOF in file")),
                Err(e) => return Err(e),
            }
        }
        let f = Self { definitions };
        assert(old(parser).consumed@ + seq![] =~= old(parser).consumed@);
        proof {
            if old(parser).consumed@.len() == 0 {
                assert(old(parser).consumed@ + f.tokens() =~= f.tokens());
            }
        }
        Ok(f)
    }
}

} // verus!
