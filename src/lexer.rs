use ascii::AsciiString;
use vstd::prelude::*;

verus! {

// The bytes that the lexicon gives a meaning to.
pub const TAB: u8 = 9;
pub const NEWLINE: u8 = 10;
pub const SPACE: u8 = 32;
pub const QUOTE: u8 = 34;
pub const DOLLAR: u8 = 36;
pub const LEFT_PAREN: u8 = 40;
pub const RIGHT_PAREN: u8 = 41;
pub const COMMA: u8 = 44;
pub const HYPHEN: u8 = 45;
pub const DOT: u8 = 46;
pub const DIGIT_0: u8 = 48;
pub const DIGIT_9: u8 = 57;
pub const COLON: u8 = 58;
pub const SEMICOLON: u8 = 59;
pub const LESS: u8 = 60;
pub const EQUALS: u8 = 61;
pub const GREATER: u8 = 62;
pub const UPPER_A: u8 = 65;
pub const UPPER_Z: u8 = 90;
pub const BACKSLASH: u8 = 92;
pub const UNDERSCORE: u8 = 95;
pub const LOWER_A: u8 = 97;
pub const LOWER_Z: u8 = 122;
pub const LEFT_BRACE: u8 = 123;
pub const BAR: u8 = 124;
pub const RIGHT_BRACE: u8 = 125;
pub const TILDE: u8 = 126;

/// What the contents of an ASCII string are, as bytes.
pub uninterp spec fn ascii_bytes(s: AsciiString) -> Seq<u8>;

#[verifier::external_type_specification]
#[verifier::external_body]
pub struct ExAsciiString(AsciiString);

/// Relies on `AsciiString::from_ascii`: it succeeds exactly when every byte is
/// below 128, and then holds those bytes unchanged.
#[verifier::external_body]
fn ascii_from_bytes(b: Vec<u8>) -> (r: Option<AsciiString>)
    ensures
        r.is_some() <==> (forall|i: int| 0 <= i < b@.len() ==> b@[i] < 128),
        r matches Some(s) ==> ascii_bytes(s) == b@,
{
    match AsciiString::from_ascii(b) {
        Ok(s) => Some(s),
        Err(_) => None,
    }
}

/// Relies on the derived `Clone` of `AsciiString`: the copy holds the same bytes.
pub assume_specification[ <AsciiString as Clone>::clone ](s: &AsciiString) -> (r: AsciiString)
    ensures
        ascii_bytes(r) == ascii_bytes(*s),
;

/// The class of a lexeme.
#[derive(Debug, PartialEq, Eq, Clone)]
pub enum Class {
    Define,
    IntoLazy,
    Tag(AsciiString),
    Quote(Vec<u8>),
    Typify,
    Dynamic,
    Abstract,
    Equal,
    Apply,
    LeftParen,
    RightParen,
    LeftBrace,
    RightBrace,
    LeftAngle,
    RightAngle,
    Comma,
    Semicolon,
    Invalid,
    Sentinel,
}

/// The mathematical value of a token class: payloads as byte sequences.
pub enum Token {
    Define,
    IntoLazy,
    Tag(Seq<u8>),
    Quote(Seq<u8>),
    Typify,
    Dynamic,
    Abstract,
    Equal,
    Apply,
    LeftParen,
    RightParen,
    LeftBrace,
    RightBrace,
    LeftAngle,
    RightAngle,
    Comma,
    Semicolon,
    Invalid,
    Sentinel,
    /// The `Static` extent annotation, which the lexicon gives no spelling:
    /// no lexeme carries it.
    Static,
}

impl Class {
    pub open spec fn view(&self) -> Token {
        match self {
            Class::Define => Token::Define,
            Class::IntoLazy => Token::IntoLazy,
            Class::Tag(s) => Token::Tag(ascii_bytes(*s)),
            Class::Quote(q) => Token::Quote(q@),
            Class::Typify => Token::Typify,
            Class::Dynamic => Token::Dynamic,
            Class::Abstract => Token::Abstract,
            Class::Equal => Token::Equal,
            Class::Apply => Token::Apply,
            Class::LeftParen => Token::LeftParen,
            Class::RightParen => Token::RightParen,
            Class::LeftBrace => Token::LeftBrace,
            Class::RightBrace => Token::RightBrace,
            Class::LeftAngle => Token::LeftAngle,
            Class::RightAngle => Token::RightAngle,
            Class::Comma => Token::Comma,
            Class::Semicolon => Token::Semicolon,
            Class::Invalid => Token::Invalid,
            Class::Sentinel => Token::Sentinel,
        }
    }
}

/// A classified lexeme and the offset of its first byte.
#[derive(Debug)]
pub struct Lexeme {
    pub class: Class,
    pub location: usize,
}

impl Lexeme {
    /// A copy of this lexeme's class.
    pub fn class(&self) -> (r: Class)
        ensures
            r@ == self.class@,
    {
        match &self.class {
            Class::Define => Class::Define,
            Class::IntoLazy => Class::IntoLazy,
            Class::Tag(s) => Class::Tag(s.clone()),
            Class::Quote(q) => Class::Quote(q.clone()),
            Class::Typify => Class::Typify,
            Class::Dynamic => Class::Dynamic,
            Class::Abstract => Class::Abstract,
            Class::Equal => Class::Equal,
            Class::Apply => Class::Apply,
            Class::LeftParen => Class::LeftParen,
            Class::RightParen => Class::RightParen,
            Class::LeftBrace => Class::LeftBrace,
            Class::RightBrace => Class::RightBrace,
            Class::LeftAngle => Class::LeftAngle,
            Class::RightAngle => Class::RightAngle,
            Class::Comma => Class::Comma,
            Class::Semicolon => Class::Semicolon,
            Class::Invalid => Class::Invalid,
            Class::Sentinel => Class::Sentinel,
        }
    }
}

/// Bytes that start and continue a tag: `[A-Za-z0-9_]`.
pub open spec fn is_tag_byte(b: u8) -> bool {
    b == UNDERSCORE || (DIGIT_0 <= b <= DIGIT_9) || (UPPER_A <= b <= UPPER_Z) || (LOWER_A <= b <= LOWER_Z)
}

/// Space, tab and newline.
pub open spec fn is_space(b: u8) -> bool {
    b == SPACE || b == TAB || b == NEWLINE
}

/// The first position at or after `i` that holds no whitespace (or the end).
pub open spec fn skip_space(src: Seq<u8>, i: nat) -> nat
    decreases src.len() - i,
{
    if i < src.len() && is_space(src[i as int]) {
        skip_space(src, i + 1)
    } else {
        i
    }
}

/// The end of the run of tag bytes that starts at `i`.
pub open spec fn tag_end(src: Seq<u8>, i: nat) -> nat
    decreases src.len() - i,
{
    if i < src.len() && is_tag_byte(src[i as int]) {
        tag_end(src, i + 1)
    } else {
        i
    }
}

/// Scanning the inside of a quoted literal from `i`: the position just past the
/// closing `"`, or `None` where the input ends first. A backslash takes the
/// byte after it along, whatever that byte is.
pub open spec fn quote_end(src: Seq<u8>, i: nat) -> Option<nat>
    decreases src.len() - i,
{
    if i >= src.len() {
        None
    } else if src[i as int] == QUOTE {
        Some(i + 1)
    } else if src[i as int] == BACKSLASH {
        if i + 1 < src.len() {
            quote_end(src, i + 2)
        } else {
            None
        }
    } else {
        quote_end(src, i + 1)
    }
}

/// The token of a byte that forms a lexeme by itself.
pub open spec fn punctuation(b: u8) -> Token {
    if b == BAR {
        Token::Define
    } else if b == TILDE {
        Token::Dynamic
    } else if b == COLON {
        Token::Typify
    } else if b == EQUALS {
        Token::Equal
    } else if b == DOLLAR {
        Token::Abstract
    } else if b == DOT {
        Token::Apply
    } else if b == LEFT_PAREN {
        Token::LeftParen
    } else if b == RIGHT_PAREN {
        Token::RightParen
    } else if b == LEFT_BRACE {
        Token::LeftBrace
    } else if b == RIGHT_BRACE {
        Token::RightBrace
    } else if b == LESS {
        Token::LeftAngle
    } else if b == GREATER {
        Token::RightAngle
    } else if b == COMMA {
        Token::Comma
    } else if b == SEMICOLON {
        Token::Semicolon
    } else {
        Token::Invalid
    }
}

/// The lexeme found by scanning `src` from `i`: its token, its location, and
/// the position after it.
pub open spec fn lex_at(src: Seq<u8>, i: nat) -> (Token, nat, nat) {
    let s = skip_space(src, i);
    if s >= src.len() {
        (Token::Sentinel, s, s)
    } else {
        let b = src[s as int];
        if is_tag_byte(b) {
            let e = tag_end(src, s + 1);
            (Token::Tag(src.subrange(s as int, e as int)), s, e)
        } else if b == QUOTE {
            match quote_end(src, s + 1) {
                Some(e) => (Token::Quote(src.subrange(s + 1 as int, e - 1 as int)), s, e),
                None => (Token::Invalid, s, src.len()),
            }
        } else if b == HYPHEN {
            if s + 1 < src.len() && src[s + 1 as int] == GREATER {
                (Token::IntoLazy, s, s + 2)
            } else {
                (Token::Invalid, s, s + 1)
            }
        } else {
            (punctuation(b), s, s + 1)
        }
    }
}

proof fn lemma_skip_space_bounds(src: Seq<u8>, i: nat)
    requires
        i <= src.len(),
    ensures
        i <= skip_space(src, i) <= src.len(),
    decreases src.len() - i,
{
    if i < src.len() && is_space(src[i as int]) {
        lemma_skip_space_bounds(src, i + 1);
    }
}

proof fn lemma_tag_end_bounds(src: Seq<u8>, i: nat)
    requires
        i <= src.len(),
    ensures
        i <= tag_end(src, i) <= src.len(),
    decreases src.len() - i,
{
    if i < src.len() && is_tag_byte(src[i as int]) {
        lemma_tag_end_bounds(src, i + 1);
    }
}

proof fn lemma_quote_end_bounds(src: Seq<u8>, i: nat)
    ensures
        quote_end(src, i) matches Some(e) ==> i < e <= src.len(),
    decreases src.len() - i,
{
    if i < src.len() && src[i as int] != QUOTE {
        if src[i as int] == BACKSLASH {
            if i + 1 < src.len() {
                lemma_quote_end_bounds(src, i + 2);
            }
        } else {
            lemma_quote_end_bounds(src, i + 1);
        }
    }
}

/// Where a lexeme scanned from `i` lies: at or after `i`, ending no later
/// than the buffer; only the end of the buffer gives `Sentinel`, which
/// consumes nothing, and every other lexeme takes at least one byte.
pub proof fn lemma_lex_at_bounds(src: Seq<u8>, i: nat)
    requires
        i <= src.len(),
    ensures
        ({
            let (t, loc, next) = lex_at(src, i);
            &&& i <= loc <= next <= src.len()
            &&& (t is Sentinel <==> loc == src.len())
            &&& t is Sentinel ==> next == src.len()
            &&& !(t is Sentinel) ==> loc < next
        }),
{
    lemma_skip_space_bounds(src, i);
    let s = skip_space(src, i);
    if s < src.len() {
        lemma_tag_end_bounds(src, s + 1);
        lemma_quote_end_bounds(src, s + 1);
    }
}

/// Input that holds only whitespace from `i` on lexes to `Sentinel` at the
/// end of the buffer, consuming the rest of it.
pub proof fn lemma_whitespace_lexes_to_sentinel(src: Seq<u8>, i: nat)
    requires
        i <= src.len(),
        forall|j: int| i <= j < src.len() ==> is_space(#[trigger] src[j]),
    ensures
        lex_at(src, i) == (Token::Sentinel, src.len(), src.len()),
    decreases src.len() - i,
{
    if i < src.len() {
        lemma_whitespace_lexes_to_sentinel(src, i + 1);
    }
}

proof fn lemma_tag_end_of_tag_bytes(src: Seq<u8>, i: nat)
    requires
        i <= src.len(),
        forall|j: int| i <= j < src.len() ==> is_tag_byte(#[trigger] src[j]),
    ensures
        tag_end(src, i) == src.len(),
    decreases src.len() - i,
{
    if i < src.len() {
        lemma_tag_end_of_tag_bytes(src, i + 1);
    }
}

/// A nonempty word of tag bytes lexes to one `Tag` holding the whole word,
/// at location 0, with the cursor at its end.
pub proof fn lemma_word_lexes_to_one_tag(word: Seq<u8>)
    requires
        word.len() > 0,
        forall|j: int| 0 <= j < word.len() ==> is_tag_byte(#[trigger] word[j]),
    ensures
        lex_at(word, 0) == (Token::Tag(word), 0nat, word.len()),
{
    assert(is_tag_byte(word[0]));
    lemma_tag_end_of_tag_bytes(word, 1);
    assert(word.subrange(0, word.len() as int) =~= word);
}

proof fn lemma_tag_end_spans_tag_bytes(src: Seq<u8>, i: nat)
    requires
        i <= src.len(),
    ensures
        forall|j: int| i <= j < tag_end(src, i) ==> is_tag_byte(#[trigger] src[j]),
    decreases src.len() - i,
{
    if i < src.len() && is_tag_byte(src[i as int]) {
        lemma_tag_end_spans_tag_bytes(src, i + 1);
    }
}

proof fn lemma_quote_end_within(src: Seq<u8>, start: nat, j: nat, e: nat)
    requires
        start < j,
        quote_end(src, j) == Some(e),
    ensures
        quote_end(src.subrange(start as int, e as int), (j - start) as nat) == Some(
            (e - start) as nat,
        ),
    decreases src.len() - j,
{
    lemma_quote_end_bounds(src, j);
    let sub = src.subrange(start as int, e as int);
    if src[j as int] == QUOTE {
    } else if src[j as int] == BACKSLASH {
        lemma_quote_end_bounds(src, j + 2);
        lemma_quote_end_within(src, start, j + 2, e);
    } else {
        lemma_quote_end_within(src, start, j + 1, e);
    }
}

/// The bytes of a tag or quoted lexeme, from its location up to the cursor
/// after it, lex again by themselves to the same token.
pub proof fn lemma_relex_span(src: Seq<u8>, i: nat)
    requires
        i <= src.len(),
        lex_at(src, i).0 is Tag || lex_at(src, i).0 is Quote,
    ensures
        ({
            let (t, loc, next) = lex_at(src, i);
            lex_at(src.subrange(loc as int, next as int), 0) == (t, 0nat, (next - loc) as nat)
        }),
{
    lemma_lex_at_bounds(src, i);
    let (t, loc, next) = lex_at(src, i);
    let sub = src.subrange(loc as int, next as int);
    assert(sub[0] == src[loc as int]);
    if is_tag_byte(src[loc as int]) {
        lemma_tag_end_bounds(src, loc + 1);
        lemma_tag_end_spans_tag_bytes(src, loc + 1);
        assert forall|j: int| 0 <= j < sub.len() implies is_tag_byte(#[trigger] sub[j]) by {
            assert(sub[j] == src[loc + j]);
        }
        lemma_word_lexes_to_one_tag(sub);
    } else {
        let e = quote_end(src, loc + 1)->0;
        lemma_quote_end_bounds(src, loc + 1);
        lemma_quote_end_within(src, loc, loc + 1, e);
        assert(sub.subrange(1, sub.len() - 1) =~= src.subrange(loc + 1 as int, e - 1 as int));
    }
}

/// Whether `b` starts or continues a tag.
fn tag_byte(b: u8) -> (r: bool)
    ensures
        r == is_tag_byte(b),
{
    b == UNDERSCORE || (DIGIT_0 <= b && b <= DIGIT_9) || (UPPER_A <= b && b <= UPPER_Z) || (LOWER_A <= b && b <= LOWER_Z)
}

/// The class of a byte that forms a lexeme by itself, `Invalid` for any other.
fn punctuation_class(b: u8) -> (r: Class)
    ensures
        r@ == punctuation(b),
{
    if b == BAR {
        Class::Define
    } else if b == TILDE {
        Class::Dynamic
    } else if b == COLON {
        Class::Typify
    } else if b == EQUALS {
        Class::Equal
    } else if b == DOLLAR {
        Class::Abstract
    } else if b == DOT {
        Class::Apply
    } else if b == LEFT_PAREN {
        Class::LeftParen
    } else if b == RIGHT_PAREN {
        Class::RightParen
    } else if b == LEFT_BRACE {
        Class::LeftBrace
    } else if b == RIGHT_BRACE {
        Class::RightBrace
    } else if b == LESS {
        Class::LeftAngle
    } else if b == GREATER {
        Class::RightAngle
    } else if b == COMMA {
        Class::Comma
    } else if b == SEMICOLON {
        Class::Semicolon
    } else {
        Class::Invalid
    }
}

/// A tokenizer over a borrowed byte buffer.
pub struct Lexer<'source> {
    source: &'source [u8],
    cursor: usize,
}

impl<'source> Lexer<'source> {
    /// The buffer being scanned.
    pub closed spec fn text(&self) -> Seq<u8> {
        self.source@
    }

    /// The position of the next byte to scan.
    pub closed spec fn pos(&self) -> nat {
        self.cursor as nat
    }

    pub open spec fn wf(&self) -> bool {
        &&& self.text().len() < usize::MAX
        &&& self.pos() <= self.text().len()
    }

    /// A tokenizer at the start of `source`; none for a buffer whose length
    /// is the largest `usize`.
    pub fn new(source: &'source [u8]) -> (r: Option<Self>)
        ensures
            r is Some <==> source@.len() != usize::MAX,
            r matches Some(l) ==> l.wf() && l.text() == source@ && l.pos() == 0,
    {
        if source.len() == usize::MAX {
            None
        } else {
            Some(Self { source, cursor: 0 })
        }
    }

    /// The byte at the cursor, if any.
    pub fn peek(&self) -> (r: Option<u8>)
        ensures
            r == (if self.pos() < self.text().len() {
                Some(self.text()[self.pos() as int])
            } else {
                None::<u8>
            }),
    {
        if self.cursor < self.source.len() {
            Some(self.source[self.cursor])
        } else {
            None
        }
    }

    /// Moves the cursor past one byte.
    pub fn next(&mut self)
        requires
            old(self).wf(),
            old(self).pos() < old(self).text().len(),
        ensures
            final(self).wf(),
            final(self).text() == old(self).text(),
            final(self).pos() == old(self).pos() + 1,
    {
        self.cursor = self.cursor + 1;
    }

    /// Finishes a tag whose first byte lies just before the cursor.
    fn lex_tag(&mut self) -> (r: Class)
        requires
            old(self).wf(),
            0 < old(self).pos() <= old(self).text().len(),
            is_tag_byte(old(self).text()[old(self).pos() - 1]),
        ensures
            final(self).wf(),
            final(self).text() == old(self).text(),
            final(self).pos() == tag_end(old(self).text(), old(self).pos()),
            r@ == Token::Tag(
                old(self).text().subrange(old(self).pos() - 1, final(self).pos() as int),
            ),
    {
        let ghost start = self.pos();
        let location = self.cursor - 1;
        let mut bytes: Vec<u8> = Vec::new();
        bytes.push(self.source[location]);
        assert(bytes@ =~= self.text().subrange(start - 1, start as int));
        loop
            invariant
                self.wf(),
                self.text() == old(self).text(),
                0 < start == old(self).pos() <= self.pos(),
                tag_end(self.text(), self.pos()) == tag_end(self.text(), start),
                bytes@ == self.text().subrange(start - 1, self.pos() as int),
                forall|i: int| 0 <= i < bytes@.len() ==> is_tag_byte(#[trigger] bytes@[i]),
            ensures
                !(self.pos() < self.text().len() && is_tag_byte(self.text()[self.pos() as int])),
            decreases self.text().len() - self.pos(),
        {
            let ghost here = self.pos();
            let ghost before = bytes@;
            match self.peek() {
                Some(subsequent) => {
                    if tag_byte(subsequent) {
                        bytes.push(subsequent);
                        self.next();
                        assert(self.text().subrange(start - 1, here + 1 as int) =~= before.push(subsequent));
                    } else {
                        break;
                    }
                },
                None => break,
            }
        }
        proof {
            assert forall|i: int| 0 <= i < bytes@.len() implies bytes@[i] < 128 by {
                assert(is_tag_byte(bytes@[i]));
            }
        }
        match ascii_from_bytes(bytes) {
            Some(tag) => Class::Tag(tag),
            None => Class::Invalid,
        }
    }

    /// Finishes a quoted literal whose opening `"` lies just before the cursor.
    fn lex_quote(&mut self) -> (r: Class)
        requires
            old(self).wf(),
            0 < old(self).pos() <= old(self).text().len(),
        ensures
            final(self).wf(),
            final(self).text() == old(self).text(),
            match quote_end(old(self).text(), old(self).pos()) {
                Some(e) => final(self).pos() == e && r@ == Token::Quote(
                    old(self).text().subrange(old(self).pos() as int, e - 1),
                ),
                None => final(self).pos() == old(self).text().len() && r@ == Token::Invalid,
            },
    {
        let ghost start = self.pos();
        let mut payload: Vec<u8> = Vec::new();
        loop
            invariant_except_break
                start <= self.pos(),
                quote_end(self.text(), self.pos()) == quote_end(self.text(), start),
                payload@ == self.text().subrange(start as int, self.pos() as int),
            invariant
                self.wf(),
                self.text() == old(self).text(),
                start == old(self).pos(),
            ensures
                start < self.pos(),
                quote_end(self.text(), start) == Some(self.pos()),
                payload@ == self.text().subrange(start as int, self.pos() - 1),
            decreases self.text().len() - self.pos(),
        {
            let ghost here = self.pos();
            match self.peek() {
                Some(subsequent) => {
                    self.next();
                    if subsequent == QUOTE {
                        break;
                    }
                    payload.push(subsequent);
                    if subsequent == BACKSLASH {
                        match self.peek() {
                            Some(escaped) => {
                                payload.push(escaped);
                                self.next();
                            },
                            None => {
                                assert(quote_end(self.text(), here) is None);
                                return Class::Invalid;
                            },
                        }
                    }
                    assert(payload@ =~= self.text().subrange(start as int, self.pos() as int));
                },
                None => {
                    assert(quote_end(self.text(), here) is None);
                    return Class::Invalid;
                },
            }
        }
        Class::Quote(payload)
    }

    /// Finishes a lexeme that began with `-`: `->` where a `>` follows,
    /// otherwise an invalid lexeme of the hyphen alone.
    fn lex_prehyphenated(&mut self) -> (r: Class)
        requires
            old(self).wf(),
        ensures
            final(self).wf(),
            final(self).text() == old(self).text(),
            if old(self).pos() < old(self).text().len() && old(self).text()[old(self).pos() as int]
                == GREATER {
                final(self).pos() == old(self).pos() + 1 && r@ == Token::IntoLazy
            } else {
                final(self).pos() == old(self).pos() && r@ == Token::Invalid
            },
    {
        match self.peek() {
            Some(b) => {
                if b == GREATER {
                    self.next();
                    Class::IntoLazy
                } else {
                    Class::Invalid
                }
            },
            None => Class::Invalid,
        }
    }

    /// The next lexeme; the cursor moves past it. At the end of the buffer
    /// this is `Sentinel`, again and again.
    pub fn lex(&mut self) -> (r: Lexeme)
        requires
            old(self).wf(),
        ensures
            final(self).wf(),
            final(self).text() == old(self).text(),
            (r.class@, r.location as nat, final(self).pos()) == lex_at(old(self).text(), old(self).pos()),
    {
        loop
            invariant
                self.wf(),
                self.text() == old(self).text(),
                skip_space(self.text(), self.pos()) == skip_space(self.text(), old(self).pos()),
            decreases self.text().len() - self.pos(),
        {
            let location = self.cursor;
            match self.peek() {
                Some(initial) => {
                    self.next();
                    if initial == SPACE || initial == TAB || initial == NEWLINE {
                        continue;
                    }
                    let class = if tag_byte(initial) {
                        self.lex_tag()
                    } else if initial == QUOTE {
                        self.lex_quote()
                    } else if initial == HYPHEN {
                        self.lex_prehyphenated()
                    } else {
                        punctuation_class(initial)
                    };
                    return Lexeme { class, location };
                },
                None => {
                    return Lexeme { class: Class::Sentinel, location };
                },
            }
        }
    }
}

} // verus!
