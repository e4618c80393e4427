use vstd::prelude::*;
use crate::lexer::{lemma_scan_bounds, scan, Scan, Tokenizer};
use crate::token::{SyntaxError, Token};

verus! {

/// The tokens scanned from position `p` up to the end of the text or to the
/// first malformed number.
pub open spec fn tokens_from(s: Seq<char>, p: nat) -> Seq<Token>
    decreases s.len() - p,
{
    match scan(s, p) {
        Scan::Tok(t, q) => {
            proof {
                lemma_scan_bounds(s, p);
            }
            seq![t] + tokens_from(s, q)
        },
        _ => seq![],
    }
}

/// Whether scanning from `p` stops at a malformed number rather than at the
/// end of the text.
pub open spec fn stream_fails(s: Seq<char>, p: nat) -> bool
    decreases s.len() - p,
{
    match scan(s, p) {
        Scan::Tok(_, q) => {
            proof {
                lemma_scan_bounds(s, p);
            }
            stream_fails(s, q)
        },
        Scan::BadNumber => true,
        Scan::End => false,
    }
}

/// Taking the token at `i`, which must be `t`. Past the last token the
/// stream either has ended or has failed on a malformed number.
pub open spec fn expect(ts: Seq<Token>, fails: bool, i: nat, t: Token) -> Result<nat, SyntaxError> {
    if i < ts.len() {
        if ts[i as int] == t {
            Ok(i + 1)
        } else {
            Err(SyntaxError::UnexpectedToken { expected: t, found: Some(ts[i as int]) })
        }
    } else if fails {
        Err(SyntaxError::MalformedNumber)
    } else {
        Err(SyntaxError::UnexpectedToken { expected: t, found: None })
    }
}

/// Looking at the token at `i` without taking it.
pub open spec fn lookahead(ts: Seq<Token>, fails: bool, i: nat) -> Result<Token, SyntaxError> {
    if i < ts.len() {
        Ok(ts[i as int])
    } else if fails {
        Err(SyntaxError::MalformedNumber)
    } else {
        Err(SyntaxError::MissingToken)
    }
}

/// Whether a production that started at `i` stopped at `k` after taking at
/// least one token. Every production takes one (the `ensures` of the
/// `Parser` methods say so), so the test always holds; the productions make
/// it so that their recursion is seen to end.
pub open spec fn advanced(ts: Seq<Token>, i: nat, k: nat) -> bool {
    i < k <= ts.len()
}

/// Object = `{` Member (`,` Member)* `}`, read from `i`; `Ok` gives the
/// position after it.
pub open spec fn object(ts: Seq<Token>, fails: bool, i: nat) -> Result<nat, SyntaxError>
    decreases ts.len() - i, 3int,
{
    match expect(ts, fails, i, Token::BeginObject) {
        Err(e) => Err(e),
        Ok(j) => match member(ts, fails, j) {
            Err(e) => Err(e),
            Ok(k) => if advanced(ts, i, k) {
                more_members(ts, fails, k)
            } else {
                Err(SyntaxError::MissingToken)
            },
        },
    }
}

/// The rest of an object after a member: either `,` and another member, or
/// the closing `}`.
pub open spec fn more_members(ts: Seq<Token>, fails: bool, i: nat) -> Result<nat, SyntaxError>
    decreases ts.len() - i, 1int,
{
    match lookahead(ts, fails, i) {
        Err(e) => Err(e),
        Ok(t) => if t == Token::ValueSeparator {
            match member(ts, fails, i + 1) {
                Err(e) => Err(e),
                Ok(k) => if advanced(ts, i, k) {
                    more_members(ts, fails, k)
                } else {
                    Err(SyntaxError::MissingToken)
                },
            }
        } else {
            expect(ts, fails, i, Token::EndObject)
        },
    }
}

/// Member = string `:` Expr.
pub open spec fn member(ts: Seq<Token>, fails: bool, i: nat) -> Result<nat, SyntaxError>
    decreases ts.len() - i, 2int,
{
    match expect(ts, fails, i, Token::StringLiteral) {
        Err(e) => Err(e),
        Ok(j) => match expect(ts, fails, j, Token::NameSeparator) {
            Err(e) => Err(e),
            Ok(k) => expr(ts, fails, k),
        },
    }
}

/// Array = `[` `]` | `[` Expr (`,` Expr)* `]`.
pub open spec fn array(ts: Seq<Token>, fails: bool, i: nat) -> Result<nat, SyntaxError>
    decreases ts.len() - i, 3int,
{
    match expect(ts, fails, i, Token::BeginArray) {
        Err(e) => Err(e),
        Ok(j) => match lookahead(ts, fails, j) {
            Err(e) => Err(e),
            Ok(t) => if t == Token::EndArray {
                expect(ts, fails, j, Token::EndArray)
            } else {
                match expr(ts, fails, j) {
                    Err(e) => Err(e),
                    Ok(k) => if advanced(ts, i, k) {
                        more_elements(ts, fails, k)
                    } else {
                        Err(SyntaxError::MissingToken)
                    },
                }
            },
        },
    }
}

/// The rest of an array after an element: either `,` and another element,
/// or the closing `]`.
pub open spec fn more_elements(ts: Seq<Token>, fails: bool, i: nat) -> Result<nat, SyntaxError>
    decreases ts.len() - i, 1int,
{
    match lookahead(ts, fails, i) {
        Err(e) => Err(e),
        Ok(t) => if t == Token::ValueSeparator {
            match expr(ts, fails, i + 1) {
                Err(e) => Err(e),
                Ok(k) => if advanced(ts, i, k) {
                    more_elements(ts, fails, k)
                } else {
                    Err(SyntaxError::MissingToken)
                },
            }
        } else {
            expect(ts, fails, i, Token::EndArray)
        },
    }
}

pub open spec fn is_scalar(t: Token) -> bool {
    t == Token::Number || t == Token::Boolean || t == Token::Null || t == Token::StringLiteral
}

/// Expr = Array | Object | number | boolean | null | string, chosen by the
/// token at `i`.
pub open spec fn expr(ts: Seq<Token>, fails: bool, i: nat) -> Result<nat, SyntaxError>
    decreases ts.len() - i, 4int,
{
    match lookahead(ts, fails, i) {
        Err(e) => Err(e),
        Ok(t) => if t == Token::BeginArray {
            array(ts, fails, i)
        } else if t == Token::BeginObject {
            object(ts, fails, i)
        } else if is_scalar(t) {
            expect(ts, fails, i, t)
        } else {
            Err(SyntaxError::NotAnExpression { token: t })
        },
    }
}


/// A recognizer over the tokens of one document, with a lookahead of at
/// most one token.
pub struct Parser {
    tokenizer: Tokenizer,
    lookahead: Option<Token>,
    tokens: Ghost<Seq<Token>>,
    fails: Ghost<bool>,
    index: Ghost<nat>,
}

impl Parser {
    /// Every token the stream yields, from where the parser started.
    pub closed spec fn tokens(&self) -> Seq<Token> {
        self.tokens@
    }

    /// Whether the stream stops at a malformed number after those tokens.
    pub closed spec fn fails(&self) -> bool {
        self.fails@
    }

    /// How many tokens have been taken.
    pub closed spec fn index(&self) -> nat {
        self.index@
    }

    pub closed spec fn wf(&self) -> bool {
        let s = self.tokenizer.text();
        let p = self.tokenizer.pos();
        &&& self.tokenizer.wf()
        &&& self.index@ <= self.tokens@.len()
        &&& stream_fails(s, p) == self.fails@
        &&& match self.lookahead {
            None => tokens_from(s, p) == self.tokens@.subrange(self.index@ as int, self.tokens@.len() as int),
            Some(t) => {
                &&& self.index@ < self.tokens@.len()
                &&& self.tokens@[self.index@ as int] == t
                &&& tokens_from(s, p) == self.tokens@.subrange(self.index@ as int + 1, self.tokens@.len() as int)
            },
        }
    }

    /// Whether `t` has been looked at and not yet taken.
    pub closed spec fn buffered(&self, t: Token) -> bool {
        self.lookahead == Some(t)
    }

    /// Whether `self` reads the same stream as `other`.
    pub open spec fn same_stream(&self, other: &Parser) -> bool {
        self.tokens() == other.tokens() && self.fails() == other.fails()
    }

    pub fn new(tokenizer: Tokenizer) -> (p: Parser)
        requires
            tokenizer.wf(),
        ensures
            p.wf(),
            p.tokens() == tokens_from(tokenizer.text(), tokenizer.pos()),
            p.fails() == stream_fails(tokenizer.text(), tokenizer.pos()),
            p.index() == 0,
    {
        let ghost ts = tokens_from(tokenizer.text(), tokenizer.pos());
        let ghost fs = stream_fails(tokenizer.text(), tokenizer.pos());
        assert(ts.subrange(0, ts.len() as int) =~= ts);
        Parser { tokenizer, lookahead: None, tokens: Ghost(ts), fails: Ghost(fs), index: Ghost(0) }
    }

    /// The next token, left in place.
    pub fn peek(&mut self) -> (r: Result<Token, SyntaxError>)
        requires
            old(self).wf(),
        ensures
            final(self).wf(),
            final(self).same_stream(old(self)),
            final(self).index() == old(self).index(),
            r == lookahead(old(self).tokens(), old(self).fails(), old(self).index()),
            r matches Ok(t) ==> final(self).buffered(t),
    {
        if let Some(t) = self.lookahead {
            return Ok(t);
        }
        let ghost s = self.tokenizer.text();
        let ghost p = self.tokenizer.pos();
        let ghost rest = self.tokens@.subrange(self.index@ as int, self.tokens@.len() as int);
        proof {
            lemma_scan_bounds(s, p);
        }
        match self.tokenizer.next_token() {
            Ok(Some(t)) => {
                let ghost q = self.tokenizer.pos();
                assert(tokens_from(s, p) == seq![t] + tokens_from(s, q));
                assert(stream_fails(s, p) == stream_fails(s, q));
                assert(rest.len() > 0);
                assert(self.tokens@[self.index@ as int] == rest[0]);
                assert(rest.subrange(1, rest.len() as int) =~= tokens_from(s, q));
                assert(self.tokens@.subrange(self.index@ as int + 1, self.tokens@.len() as int) =~= rest.subrange(1, rest.len() as int));
                self.lookahead = Some(t);
                Ok(t)
            },
            Ok(None) => {
                let ghost q = self.tokenizer.pos();
                assert(scan(s, p) is End);
                assert(tokens_from(s, p).len() == 0);
                assert(rest.len() == 0);
                assert(scan(s, q) is End);
                assert(!stream_fails(s, p) && !stream_fails(s, q));
                assert(tokens_from(s, q) =~= self.tokens@.subrange(self.index@ as int, self.tokens@.len() as int));
                Err(SyntaxError::MissingToken)
            },
            Err(e) => {
                let ghost q = self.tokenizer.pos();
                assert(scan(s, p) is BadNumber);
                assert(stream_fails(s, p) && stream_fails(s, q));
                assert(tokens_from(s, q).len() == 0);
                assert(tokens_from(s, p).len() == 0);
                assert(rest.len() == 0);
                assert(tokens_from(s, q) =~= self.tokens@.subrange(self.index@ as int, self.tokens@.len() as int));
                Err(e)
            },
        }
    }

    /// Takes the next token, which must be `token`.
    pub fn consume_token(&mut self, token: Token) -> (r: Result<(), SyntaxError>)
        requires
            old(self).wf(),
        ensures
            final(self).wf(),
            final(self).same_stream(old(self)),
            r == outcome(expect(old(self).tokens(), old(self).fails(), old(self).index(), token)),
            r is Ok ==> final(self).index() == old(self).index() + 1,
    {
        match self.peek() {
            Ok(t) => {
                if t == token {
                    let ghost s = self.tokenizer.text();
                    let ghost p = self.tokenizer.pos();
                    let ghost ts = self.tokens@;
                    let ghost i = self.index@;
                    self.lookahead = None;
                    assert(ts.subrange(i as int + 1, ts.len() as int) == tokens_from(s, p));
                    self.index = Ghost(self.index@ + 1);
                    Ok(())
                } else {
                    Err(SyntaxError::UnexpectedToken { expected: token, found: Some(t) })
                }
            },
            Err(SyntaxError::MissingToken) => Err(SyntaxError::UnexpectedToken { expected: token, found: None }),
            Err(e) => Err(e),
        }
    }

    /// Reads an object: `{`, one or more members separated by `,`, `}`.
    pub fn parse_json(&mut self) -> (r: Result<(), SyntaxError>)
        requires
            old(self).wf(),
        ensures
            final(self).wf(),
            final(self).same_stream(old(self)),
            r == outcome(object(old(self).tokens(), old(self).fails(), old(self).index())),
            r is Ok ==> object(old(self).tokens(), old(self).fails(), old(self).index()) == Ok::<nat, SyntaxError>(final(self).index()),
            r is Ok ==> final(self).index() > old(self).index(),
        decreases old(self).tokens().len() - old(self).index(), 3int,
    {
        let ghost ts = self.tokens();
        let ghost fs = self.fails();
        let ghost i = self.index();
        match self.consume_token(Token::BeginObject) {
            Ok(()) => {},
            Err(e) => return Err(e),
        }
        match self.parse_member() {
            Ok(()) => {},
            Err(e) => return Err(e),
        }
        let mut next = match self.peek() {
            Ok(t) => t,
            Err(e) => return Err(e),
        };
        while next == Token::ValueSeparator
            invariant
                self.wf(),
                self.tokens() == ts,
                self.fails() == fs,
                ts == old(self).tokens(),
                fs == old(self).fails(),
                i == old(self).index(),
                i < self.index() < ts.len(),
                next == ts[self.index() as int],
                object(ts, fs, i) == more_members(ts, fs, self.index()),
            decreases ts.len() - self.index(),
        {
            let ghost k = self.index();
            match self.consume_token(Token::ValueSeparator) {
                Ok(()) => {},
                Err(e) => return Err(e),
            }
            match self.parse_member() {
                Ok(()) => {},
                Err(e) => return Err(e),
            }
            assert(advanced(ts, k, self.index()));
            next = match self.peek() {
                Ok(t) => t,
                Err(e) => return Err(e),
            };
        }
        self.consume_token(Token::EndObject)
    }

    /// Reads a member: a string, `:`, a value.
    pub fn parse_member(&mut self) -> (r: Result<(), SyntaxError>)
        requires
            old(self).wf(),
        ensures
            final(self).wf(),
            final(self).same_stream(old(self)),
            r == outcome(member(old(self).tokens(), old(self).fails(), old(self).index())),
            r is Ok ==> member(old(self).tokens(), old(self).fails(), old(self).index()) == Ok::<nat, SyntaxError>(final(self).index()),
            r is Ok ==> final(self).index() > old(self).index(),
        decreases old(self).tokens().len() - old(self).index(), 2int,
    {
        match self.consume_token(Token::StringLiteral) {
            Ok(()) => {},
            Err(e) => return Err(e),
        }
        match self.consume_token(Token::NameSeparator) {
            Ok(()) => {},
            Err(e) => return Err(e),
        }
        self.parse_expr()
    }

    /// Reads an array: `[`, zero or more values separated by `,`, `]`.
    pub fn parse_array(&mut self) -> (r: Result<(), SyntaxError>)
        requires
            old(self).wf(),
        ensures
            final(self).wf(),
            final(self).same_stream(old(self)),
            r == outcome(array(old(self).tokens(), old(self).fails(), old(self).index())),
            r is Ok ==> array(old(self).tokens(), old(self).fails(), old(self).index()) == Ok::<nat, SyntaxError>(final(self).index()),
            r is Ok ==> final(self).index() > old(self).index(),
        decreases old(self).tokens().len() - old(self).index(), 3int,
    {
        let ghost ts = self.tokens();
        let ghost fs = self.fails();
        let ghost i = self.index();
        match self.consume_token(Token::BeginArray) {
            Ok(()) => {},
            Err(e) => return Err(e),
        }
        match self.peek() {
            Ok(Token::EndArray) => return self.consume_token(Token::EndArray),
            Ok(_) => {},
            Err(e) => return Err(e),
        }
        match self.parse_expr() {
            Ok(()) => {},
            Err(e) => return Err(e),
        }
        let mut next = match self.peek() {
            Ok(t) => t,
            Err(e) => return Err(e),
        };
        while next == Token::ValueSeparator
            invariant
                self.wf(),
                self.tokens() == ts,
                self.fails() == fs,
                ts == old(self).tokens(),
                fs == old(self).fails(),
                i == old(self).index(),
                i < self.index() < ts.len(),
                next == ts[self.index() as int],
                array(ts, fs, i) == more_elements(ts, fs, self.index()),
            decreases ts.len() - self.index(),
        {
            let ghost k = self.index();
            match self.consume_token(Token::ValueSeparator) {
                Ok(()) => {},
                Err(e) => return Err(e),
            }
            match self.parse_expr() {
                Ok(()) => {},
                Err(e) => return Err(e),
            }
            assert(advanced(ts, k, self.index()));
            next = match self.peek() {
                Ok(t) => t,
                Err(e) => return Err(e),
            };
        }
        self.consume_token(Token::EndArray)
    }

    /// Reads a value: an array, an object, or a number, boolean, null or
    /// string token.
    pub fn parse_expr(&mut self) -> (r: Result<(), SyntaxError>)
        requires
            old(self).wf(),
        ensures
            final(self).wf(),
            final(self).same_stream(old(self)),
            r == outcome(expr(old(self).tokens(), old(self).fails(), old(self).index())),
            r is Ok ==> expr(old(self).tokens(), old(self).fails(), old(self).index()) == Ok::<nat, SyntaxError>(final(self).index()),
            r is Ok ==> final(self).index() > old(self).index(),
        decreases old(self).tokens().len() - old(self).index(), 4int,
    {
        let t = match self.peek() {
            Ok(t) => t,
            Err(e) => return Err(e),
        };
        match t {
            Token::BeginArray => self.parse_array(),
            Token::BeginObject => self.parse_json(),
            Token::Number | Token::Boolean | Token::Null | Token::StringLiteral => self.consume_token(t),
            _ => Err(SyntaxError::NotAnExpression { token: t }),
        }
    }
}

/// Checks that `input` holds an object: its tokens, scanned on demand, must
/// form an object from the first token on. Whatever follows that object is
/// not looked at.
pub fn validate(input: String) -> (r: Result<(), SyntaxError>)
    ensures
        r == validation(input@),
{
    let mut parser = Parser::new(Tokenizer::new(input));
    parser.parse_json()
}

/// The outcome of a production, without the position it stopped at.
pub open spec fn outcome(r: Result<nat, SyntaxError>) -> Result<(), SyntaxError> {
    match r {
        Ok(_) => Ok(()),
        Err(e) => Err(e),
    }
}

/// Whether `s` is accepted: its tokens form an object from the first token
/// on. Whatever follows that object is not looked at.
pub open spec fn validation(s: Seq<char>) -> Result<(), SyntaxError> {
    outcome(object(tokens_from(s, 0), stream_fails(s, 0), 0))
}

} // verus!
