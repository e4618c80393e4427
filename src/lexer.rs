use vstd::prelude::*;
use crate::token::{SyntaxError, Token};

verus! {

/// What one scanning step finds from a position.
pub enum Scan {
    /// No token remains.
    End,
    /// A token, and the position just past it.
    Tok(Token, nat),
    /// A number starts here but does not match the number grammar.
    BadNumber,
}

pub open spec fn is_digit(c: char) -> bool {
    '0' <= c && c <= '9'
}

/// The end of the run of ASCII digits that starts at `i`.
pub open spec fn digits_end(s: Seq<char>, i: nat) -> nat
    decreases s.len() - i,
{
    if i < s.len() && is_digit(s[i as int]) {
        digits_end(s, i + 1)
    } else {
        i
    }
}

/// The end of an optional `.` followed by one or more digits at `i`.
pub open spec fn fraction_end(s: Seq<char>, i: nat) -> nat {
    if i < s.len() && s[i as int] == '.' && digits_end(s, i + 1) > i + 1 {
        digits_end(s, i + 1)
    } else {
        i
    }
}

/// The end of an optional exponent at `i`: `e` or `E`, an optional sign,
/// one or more digits.
pub open spec fn exponent_end(s: Seq<char>, i: nat) -> nat {
    if i < s.len() && (s[i as int] == 'e' || s[i as int] == 'E') {
        let d: nat = if i + 1 < s.len() && (s[i + 1int] == '+' || s[i + 1int] == '-') {
            i + 2
        } else {
            i + 1
        };
        if digits_end(s, d) > d {
            digits_end(s, d)
        } else {
            i
        }
    } else {
        i
    }
}

/// The end of the longest number at `i`: an optional `-`, one or more digits,
/// an optional fraction and an optional exponent; `None` where no digit
/// follows the optional sign.
pub open spec fn number_end(s: Seq<char>, i: nat) -> Option<nat> {
    let a: nat = if i < s.len() && s[i as int] == '-' {
        i + 1
    } else {
        i
    };
    let b = digits_end(s, a);
    if b == a {
        None
    } else {
        Some(exponent_end(s, fraction_end(s, b)))
    }
}

/// The index of the first `"` at or after `i`.
pub open spec fn closing_quote(s: Seq<char>, i: nat) -> Option<nat>
    decreases s.len() - i,
{
    if i >= s.len() {
        None
    } else if s[i as int] == '"' {
        Some(i)
    } else {
        closing_quote(s, i + 1)
    }
}

/// The token of a punctuation character.
pub open spec fn punctuation(c: char) -> Option<Token> {
    if c == '{' {
        Some(Token::BeginObject)
    } else if c == '}' {
        Some(Token::EndObject)
    } else if c == '[' {
        Some(Token::BeginArray)
    } else if c == ']' {
        Some(Token::EndArray)
    } else if c == ':' {
        Some(Token::NameSeparator)
    } else if c == ',' {
        Some(Token::ValueSeparator)
    } else {
        None
    }
}

/// The position four characters on, held at the end of the text.
pub open spec fn skip_keyword(s: Seq<char>, i: nat) -> nat {
    if i + 4 <= s.len() {
        i + 4
    } else {
        s.len()
    }
}

/// One scanning step from `i`. Whitespace and unrecognised characters are
/// skipped. A keyword is taken from its first letter (`n` for `null`, `t` or
/// `f` for a boolean) and four characters are passed over without looking at
/// them. A string runs to the next `"`, with no escapes; an unterminated one
/// ends the stream.
pub open spec fn scan(s: Seq<char>, i: nat) -> Scan
    decreases s.len() - i,
{
    if i >= s.len() {
        Scan::End
    } else {
        let c = s[i as int];
        if punctuation(c) is Some {
            Scan::Tok(punctuation(c)->0, i + 1)
        } else if c == 'n' {
            Scan::Tok(Token::Null, skip_keyword(s, i))
        } else if c == 't' || c == 'f' {
            Scan::Tok(Token::Boolean, skip_keyword(s, i))
        } else if c == '"' {
            match closing_quote(s, i + 1) {
                Some(j) => Scan::Tok(Token::StringLiteral, j + 1),
                None => Scan::End,
            }
        } else if is_digit(c) || c == '-' {
            match number_end(s, i) {
                Some(j) => Scan::Tok(Token::Number, j),
                None => Scan::BadNumber,
            }
        } else {
            scan(s, i + 1)
        }
    }
}


pub proof fn lemma_digits_end_bounds(s: Seq<char>, i: nat)
    ensures
        i <= digits_end(s, i),
        i <= s.len() ==> digits_end(s, i) <= s.len(),
    decreases s.len() - i,
{
    if i < s.len() && is_digit(s[i as int]) {
        lemma_digits_end_bounds(s, i + 1);
    }
}

pub proof fn lemma_closing_quote_bounds(s: Seq<char>, i: nat)
    ensures
        closing_quote(s, i) matches Some(j) ==> i <= j < s.len() && s[j as int] == '"',
    decreases s.len() - i,
{
    if i < s.len() && s[i as int] != '"' {
        lemma_closing_quote_bounds(s, i + 1);
    }
}

/// A token always lies past the position the step started from and within
/// the text.
pub proof fn lemma_scan_bounds(s: Seq<char>, i: nat)
    ensures
        scan(s, i) matches Scan::Tok(_, j) ==> i < j <= s.len(),
    decreases s.len() - i,
{
    if i < s.len() {
        let c = s[i as int];
        if c == '"' {
            lemma_closing_quote_bounds(s, i + 1);
        } else if is_digit(c) || c == '-' {
            let a: nat = if s[i as int] == '-' { i + 1 } else { i };
            lemma_digits_end_bounds(s, a);
            let b = digits_end(s, a);
            lemma_digits_end_bounds(s, b + 1);
            let f = fraction_end(s, b);
            if f < s.len() {
                lemma_digits_end_bounds(s, f + 1);
                lemma_digits_end_bounds(s, f + 2);
            }
        } else if punctuation(c) is None && c != 'n' && c != 't' && c != 'f' {
            lemma_scan_bounds(s, i + 1);
        }
    }
}

fn is_ascii_digit(c: char) -> (r: bool)
    ensures
        r == is_digit(c),
{
    '0' <= c && c <= '9'
}

/// The cursor over a document: the text and the index of the next character
/// to scan, counted in characters.
pub struct Tokenizer {
    input: String,
    len: usize,
    position: usize,
}

impl Tokenizer {
    /// The text being scanned.
    pub closed spec fn text(&self) -> Seq<char> {
        self.input@
    }

    /// The index of the next character to scan.
    pub closed spec fn pos(&self) -> nat {
        self.position as nat
    }

    pub closed spec fn wf(&self) -> bool {
        &&& self.len == self.input@.len()
        &&& self.position <= self.len
    }

    pub fn new(input: String) -> (t: Tokenizer)
        ensures
            t.wf(),
            t.text() == input@,
            t.pos() == 0,
    {
        let len = input.as_str().unicode_len();
        Tokenizer { input, len, position: 0 }
    }

    fn char_at(&self, i: usize) -> (c: char)
        requires
            self.wf(),
            i < self.text().len(),
        ensures
            c == self.text()[i as int],
    {
        self.input.as_str().get_char(i)
    }

    fn scan_digits(&self, i: usize) -> (r: usize)
        requires
            self.wf(),
            i <= self.text().len(),
        ensures
            r == digits_end(self.text(), i as nat),
    {
        let mut j: usize = i;
        while j < self.len && is_ascii_digit(self.char_at(j))
            invariant
                self.wf(),
                i <= j <= self.len,
                digits_end(self.text(), i as nat) == digits_end(self.text(), j as nat),
            decreases self.len - j,
        {
            j = j + 1;
        }
        j
    }

    fn scan_number(&self, i: usize) -> (r: Option<usize>)
        requires
            self.wf(),
            i <= self.text().len(),
        ensures
            r matches Some(j) ==> number_end(self.text(), i as nat) == Some(j as nat),
            r is None ==> number_end(self.text(), i as nat) is None,
    {
        let ghost s = self.text();
        let a: usize = if i < self.len && self.char_at(i) == '-' {
            i + 1
        } else {
            i
        };
        let b = self.scan_digits(a);
        proof {
            lemma_digits_end_bounds(s, a as nat);
        }
        if b == a {
            return None;
        }
        let mut f: usize = b;
        if b < self.len && self.char_at(b) == '.' {
            let d = self.scan_digits(b + 1);
            if d > b + 1 {
                f = d;
            }
        }
        assert(f == fraction_end(s, b as nat));
        proof {
            lemma_digits_end_bounds(s, b as nat + 1);
        }
        let mut e: usize = f;
        if f < self.len && (self.char_at(f) == 'e' || self.char_at(f) == 'E') {
            let d: usize = if f + 1 < self.len && (self.char_at(f + 1) == '+' || self.char_at(f + 1) == '-') {
                f + 2
            } else {
                f + 1
            };
            let x = self.scan_digits(d);
            if x > d {
                e = x;
            }
        }
        Some(e)
    }

    /// Scans the next token. Whitespace and unrecognised characters are
    /// passed over; the end of the text gives `None`, and a number that does
    /// not match the number grammar is an error.
    pub fn next_token(&mut self) -> (r: Result<Option<Token>, SyntaxError>)
        requires
            old(self).wf(),
        ensures
            final(self).wf(),
            final(self).text() == old(self).text(),
            match scan(old(self).text(), old(self).pos()) {
                Scan::End => r == Ok::<Option<Token>, SyntaxError>(None) && final(self).pos() == final(self).text().len(),
                Scan::Tok(t, j) => r == Ok::<Option<Token>, SyntaxError>(Some(t)) && final(self).pos() == j,
                Scan::BadNumber => r == Err::<Option<Token>, SyntaxError>(SyntaxError::MalformedNumber)
                    && scan(final(self).text(), final(self).pos()) == Scan::BadNumber,
            },
    {
        let ghost s = self.text();
        let ghost start = self.pos();
        while self.position < self.len
            invariant
                self.wf(),
                self.text() == s,
                s == old(self).text(),
                start == old(self).pos(),
                scan(s, start) == scan(s, self.pos()),
            decreases self.len - self.position,
        {
            let c = self.char_at(self.position);
            let p = self.position;
            if c == '{' {
                self.position = p + 1;
                return Ok(Some(Token::BeginObject));
            } else if c == '}' {
                self.position = p + 1;
                return Ok(Some(Token::EndObject));
            } else if c == '[' {
                self.position = p + 1;
                return Ok(Some(Token::BeginArray));
            } else if c == ']' {
                self.position = p + 1;
                return Ok(Some(Token::EndArray));
            } else if c == ':' {
                self.position = p + 1;
                return Ok(Some(Token::NameSeparator));
            } else if c == ',' {
                self.position = p + 1;
                return Ok(Some(Token::ValueSeparator));
            } else if c == 'n' || c == 't' || c == 'f' {
                self.position = if self.len - p >= 4 {
                    p + 4
                } else {
                    self.len
                };
                return Ok(Some(if c == 'n' { Token::Null } else { Token::Boolean }));
            } else if c == '"' {
                let mut j: usize = p + 1;
                while j < self.len
                    invariant
                        self.wf(),
                        self.text() == s,
                        s == old(self).text(),
                        start == old(self).pos(),
                        scan(s, start) == scan(s, p as nat),
                        s[p as int] == '"',
                        p < j <= self.len,
                        closing_quote(s, p as nat + 1) == closing_quote(s, j as nat),
                    decreases self.len - j,
                {
                    if self.char_at(j) == '"' {
                        self.position = j + 1;
                        return Ok(Some(Token::StringLiteral));
                    }
                    j = j + 1;
                }
                self.position = self.len;
                return Ok(None);
            } else if is_ascii_digit(c) || c == '-' {
                match self.scan_number(p) {
                    Some(j) => {
                        proof {
                            lemma_scan_bounds(s, p as nat);
                        }
                        self.position = j;
                        return Ok(Some(Token::Number));
                    },
                    None => {
                        return Err(SyntaxError::MalformedNumber);
                    },
                }
            } else {
                self.position = p + 1;
            }
        }
        Ok(None)
    }
}

} // verus!
