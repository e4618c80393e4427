use vstd::prelude::*;
use crate::parser::{expr, is_scalar, member, more_elements, more_members, object, stream_fails, tokens_from, validation};
use crate::token::{SyntaxError, Token};

verus! {

/// A document whose first token is anything but `{` is refused, and the
/// error names that token as found where `{` was expected. A document with
/// no token at all is refused in the same way, with nothing found.
pub proof fn lemma_non_object_refused(s: Seq<char>)
    requires
        tokens_from(s, 0).len() > 0 ==> tokens_from(s, 0)[0] != Token::BeginObject,
        tokens_from(s, 0).len() == 0 ==> !stream_fails(s, 0),
    ensures
        validation(s) == Err::<(), SyntaxError>(SyntaxError::UnexpectedToken {
            expected: Token::BeginObject,
            found: if tokens_from(s, 0).len() > 0 { Some(tokens_from(s, 0)[0]) } else { None },
        }),
{
}

/// The shape of a JSON value. An object's items are its members' values;
/// each key is one string token.
pub enum Json {
    Scalar(Token),
    Array(Items),
    Object(Items),
}

/// The values of an array, or of an object's members, in order.
pub enum Items {
    Nil,
    Cons(Box<Json>, Box<Items>),
}

/// Scalars are number, boolean, null or string tokens, and every object
/// has at least one member.
pub open spec fn well_formed(v: Json) -> bool
    decreases v,
{
    match v {
        Json::Scalar(t) => is_scalar(t),
        Json::Array(items) => items_well_formed(items),
        Json::Object(items) => items is Cons && items_well_formed(items),
    }
}

pub open spec fn items_well_formed(items: Items) -> bool
    decreases items,
{
    match items {
        Items::Nil => true,
        Items::Cons(v, rest) => well_formed(*v) && items_well_formed(*rest),
    }
}

/// The tokens of a value written out.
pub open spec fn tokens_of(v: Json) -> Seq<Token>
    decreases v,
{
    match v {
        Json::Scalar(t) => seq![t],
        Json::Array(items) => seq![Token::BeginArray] + items_tokens(items, false) + seq![Token::EndArray],
        Json::Object(items) => seq![Token::BeginObject] + items_tokens(items, true) + seq![Token::EndObject],
    }
}

/// The tokens of a list of values separated by `,`; with `keyed`, each
/// value is preceded by a key and `:`.
pub open spec fn items_tokens(items: Items, keyed: bool) -> Seq<Token>
    decreases items,
{
    match items {
        Items::Nil => seq![],
        Items::Cons(v, rest) => {
            let entry = if keyed {
                seq![Token::StringLiteral, Token::NameSeparator] + tokens_of(*v)
            } else {
                tokens_of(*v)
            };
            entry + match *rest {
                Items::Nil => seq![],
                _ => seq![Token::ValueSeparator] + items_tokens(*rest, keyed),
            }
        },
    }
}

/// Whether `x` stands in `ts` from position `i` on.
pub open spec fn occurs_at(ts: Seq<Token>, i: nat, x: Seq<Token>) -> bool {
    i + x.len() <= ts.len() && ts.subrange(i as int, (i + x.len()) as int) == x
}

proof fn lemma_occurs_split(ts: Seq<Token>, i: nat, a: Seq<Token>, b: Seq<Token>)
    requires
        occurs_at(ts, i, a + b),
    ensures
        occurs_at(ts, i, a),
        occurs_at(ts, i + a.len(), b),
{
    let big = ts.subrange(i as int, (i + (a + b).len()) as int);
    assert(big == a + b);
    assert(ts.subrange(i as int, (i + a.len()) as int) =~= big.subrange(0, a.len() as int));
    assert(big.subrange(0, a.len() as int) =~= a);
    assert(ts.subrange((i + a.len()) as int, (i + a.len() + b.len()) as int) =~= big.subrange(a.len() as int, big.len() as int));
    assert(big.subrange(a.len() as int, big.len() as int) =~= b);
}

proof fn lemma_occurs_first(ts: Seq<Token>, i: nat, x: Seq<Token>)
    requires
        occurs_at(ts, i, x),
        x.len() > 0,
    ensures
        i < ts.len(),
        ts[i as int] == x[0],
{
    assert(ts.subrange(i as int, (i + x.len()) as int)[0] == x[0]);
}

/// The tokens of one entry of a list: the value, after a key and `:` when
/// `keyed`.
pub open spec fn entry_tokens(v: Json, keyed: bool) -> Seq<Token> {
    if keyed {
        seq![Token::StringLiteral, Token::NameSeparator] + tokens_of(v)
    } else {
        tokens_of(v)
    }
}

/// The tokens that follow a list's first entry: nothing, or `,` and the
/// remaining entries.
pub open spec fn rest_tokens(rest: Items, keyed: bool) -> Seq<Token> {
    match rest {
        Items::Nil => seq![],
        _ => seq![Token::ValueSeparator] + items_tokens(rest, keyed),
    }
}

pub open spec fn closing(keyed: bool) -> Token {
    if keyed {
        Token::EndObject
    } else {
        Token::EndArray
    }
}

/// The first token of a well-formed value opens it or is a scalar.
proof fn lemma_first_token(v: Json)
    requires
        well_formed(v),
    ensures
        tokens_of(v).len() > 0,
        tokens_of(v)[0] == Token::BeginArray || tokens_of(v)[0] == Token::BeginObject || is_scalar(tokens_of(v)[0]),
{
}

/// One entry of a list is read by `member` (keyed) or `expr` (not keyed).
proof fn lemma_entry_accepted(v: Json, keyed: bool, ts: Seq<Token>, fails: bool, i: nat)
    requires
        well_formed(v),
        occurs_at(ts, i, entry_tokens(v, keyed)),
    ensures
        keyed ==> member(ts, fails, i) == Ok::<nat, SyntaxError>(i + entry_tokens(v, keyed).len()),
        !keyed ==> expr(ts, fails, i) == Ok::<nat, SyntaxError>(i + entry_tokens(v, keyed).len()),
    decreases v, 1int,
{
    if keyed {
        let key = seq![Token::StringLiteral, Token::NameSeparator];
        lemma_occurs_split(ts, i, key, tokens_of(v));
        lemma_occurs_first(ts, i, key);
        assert(key =~= seq![Token::StringLiteral] + seq![Token::NameSeparator]);
        lemma_occurs_split(ts, i, seq![Token::StringLiteral], seq![Token::NameSeparator]);
        lemma_occurs_first(ts, i + 1, seq![Token::NameSeparator]);
        lemma_value_accepted(v, ts, fails, i + 2);
    } else {
        lemma_value_accepted(v, ts, fails, i);
    }
}

/// A well-formed value is read by `expr` from where its tokens start, up to
/// where they end; an object is read by `object` in the same way.
pub proof fn lemma_value_accepted(v: Json, ts: Seq<Token>, fails: bool, i: nat)
    requires
        well_formed(v),
        occurs_at(ts, i, tokens_of(v)),
    ensures
        expr(ts, fails, i) == Ok::<nat, SyntaxError>(i + tokens_of(v).len()),
        v is Object ==> object(ts, fails, i) == Ok::<nat, SyntaxError>(i + tokens_of(v).len()),
    decreases v, 0int,
{
    lemma_occurs_first(ts, i, tokens_of(v));
    match v {
        Json::Scalar(t) => {},
        Json::Array(items) => {
            let body = items_tokens(items, false);
            let close = seq![Token::EndArray];
            assert(tokens_of(v) == seq![Token::BeginArray] + (body + close));
            lemma_occurs_split(ts, i, seq![Token::BeginArray], body + close);
            let j = i + 1;
            match items {
                Items::Nil => {
                    assert(body + close =~= close);
                    lemma_occurs_first(ts, j, close);
                },
                Items::Cons(w, rest) => {
                    let entry = entry_tokens(*w, false);
                    let after = rest_tokens(*rest, false);
                    assert(body + close =~= entry + (after + close));
                    lemma_occurs_split(ts, j, entry, after + close);
                    lemma_first_token(*w);
                    lemma_occurs_first(ts, j, entry);
                    lemma_entry_accepted(*w, false, ts, fails, j);
                    lemma_rest_accepted(*rest, false, ts, fails, j + entry.len());
                },
            }
        },
        Json::Object(items) => {
            let body = items_tokens(items, true);
            let close = seq![Token::EndObject];
            assert(tokens_of(v) == seq![Token::BeginObject] + (body + close));
            lemma_occurs_split(ts, i, seq![Token::BeginObject], body + close);
            let j = i + 1;
            match items {
                Items::Cons(w, rest) => {
                    let entry = entry_tokens(*w, true);
                    let after = rest_tokens(*rest, true);
                    assert(body + close =~= entry + (after + close));
                    lemma_occurs_split(ts, j, entry, after + close);
                    lemma_entry_accepted(*w, true, ts, fails, j);
                    lemma_rest_accepted(*rest, true, ts, fails, j + entry.len());
                },
                Items::Nil => {},
            }
        },
    }
}

/// What follows a list's first entry, up to and including the closing
/// token, is read by `more_members` (keyed) or `more_elements` (not keyed).
proof fn lemma_rest_accepted(rest: Items, keyed: bool, ts: Seq<Token>, fails: bool, m: nat)
    requires
        items_well_formed(rest),
        occurs_at(ts, m, rest_tokens(rest, keyed) + seq![closing(keyed)]),
    ensures
        keyed ==> more_members(ts, fails, m) == Ok::<nat, SyntaxError>(m + rest_tokens(rest, keyed).len() + 1),
        !keyed ==> more_elements(ts, fails, m) == Ok::<nat, SyntaxError>(m + rest_tokens(rest, keyed).len() + 1),
    decreases rest, 2int,
{
    let close = seq![closing(keyed)];
    match rest {
        Items::Nil => {
            assert(rest_tokens(rest, keyed) + close =~= close);
            lemma_occurs_first(ts, m, close);
        },
        Items::Cons(w, r2) => {
            let entry = entry_tokens(*w, keyed);
            let after = rest_tokens(*r2, keyed);
            assert(rest_tokens(rest, keyed) + close =~= seq![Token::ValueSeparator] + (entry + (after + close)));
            lemma_occurs_split(ts, m, seq![Token::ValueSeparator], entry + (after + close));
            lemma_occurs_first(ts, m, seq![Token::ValueSeparator]);
            lemma_occurs_split(ts, m + 1, entry, after + close);
            lemma_entry_accepted(*w, keyed, ts, fails, m + 1);
            lemma_rest_accepted(*r2, keyed, ts, fails, m + 1 + entry.len());
        },
    }
}

/// A document whose tokens begin with those of a well-formed object is
/// accepted, whatever follows the object.
pub proof fn lemma_well_formed_object_accepted(s: Seq<char>, v: Json)
    requires
        v is Object,
        well_formed(v),
        occurs_at(tokens_from(s, 0), 0, tokens_of(v)),
    ensures
        validation(s) == Ok::<(), SyntaxError>(()),
{
    lemma_value_accepted(v, tokens_from(s, 0), stream_fails(s, 0), 0);
}
} // verus!
