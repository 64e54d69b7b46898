use vstd::prelude::*;
use crate::json::{lemma_items_push, lemma_members_push, lemma_members_update, lemma_members_view, members_view, items_view, Json, JsonValue};
use crate::token::{lex, tokenize, tokens_view, LexError, Tok, Token};

verus! {

/// Why a text is not a JSON document.
#[derive(Debug, PartialEq, Eq, Structural, Clone, Copy)]
pub enum ParseError {
    /// The text could not be split into tokens.
    Lex(LexError),
    /// The tokens ended where a value or a key was needed.
    UnexpectedEnd,
    /// A token that cannot start a value stands where a value was needed.
    UnexpectedToken,
    /// An object member does not start with a string key.
    ExpectedKey,
    /// An object key is not followed by a colon.
    ExpectedColon,
    /// An object member is followed by neither a comma nor a closing brace.
    ExpectedCommaOrBrace,
    /// An array element is followed by neither a comma nor a closing bracket.
    ExpectedCommaOrBracket,
    /// Tokens are left after a complete value.
    TrailingToken,
}

/// The position of the member with key `k` in `m` from `i` on, or -1.
pub open spec fn find_key(m: Seq<(Seq<char>, Json)>, k: Seq<char>, i: int) -> int
    decreases m.len() - i,
{
    if i < 0 || i >= m.len() {
        -1
    } else if m[i].0 == k {
        i
    } else {
        find_key(m, k, i + 1)
    }
}

/// Sets the member `k` of `m` to `v`: in place where `k` is there, at the end otherwise.
pub open spec fn insert_member(m: Seq<(Seq<char>, Json)>, k: Seq<char>, v: Json) -> Seq<(Seq<char>, Json)> {
    let x = find_key(m, k, 0);
    if x >= 0 {
        m.update(x, (k, v))
    } else {
        m.push((k, v))
    }
}

/// The value that starts at token `i`, with the position after it.
pub open spec fn parse_value_at(t: Seq<Tok>, i: int) -> Result<(Json, int), ParseError>
    decreases t.len() - i, 0int,
{
    if i < 0 || i >= t.len() {
        Err(ParseError::UnexpectedEnd)
    } else {
        match t[i] {
            Tok::OpenBrace => if i + 1 < t.len() && t[i + 1] == Tok::CloseBrace {
                Ok((Json::Object(Seq::empty()), i + 2))
            } else {
                parse_members_at(t, i + 1, Seq::empty())
            },
            Tok::OpenBracket => if i + 1 < t.len() && t[i + 1] == Tok::CloseBracket {
                Ok((Json::Array(Seq::empty()), i + 2))
            } else {
                parse_items_at(t, i + 1, Seq::empty())
            },
            Tok::LiteralNull => Ok((Json::Null, i + 1)),
            Tok::LiteralTrue => Ok((Json::Bool(true), i + 1)),
            Tok::LiteralFalse => Ok((Json::Bool(false), i + 1)),
            Tok::Number(n) => Ok((Json::Number(n), i + 1)),
            Tok::String(s) => Ok((Json::String(s), i + 1)),
            _ => Err(ParseError::UnexpectedToken),
        }
    }
}

/// The rest of an array from its element at token `i` on, after the elements `acc`.
pub open spec fn parse_items_at(t: Seq<Tok>, i: int, acc: Seq<Json>) -> Result<(Json, int), ParseError>
    decreases t.len() - i, 1int,
{
    match parse_value_at(t, i) {
        Err(e) => Err(e),
        // A parsed value always spans at least one token, so `j <= i` never
        // holds; testing it makes the recursion visibly terminate.
        Ok((v, j)) => if j <= i || j >= t.len() {
            Err(ParseError::ExpectedCommaOrBracket)
        } else if t[j] == Tok::Comma {
            parse_items_at(t, j + 1, acc.push(v))
        } else if t[j] == Tok::CloseBracket {
            Ok((Json::Array(acc.push(v)), j + 1))
        } else {
            Err(ParseError::ExpectedCommaOrBracket)
        },
    }
}

/// The rest of an object from its member at token `i` on, after the members `acc`.
pub open spec fn parse_members_at(t: Seq<Tok>, i: int, acc: Seq<(Seq<char>, Json)>) -> Result<(Json, int), ParseError>
    decreases t.len() - i, 1int,
{
    if i < 0 || i >= t.len() {
        Err(ParseError::UnexpectedEnd)
    } else {
        match t[i] {
            Tok::String(k) => if i + 1 >= t.len() {
                Err(ParseError::UnexpectedEnd)
            } else if t[i + 1] != Tok::Colon {
                Err(ParseError::ExpectedColon)
            } else {
                match parse_value_at(t, i + 2) {
                    Err(e) => Err(e),
                    Ok((v, j)) => if j <= i || j >= t.len() {
                        Err(ParseError::ExpectedCommaOrBrace)
                    } else if t[j] == Tok::Comma {
                        parse_members_at(t, j + 1, insert_member(acc, k, v))
                    } else if t[j] == Tok::CloseBrace {
                        Ok((Json::Object(insert_member(acc, k, v)), j + 1))
                    } else {
                        Err(ParseError::ExpectedCommaOrBrace)
                    },
                }
            },
            _ => Err(ParseError::ExpectedKey),
        }
    }
}

/// The document that the tokens `t` make up.
pub open spec fn parse_tokens(t: Seq<Tok>) -> Result<Json, ParseError> {
    match parse_value_at(t, 0) {
        Err(e) => Err(e),
        Ok((v, j)) => if j < t.len() {
            Err(ParseError::TrailingToken)
        } else {
            Ok(v)
        },
    }
}

/// The document that the text `s` holds.
pub open spec fn parse_text(s: Seq<char>) -> Result<Json, ParseError> {
    match lex(s) {
        Err(e) => Err(ParseError::Lex(e)),
        Ok(t) => parse_tokens(t),
    }
}

/// A recursive-descent parser over a sequence of tokens.
pub struct Parser {
    tokens: Vec<Token>,
    pos: usize,
}

impl Parser {
    /// The models of all tokens, read or not.
    pub closed spec fn toks(&self) -> Seq<Tok> {
        tokens_view(self.tokens@)
    }

    /// The position of the first token not yet read.
    pub closed spec fn position(&self) -> int {
        self.pos as int
    }

    pub closed spec fn wf(&self) -> bool {
        self.pos <= self.tokens@.len()
    }

    /// A parser at the first of `tokens`.
    pub fn new(tokens: Vec<Token>) -> (r: Parser)
        ensures
            r.wf(),
            r.toks() == tokens_view(tokens@),
            r.position() == 0,
    {
        Parser { tokens, pos: 0 }
    }

    /// Reads the next token.
    pub fn consume(&mut self) -> (r: Option<Token>)
        requires
            old(self).wf(),
        ensures
            final(self).wf(),
            final(self).toks() == old(self).toks(),
            old(self).position() < old(self).toks().len() ==> r is Some && r->Some_0@ == old(self).toks()[old(self).position()]
                && final(self).position() == old(self).position() + 1,
            old(self).position() >= old(self).toks().len() ==> r is None && final(self).position() == old(self).position(),
    {
        if self.pos < self.tokens.len() {
            let t = self.tokens[self.pos].duplicate();
            self.pos = self.pos + 1;
            Some(t)
        } else {
            None
        }
    }

    /// The next token, without reading it.
    pub fn peek(&self) -> (r: Option<&Token>)
        requires
            self.wf(),
        ensures
            self.position() < self.toks().len() ==> r is Some && r->Some_0@ == self.toks()[self.position()],
            self.position() >= self.toks().len() ==> r is None,
    {
        if self.pos < self.tokens.len() {
            Some(&self.tokens[self.pos])
        } else {
            None
        }
    }
    /// Parses the value that starts at the next token.
    fn parse_value(&mut self) -> (r: Result<JsonValue, ParseError>)
        requires
            old(self).wf(),
        ensures
            final(self).wf(),
            final(self).toks() == old(self).toks(),
            match parse_value_at(old(self).toks(), old(self).position()) {
                Ok((v, j)) => r is Ok && r->Ok_0@ == v && final(self).position() == j && old(self).position() < j,
                Err(e) => r == Err::<JsonValue, ParseError>(e),
            },
        decreases self.tokens@.len() - self.pos, 1int,
    {
        if self.pos >= self.tokens.len() {
            return Err(ParseError::UnexpectedEnd);
        }
        match &self.tokens[self.pos] {
            Token::OpenBrace => self.parse_object(),
            Token::OpenBracket => self.parse_array(),
            Token::LiteralNull => {
                self.pos = self.pos + 1;
                Ok(JsonValue::Null)
            },
            Token::LiteralTrue => {
                self.pos = self.pos + 1;
                Ok(JsonValue::Bool(true))
            },
            Token::LiteralFalse => {
                self.pos = self.pos + 1;
                Ok(JsonValue::Bool(false))
            },
            Token::Number(n) => {
                let value = JsonValue::Number(n.clone());
                self.pos = self.pos + 1;
                Ok(value)
            },
            Token::String(s) => {
                let value = JsonValue::String(s.clone());
                self.pos = self.pos + 1;
                Ok(value)
            },
            _ => Err(ParseError::UnexpectedToken),
        }
    }

    /// Parses an object whose opening brace is the next token.
    fn parse_object(&mut self) -> (r: Result<JsonValue, ParseError>)
        requires
            old(self).wf(),
            old(self).position() < old(self).toks().len(),
            old(self).toks()[old(self).position()] == Tok::OpenBrace,
        ensures
            final(self).wf(),
            final(self).toks() == old(self).toks(),
            match parse_value_at(old(self).toks(), old(self).position()) {
                Ok((v, j)) => r is Ok && r->Ok_0@ == v && final(self).position() == j && old(self).position() < j,
                Err(e) => r == Err::<JsonValue, ParseError>(e),
            },
        decreases self.tokens@.len() - self.pos, 0int,
    {
        let ghost t = self.toks();
        let ghost start = self.pos as int;
        let n = self.tokens.len();
        assert(t.len() == n);
        self.pos = self.pos + 1;
        if self.pos < n {
            if let Token::CloseBrace = &self.tokens[self.pos] {
                self.pos = self.pos + 1;
                return Ok(JsonValue::Object(Vec::new()));
            }
        }
        let mut members: Vec<(String, JsonValue)> = Vec::new();
        assert(members_view(members@, 0) =~= Seq::<(Seq<char>, Json)>::empty());
        loop
            invariant
                self.wf(),
                self.toks() == t,
                t == old(self).toks(),
                start == old(self).pos,
                start < self.pos,
                parse_value_at(t, start) == parse_members_at(
                    t,
                    self.pos as int,
                    members_view(members@, members@.len() as int),
                ),
            decreases self.tokens@.len() - self.pos,
        {
            if self.pos >= self.tokens.len() {
                return Err(ParseError::UnexpectedEnd);
            }
            let key = match &self.tokens[self.pos] {
                Token::String(k) => k.clone(),
                _ => {
                    return Err(ParseError::ExpectedKey);
                },
            };
            self.pos = self.pos + 1;
            if self.pos >= self.tokens.len() {
                return Err(ParseError::UnexpectedEnd);
            }
            if let Token::Colon = &self.tokens[self.pos] {
            } else {
                return Err(ParseError::ExpectedColon);
            }
            self.pos = self.pos + 1;
            let value = match self.parse_value() {
                Ok(v) => v,
                Err(e) => {
                    return Err(e);
                },
            };
            set_member(&mut members, key, value);
            if self.pos >= self.tokens.len() {
                return Err(ParseError::ExpectedCommaOrBrace);
            }
            match &self.tokens[self.pos] {
                Token::Comma => {
                    self.pos = self.pos + 1;
                },
                Token::CloseBrace => {
                    self.pos = self.pos + 1;
                    return Ok(JsonValue::Object(members));
                },
                _ => {
                    return Err(ParseError::ExpectedCommaOrBrace);
                },
            }
        }
    }

    /// Parses an array whose opening bracket is the next token.
    fn parse_array(&mut self) -> (r: Result<JsonValue, ParseError>)
        requires
            old(self).wf(),
            old(self).position() < old(self).toks().len(),
            old(self).toks()[old(self).position()] == Tok::OpenBracket,
        ensures
            final(self).wf(),
            final(self).toks() == old(self).toks(),
            match parse_value_at(old(self).toks(), old(self).position()) {
                Ok((v, j)) => r is Ok && r->Ok_0@ == v && final(self).position() == j && old(self).position() < j,
                Err(e) => r == Err::<JsonValue, ParseError>(e),
            },
        decreases self.tokens@.len() - self.pos, 0int,
    {
        let ghost t = self.toks();
        let ghost start = self.pos as int;
        let n = self.tokens.len();
        assert(t.len() == n);
        self.pos = self.pos + 1;
        if self.pos < n {
            if let Token::CloseBracket = &self.tokens[self.pos] {
                self.pos = self.pos + 1;
                return Ok(JsonValue::Array(Vec::new()));
            }
        }
        let mut items: Vec<JsonValue> = Vec::new();
        assert(items_view(items@, 0) =~= Seq::<Json>::empty());
        loop
            invariant
                self.wf(),
                self.toks() == t,
                t == old(self).toks(),
                start == old(self).pos,
                start < self.pos,
                parse_value_at(t, start) == parse_items_at(
                    t,
                    self.pos as int,
                    items_view(items@, items@.len() as int),
                ),
            decreases self.tokens@.len() - self.pos,
        {
            let value = match self.parse_value() {
                Ok(v) => v,
                Err(e) => {
                    return Err(e);
                },
            };
            proof {
                lemma_items_push(items@, value);
            }
            items.push(value);
            if self.pos >= self.tokens.len() {
                return Err(ParseError::ExpectedCommaOrBracket);
            }
            match &self.tokens[self.pos] {
                Token::Comma => {
                    self.pos = self.pos + 1;
                },
                Token::CloseBracket => {
                    self.pos = self.pos + 1;
                    return Ok(JsonValue::Array(items));
                },
                _ => {
                    return Err(ParseError::ExpectedCommaOrBracket);
                },
            }
        }
    }
}

/// Sets the member `key` of `members` to `value`, in place where the key is
/// there already.
fn set_member(members: &mut Vec<(String, JsonValue)>, key: String, value: JsonValue)
    ensures
        members_view(final(members)@, final(members)@.len() as int) == insert_member(
            members_view(old(members)@, old(members)@.len() as int),
            key@,
            value@,
        ),
{
    let ghost mv = members_view(members@, members@.len() as int);
    proof {
        lemma_members_view(members@, members@.len() as int);
    }
    let mut i: usize = 0;
    while i < members.len()
        invariant
            members@ == old(members)@,
            mv == members_view(members@, members@.len() as int),
            mv.len() == members@.len(),
            forall|k: int| 0 <= k < members@.len() ==> #[trigger] mv[k] == (members@[k].0@, members@[k].1@),
            i <= members@.len(),
            find_key(mv, key@, 0) == find_key(mv, key@, i as int),
        decreases members@.len() - i,
    {
        if members[i].0 == key {
            proof {
                lemma_members_update(members@, i as int, (key, value));
            }
            members.set(i, (key, value));
            return;
        }
        i = i + 1;
    }
    proof {
        lemma_members_push(members@, (key, value));
    }
    members.push((key, value));
}

/// Parses the JSON document `input`: the whole text must be one value.
pub fn parse(input: &str) -> (r: Result<JsonValue, ParseError>)
    ensures
        match parse_text(input@) {
            Ok(v) => r is Ok && r->Ok_0@ == v,
            Err(e) => r == Err::<JsonValue, ParseError>(e),
        },
{
    let tokens = match tokenize(input) {
        Ok(ts) => ts,
        Err(e) => {
            return Err(ParseError::Lex(e));
        },
    };
    let mut parser = Parser::new(tokens);
    match parser.parse_value() {
        Err(e) => Err(e),
        Ok(v) => if parser.consume().is_some() {
            Err(ParseError::TrailingToken)
        } else {
            Ok(v)
        },
    }
}

} // verus!
