use vstd::prelude::*;
use vstd::string::*;

verus! {

/// A lexical unit of JSON text.
#[derive(Debug, PartialEq)]
pub enum Token {
    OpenBrace,
    CloseBrace,
    OpenBracket,
    CloseBracket,
    Colon,
    Comma,
    /// The string's content with every escape sequence resolved.
    String(String),
    /// The literal text of a number, checked against the JSON number grammar.
    Number(String),
    LiteralTrue,
    LiteralFalse,
    LiteralNull,
}

/// The mathematical model of a token.
pub enum Tok {
    OpenBrace,
    CloseBrace,
    OpenBracket,
    CloseBracket,
    Colon,
    Comma,
    String(Seq<char>),
    Number(Seq<char>),
    LiteralTrue,
    LiteralFalse,
    LiteralNull,
}

impl Token {
    pub open spec fn view(&self) -> Tok {
        match self {
            Token::OpenBrace => Tok::OpenBrace,
            Token::CloseBrace => Tok::CloseBrace,
            Token::OpenBracket => Tok::OpenBracket,
            Token::CloseBracket => Tok::CloseBracket,
            Token::Colon => Tok::Colon,
            Token::Comma => Tok::Comma,
            Token::String(s) => Tok::String(s@),
            Token::Number(n) => Tok::Number(n@),
            Token::LiteralTrue => Tok::LiteralTrue,
            Token::LiteralFalse => Tok::LiteralFalse,
            Token::LiteralNull => Tok::LiteralNull,
        }
    }

    /// A copy of the token.
    pub fn duplicate(&self) -> (r: Token)
        ensures
            r@ == self@,
    {
        match self {
            Token::OpenBrace => Token::OpenBrace,
            Token::CloseBrace => Token::CloseBrace,
            Token::OpenBracket => Token::OpenBracket,
            Token::CloseBracket => Token::CloseBracket,
            Token::Colon => Token::Colon,
            Token::Comma => Token::Comma,
            Token::String(s) => Token::String(s.clone()),
            Token::Number(n) => Token::Number(n.clone()),
            Token::LiteralTrue => Token::LiteralTrue,
            Token::LiteralFalse => Token::LiteralFalse,
            Token::LiteralNull => Token::LiteralNull,
        }
    }
}

/// Why a piece of text is not a sequence of JSON tokens.
#[derive(Debug, PartialEq, Eq, Structural, Clone, Copy)]
pub enum LexError {
    /// The text ended inside a string or an escape sequence.
    UnexpectedEnd,
    /// A backslash followed by a character that starts no escape sequence.
    InvalidEscape(char),
    /// A `\u` escape, which this lexer does not decode.
    UnsupportedUnicodeEscape,
    /// A run of number characters that is not a JSON number.
    InvalidNumber,
    /// A character that starts no token.
    InvalidCharacter(char),
    /// A `t`, `f` or `n` not followed by the rest of `true`, `false` or `null`.
    InvalidLiteral,
}

/// Relies on String::push: appends one character.
#[verifier::external_body]
pub(crate) fn push_char(s: &mut String, c: char)
    ensures
        final(s)@ == old(s)@.push(c),
{
    s.push(c)
}

/// The whitespace that JSON allows between tokens: space, tab, line feed
/// and carriage return.
pub open spec fn is_ws(c: char) -> bool {
    c == ' ' || c == '\t' || c == '\n' || c == '\r'
}

pub open spec fn is_digit(c: char) -> bool {
    '0' <= c && c <= '9'
}

/// Characters that may continue a number literal.
pub open spec fn is_number_char(c: char) -> bool {
    is_digit(c) || c == '.' || c == 'e' || c == 'E' || c == '+' || c == '-'
}

/// The first position at or after `i` that holds no whitespace.
pub open spec fn skip_ws(s: Seq<char>, i: int) -> int
    decreases s.len() - i,
{
    if 0 <= i < s.len() && is_ws(s[i]) {
        skip_ws(s, i + 1)
    } else {
        i
    }
}

/// The end of the run of number characters that starts at `i`.
pub open spec fn number_end(s: Seq<char>, i: int) -> int
    decreases s.len() - i,
{
    if 0 <= i < s.len() && is_number_char(s[i]) {
        number_end(s, i + 1)
    } else {
        i
    }
}

/// The states of the JSON number grammar: 0 at the start, 1 after a minus sign,
/// 2 after a leading zero, 3 in the integer digits, 4 after the point, 5 in the
/// fraction digits, 6 after the exponent mark, 7 after the exponent's sign, 8 in
/// the exponent digits, 9 when the text can no longer be a number.
pub open spec fn number_step(st: u8, c: char) -> u8 {
    if st == 0 && c == '-' {
        1
    } else if (st == 0 || st == 1) && c == '0' {
        2
    } else if (st == 0 || st == 1) && is_digit(c) {
        3
    } else if st == 3 && is_digit(c) {
        3
    } else if (st == 2 || st == 3) && c == '.' {
        4
    } else if (st == 4 || st == 5) && is_digit(c) {
        5
    } else if (st == 2 || st == 3 || st == 5) && (c == 'e' || c == 'E') {
        6
    } else if st == 6 && (c == '+' || c == '-') {
        7
    } else if (st == 6 || st == 7 || st == 8) && is_digit(c) {
        8
    } else {
        9
    }
}

pub open spec fn number_state(s: Seq<char>) -> u8
    decreases s.len(),
{
    if s.len() == 0 {
        0
    } else {
        number_step(number_state(s.drop_last()), s.last())
    }
}

/// `s` is a number by the JSON grammar: an optional minus sign, an integer part
/// without leading zeros, an optional fraction and an optional exponent.
pub open spec fn valid_number(s: Seq<char>) -> bool {
    let st = number_state(s);
    st == 2 || st == 3 || st == 5 || st == 8
}

/// The character that the escape sequence `\c` stands for.
pub open spec fn unescape(c: char) -> Option<char> {
    if c == '"' || c == '\\' || c == '/' {
        Some(c)
    } else if c == 'b' {
        Some('\x08')
    } else if c == 'f' {
        Some('\x0C')
    } else if c == 'n' {
        Some('\n')
    } else if c == 'r' {
        Some('\r')
    } else if c == 't' {
        Some('\t')
    } else {
        None
    }
}

/// Lexes the rest of a string whose opening quote ends before `i`, having
/// decoded `acc` so far; on success, the token and the position after it.
pub open spec fn lex_string_at(s: Seq<char>, i: int, acc: Seq<char>) -> Result<(Tok, int), LexError>
    decreases s.len() - i,
{
    if i < 0 || i >= s.len() {
        Err(LexError::UnexpectedEnd)
    } else if s[i] == '"' {
        Ok((Tok::String(acc), i + 1))
    } else if s[i] == '\\' {
        if i + 1 >= s.len() {
            Err(LexError::UnexpectedEnd)
        } else if s[i + 1] == 'u' {
            Err(LexError::UnsupportedUnicodeEscape)
        } else {
            match unescape(s[i + 1]) {
                Some(c) => lex_string_at(s, i + 2, acc.push(c)),
                None => Err(LexError::InvalidEscape(s[i + 1])),
            }
        }
    } else {
        lex_string_at(s, i + 1, acc.push(s[i]))
    }
}

/// Lexes the rest `tail` of a literal word from `i` on.
pub open spec fn lex_literal_at(s: Seq<char>, i: int, tail: Seq<char>, t: Tok) -> Result<(Tok, int), LexError> {
    if 0 <= i && i + tail.len() <= s.len() && s.subrange(i, i + tail.len()) == tail {
        Ok((t, i + tail.len()))
    } else {
        Err(LexError::InvalidLiteral)
    }
}

/// Lexes a number whose first character stands at `i`.
pub open spec fn lex_number_at(s: Seq<char>, i: int) -> Result<(Tok, int), LexError> {
    let e = number_end(s, i + 1);
    if valid_number(s.subrange(i, e)) {
        Ok((Tok::Number(s.subrange(i, e)), e))
    } else {
        Err(LexError::InvalidNumber)
    }
}

/// The next token of `s` from position `i` on, with the position after it;
/// `None` where only whitespace is left.
pub open spec fn next_token(s: Seq<char>, i: int) -> Option<Result<(Tok, int), LexError>> {
    let k = skip_ws(s, i);
    if k < 0 || k >= s.len() {
        None
    } else {
        let c = s[k];
        Some(
            if c == '{' {
                Ok((Tok::OpenBrace, k + 1))
            } else if c == '}' {
                Ok((Tok::CloseBrace, k + 1))
            } else if c == '[' {
                Ok((Tok::OpenBracket, k + 1))
            } else if c == ']' {
                Ok((Tok::CloseBracket, k + 1))
            } else if c == ':' {
                Ok((Tok::Colon, k + 1))
            } else if c == ',' {
                Ok((Tok::Comma, k + 1))
            } else if c == '"' {
                lex_string_at(s, k + 1, Seq::empty())
            } else if is_digit(c) || c == '-' {
                lex_number_at(s, k)
            } else if c == 't' {
                lex_literal_at(s, k + 1, seq!['r', 'u', 'e'], Tok::LiteralTrue)
            } else if c == 'f' {
                lex_literal_at(s, k + 1, seq!['a', 'l', 's', 'e'], Tok::LiteralFalse)
            } else if c == 'n' {
                lex_literal_at(s, k + 1, seq!['u', 'l', 'l'], Tok::LiteralNull)
            } else {
                Err(LexError::InvalidCharacter(c))
            },
        )
    }
}

/// All tokens of `s` from position `i` on, or the first error.
pub open spec fn lex_from(s: Seq<char>, i: int) -> Result<Seq<Tok>, LexError>
    decreases s.len() - i,
{
    match next_token(s, i) {
        None => Ok(Seq::empty()),
        Some(Err(e)) => Err(e),
        // Every token advances (see `Lexer::next`); the guard only makes the
        // recursion visibly terminate.
        Some(Ok((t, j))) => if i < j <= s.len() {
            match lex_from(s, j) {
                Ok(ts) => Ok(seq![t] + ts),
                Err(e) => Err(e),
            }
        } else {
            Err(LexError::UnexpectedEnd)
        },
    }
}

/// All tokens of `s`, or the first error.
pub open spec fn lex(s: Seq<char>) -> Result<Seq<Tok>, LexError> {
    lex_from(s, 0)
}

/// A forward-only stream of tokens over a text.
pub struct Lexer {
    chars: Vec<char>,
    pos: usize,
}

impl Lexer {
    /// The characters of the text.
    pub closed spec fn text(&self) -> Seq<char> {
        self.chars@
    }

    /// The position of the first character not yet read.
    pub closed spec fn position(&self) -> int {
        self.pos as int
    }

    pub closed spec fn wf(&self) -> bool {
        self.pos <= self.chars@.len()
    }

    /// A lexer at the start of `input`.
    pub fn new(input: &str) -> (r: Lexer)
        ensures
            r.wf(),
            r.text() == input@,
            r.position() == 0,
    {
        let mut chars: Vec<char> = Vec::new();
        for c in it: input.chars()
            invariant
                chars@ == it.seq().take(it.index() as int),
        {
            chars.push(c);
        }
        assert(chars@ =~= input@);
        Lexer { chars, pos: 0 }
    }

    /// Reads the next character.
    pub fn consume(&mut self) -> (r: Option<char>)
        requires
            old(self).wf(),
        ensures
            final(self).wf(),
            final(self).text() == old(self).text(),
            old(self).position() < old(self).text().len() ==> r == Some(old(self).text()[old(self).position()])
                && final(self).position() == old(self).position() + 1,
            old(self).position() == old(self).text().len() ==> r is None && final(self).position() == old(self).position(),
    {
        if self.pos < self.chars.len() {
            let c = self.chars[self.pos];
            self.pos = self.pos + 1;
            Some(c)
        } else {
            None
        }
    }

    /// The next character, without reading it.
    pub fn peek(&self) -> (r: Option<char>)
        requires
            self.wf(),
        ensures
            self.position() < self.text().len() ==> r == Some(self.text()[self.position()]),
            self.position() == self.text().len() ==> r is None,
    {
        if self.pos < self.chars.len() {
            Some(self.chars[self.pos])
        } else {
            None
        }
    }
    /// Lexes the rest of a string whose opening quote has been read.
    fn lex_string(&mut self) -> (r: Result<Token, LexError>)
        requires
            old(self).wf(),
        ensures
            final(self).wf(),
            final(self).text() == old(self).text(),
            old(self).position() <= final(self).position(),
            match lex_string_at(old(self).text(), old(self).position(), Seq::empty()) {
                Ok((t, j)) => r is Ok && r->Ok_0@ == t && final(self).position() == j,
                Err(e) => r == Err::<Token, LexError>(e),
            },
    {
        let ghost s = self.chars@;
        let ghost start = self.pos as int;
        let mut content = String::new();
        loop
            invariant
                self.wf(),
                self.chars@ == s,
                s == old(self).chars@,
                start == old(self).pos,
                start <= self.pos,
                lex_string_at(s, start, Seq::empty()) == lex_string_at(s, self.pos as int, content@),
            decreases s.len() - self.pos,
        {
            if self.pos >= self.chars.len() {
                return Err(LexError::UnexpectedEnd);
            }
            let c = self.chars[self.pos];
            self.pos = self.pos + 1;
            if c == '"' {
                return Ok(Token::String(content));
            } else if c == '\\' {
                if self.pos >= self.chars.len() {
                    return Err(LexError::UnexpectedEnd);
                }
                let e = self.chars[self.pos];
                self.pos = self.pos + 1;
                if e == '"' || e == '\\' || e == '/' {
                    push_char(&mut content, e);
                } else if e == 'b' {
                    push_char(&mut content, '\x08');
                } else if e == 'f' {
                    push_char(&mut content, '\x0C');
                } else if e == 'n' {
                    push_char(&mut content, '\n');
                } else if e == 'r' {
                    push_char(&mut content, '\r');
                } else if e == 't' {
                    push_char(&mut content, '\t');
                } else if e == 'u' {
                    return Err(LexError::UnsupportedUnicodeEscape);
                } else {
                    return Err(LexError::InvalidEscape(e));
                }
            } else {
                push_char(&mut content, c);
            }
        }
    }

    /// Reads the rest `tail` of a literal word and yields `token` if it is there.
    fn lex_keyword(&mut self, tail: &str, token: Token) -> (r: Result<Token, LexError>)
        requires
            old(self).wf(),
        ensures
            final(self).wf(),
            final(self).text() == old(self).text(),
            old(self).position() <= final(self).position(),
            match lex_literal_at(old(self).text(), old(self).position(), tail@, token@) {
                Ok((t, j)) => r is Ok && r->Ok_0@ == t && final(self).position() == j,
                Err(e) => r == Err::<Token, LexError>(e),
            },
    {
        let ghost s = self.chars@;
        let ghost start = self.pos as int;
        let n = tail.unicode_len();
        let mut k: usize = 0;
        while k < n
            invariant
                self.wf(),
                self.chars@ == s,
                s == old(self).chars@,
                start == old(self).pos,
                n == tail@.len(),
                k <= n,
                self.pos == start + k,
                s.subrange(start, self.pos as int) == tail@.subrange(0, k as int),
            decreases n - k,
        {
            let expected = tail.get_char(k);
            if self.pos >= self.chars.len() {
                return Err(LexError::InvalidLiteral);
            }
            if self.chars[self.pos] != expected {
                proof {
                    if start + n <= s.len() && s.subrange(start, start + n) == tail@ {
                        assert(s.subrange(start, start + n)[k as int] == s[start + k]);
                    }
                }
                return Err(LexError::InvalidLiteral);
            }
            self.pos = self.pos + 1;
            k = k + 1;
            proof {
                assert(s.subrange(start, self.pos as int) =~= tail@.subrange(0, k as int));
            }
        }
        assert(tail@.subrange(0, n as int) =~= tail@);
        Ok(token)
    }

    /// Reads the rest of a number whose first character `first` has been read.
    fn lex_number(&mut self, first: char) -> (r: Result<Token, LexError>)
        requires
            old(self).wf(),
            0 < old(self).position(),
            old(self).text()[old(self).position() - 1] == first,
        ensures
            final(self).wf(),
            final(self).text() == old(self).text(),
            old(self).position() <= final(self).position(),
            match lex_number_at(old(self).text(), old(self).position() - 1) {
                Ok((t, j)) => r is Ok && r->Ok_0@ == t && final(self).position() == j,
                Err(e) => r == Err::<Token, LexError>(e),
            },
    {
        let ghost s = self.chars@;
        let ghost start = self.pos as int - 1;
        let mut literal = String::new();
        push_char(&mut literal, first);
        let mut st: u8 = next_number_state(0, first);
        proof {
            assert(literal@ =~= s.subrange(start, self.pos as int));
            assert(literal@.drop_last() =~= Seq::<char>::empty());
            assert(number_state(Seq::empty()) == 0);
        }
        loop
            invariant
                self.wf(),
                self.chars@ == s,
                s == old(self).chars@,
                start == old(self).pos - 1,
                0 <= start < self.pos,
                literal@ == s.subrange(start, self.pos as int),
                st == number_state(literal@),
                number_end(s, start + 1) == number_end(s, self.pos as int),
            ensures
                number_end(s, start + 1) == self.pos,
            decreases s.len() - self.pos,
        {
            if self.pos >= self.chars.len() || !continues_number(self.chars[self.pos]) {
                assert(number_end(s, self.pos as int) == self.pos);
                break;
            }
            let c = self.chars[self.pos];
            proof {
                assert(literal@.push(c).drop_last() =~= literal@);
            }
            push_char(&mut literal, c);
            st = next_number_state(st, c);
            self.pos = self.pos + 1;
            proof {
                assert(literal@ =~= s.subrange(start, self.pos as int));
            }
        }
        if st == 2 || st == 3 || st == 5 || st == 8 {
            Ok(Token::Number(literal))
        } else {
            Err(LexError::InvalidNumber)
        }
    }

    /// The next token, or `None` where only whitespace is left. After an
    /// error the lexer stands at the end of its text.
    pub fn next(&mut self) -> (r: Option<Result<Token, LexError>>)
        requires
            old(self).wf(),
        ensures
            final(self).wf(),
            final(self).text() == old(self).text(),
            match next_token(old(self).text(), old(self).position()) {
                None => r is None && final(self).position() == final(self).text().len(),
                Some(Ok((t, j))) => r matches Some(Ok(tok)) && tok@ == t && final(self).position() == j
                    && old(self).position() < j,
                Some(Err(e)) => r == Some(Err::<Token, LexError>(e)) && final(self).position()
                    == final(self).text().len(),
            },
    {
        let ghost s = self.chars@;
        let ghost start = self.pos as int;
        while self.pos < self.chars.len() && is_space(self.chars[self.pos])
            invariant
                self.wf(),
                self.chars@ == s,
                s == old(self).chars@,
                start == old(self).pos,
                start <= self.pos,
                skip_ws(s, start) == skip_ws(s, self.pos as int),
            decreases s.len() - self.pos,
        {
            self.pos = self.pos + 1;
        }
        let c = match self.consume() {
            Some(c) => c,
            None => return None,
        };
        let token = if c == '{' {
            Ok(Token::OpenBrace)
        } else if c == '}' {
            Ok(Token::CloseBrace)
        } else if c == '[' {
            Ok(Token::OpenBracket)
        } else if c == ']' {
            Ok(Token::CloseBracket)
        } else if c == ':' {
            Ok(Token::Colon)
        } else if c == ',' {
            Ok(Token::Comma)
        } else if c == '"' {
            self.lex_string()
        } else if ('0' <= c && c <= '9') || c == '-' {
            self.lex_number(c)
        } else if c == 't' {
            proof {
                reveal_strlit("rue");
                assert("rue"@ =~= seq!['r', 'u', 'e']);
            }
            self.lex_keyword("rue", Token::LiteralTrue)
        } else if c == 'f' {
            proof {
                reveal_strlit("alse");
                assert("alse"@ =~= seq!['a', 'l', 's', 'e']);
            }
            self.lex_keyword("alse", Token::LiteralFalse)
        } else if c == 'n' {
            proof {
                reveal_strlit("ull");
                assert("ull"@ =~= seq!['u', 'l', 'l']);
            }
            self.lex_keyword("ull", Token::LiteralNull)
        } else {
            Err(LexError::InvalidCharacter(c))
        };
        if token.is_err() {
            self.pos = self.chars.len();
        }
        Some(token)
    }
}

fn is_space(c: char) -> (r: bool)
    ensures
        r == is_ws(c),
{
    c == ' ' || c == '\t' || c == '\n' || c == '\r'
}

fn continues_number(c: char) -> (r: bool)
    ensures
        r == is_number_char(c),
{
    ('0' <= c && c <= '9') || c == '.' || c == 'e' || c == 'E' || c == '+' || c == '-'
}

fn next_number_state(st: u8, c: char) -> (r: u8)
    ensures
        r == number_step(st, c),
{
    let digit = '0' <= c && c <= '9';
    if st == 0 && c == '-' {
        1
    } else if (st == 0 || st == 1) && c == '0' {
        2
    } else if (st == 0 || st == 1) && digit {
        3
    } else if st == 3 && digit {
        3
    } else if (st == 2 || st == 3) && c == '.' {
        4
    } else if (st == 4 || st == 5) && digit {
        5
    } else if (st == 2 || st == 3 || st == 5) && (c == 'e' || c == 'E') {
        6
    } else if st == 6 && (c == '+' || c == '-') {
        7
    } else if (st == 6 || st == 7 || st == 8) && digit {
        8
    } else {
        9
    }
}

/// The models of a sequence of tokens.
pub open spec fn tokens_view(ts: Seq<Token>) -> Seq<Tok> {
    ts.map_values(|t: Token| t@)
}

/// All tokens of `input`, or the first lexical error.
pub fn tokenize(input: &str) -> (r: Result<Vec<Token>, LexError>)
    ensures
        match lex(input@) {
            Ok(ts) => r is Ok && tokens_view(r->Ok_0@) == ts,
            Err(e) => r == Err::<Vec<Token>, LexError>(e),
        },
{
    let mut lexer = Lexer::new(input);
    let mut tokens: Vec<Token> = Vec::new();
    let ghost s = input@;
    assert(tokens_view(tokens@) =~= Seq::<Tok>::empty());
    assert(Seq::<Tok>::empty() + Seq::<Tok>::empty() =~= Seq::<Tok>::empty());
    loop
        invariant
            lexer.wf(),
            lexer.text() == s,
            s == input@,
            0 <= lexer.position() <= s.len(),
            match lex_from(s, lexer.position()) {
                Ok(rest) => lex(s) == Ok::<Seq<Tok>, LexError>(tokens_view(tokens@) + rest),
                Err(e) => lex(s) == Err::<Seq<Tok>, LexError>(e),
            },
        decreases s.len() - lexer.position(),
    {
        let ghost i = lexer.position();
        match lexer.next() {
            None => {
                assert(tokens_view(tokens@) + Seq::<Tok>::empty() =~= tokens_view(tokens@));
                return Ok(tokens);
            },
            Some(Err(e)) => {
                return Err(e);
            },
            Some(Ok(t)) => {
                let ghost before = tokens_view(tokens@);
                let ghost tv = t@;
                tokens.push(t);
                proof {
                    assert(tokens_view(tokens@) =~= before.push(tv));
                    match lex_from(s, lexer.position()) {
                        Ok(rest) => {
                            assert(before + (seq![tv] + rest) =~= before.push(tv) + rest);
                        },
                        Err(e) => {},
                    }
                }
            },
        }
    }
}

} // verus!
