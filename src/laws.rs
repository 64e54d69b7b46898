use vstd::prelude::*;
use crate::json::{escape, escape_char, quote, serialize_items, serialize_json, serialize_members, Json};
use crate::parse::{
    find_key, insert_member, parse_items_at, parse_members_at, parse_text, parse_tokens, parse_value_at, ParseError,
};
use crate::token::{
    lex, is_digit, is_number_char, lex_from, lex_string_at, next_token, number_end, number_state, number_step, valid_number, LexError, Tok,
};

verus! {

/// No two members of `m` share a key.
pub open spec fn keys_unique(m: Seq<(Seq<char>, Json)>) -> bool {
    forall|a: int, b: int| 0 <= a < b < m.len() ==> m[a].0 != m[b].0
}

/// Every number of `v` follows the JSON grammar and every object of `v` has
/// unique keys: what a parsed document satisfies.
pub open spec fn well_formed(v: Json) -> bool
    decreases v, 0int,
{
    match v {
        Json::Number(n) => valid_number(n),
        Json::Array(s) => forall|k: int| 0 <= k < s.len() ==> well_formed(#[trigger] s[k]),
        Json::Object(m) => keys_unique(m) && forall|k: int| 0 <= k < m.len() ==> well_formed(#[trigger] m[k].1),
        _ => true,
    }
}

/// The tokens that the text of `v` consists of.
pub open spec fn tokens_of(v: Json) -> Seq<Tok>
    decreases v, 0int,
{
    match v {
        Json::Null => seq![Tok::LiteralNull],
        Json::Bool(b) => if b {
            seq![Tok::LiteralTrue]
        } else {
            seq![Tok::LiteralFalse]
        },
        Json::Number(n) => seq![Tok::Number(n)],
        Json::String(s) => seq![Tok::String(s)],
        Json::Array(s) => seq![Tok::OpenBracket] + item_tokens(s, s.len() as int) + seq![Tok::CloseBracket],
        Json::Object(m) => seq![Tok::OpenBrace] + member_tokens(m, m.len() as int) + seq![Tok::CloseBrace],
    }
}

pub open spec fn item_tokens(s: Seq<Json>, n: int) -> Seq<Tok>
    decreases s, n,
{
    if 0 < n <= s.len() {
        if n == 1 {
            tokens_of(s[0])
        } else {
            item_tokens(s, n - 1) + seq![Tok::Comma] + tokens_of(s[n - 1])
        }
    } else {
        Seq::empty()
    }
}

pub open spec fn member_tokens(m: Seq<(Seq<char>, Json)>, n: int) -> Seq<Tok>
    decreases m, n,
{
    if 0 < n <= m.len() {
        let member = seq![Tok::String(m[n - 1].0), Tok::Colon] + tokens_of(m[n - 1].1);
        if n == 1 {
            member
        } else {
            member_tokens(m, n - 1) + seq![Tok::Comma] + member
        }
    } else {
        Seq::empty()
    }
}

/// Whether `t` holds `x` from position `i` on.
pub open spec fn holds_at<A>(t: Seq<A>, i: int, x: Seq<A>) -> bool {
    0 <= i && i + x.len() <= t.len() && forall|k: int| 0 <= k < x.len() ==> t[i + k] == #[trigger] x[k]
}

proof fn lemma_holds_concat<A>(t: Seq<A>, i: int, x: Seq<A>, y: Seq<A>)
    requires
        holds_at(t, i, x + y),
    ensures
        holds_at(t, i, x),
        holds_at(t, i + x.len(), y),
{
    assert forall|k: int| 0 <= k < x.len() implies t[i + k] == #[trigger] x[k] by {
        assert((x + y)[k] == x[k]);
    }
    assert forall|k: int| 0 <= k < y.len() implies t[i + x.len() + k] == #[trigger] y[k] by {
        assert((x + y)[x.len() + k] == y[k]);
    }
}

/// The tokens of a value never start with a closing bracket or brace.
proof fn lemma_tokens_start(v: Json)
    ensures
        tokens_of(v).len() > 0,
        tokens_of(v)[0] != Tok::CloseBracket,
        tokens_of(v)[0] != Tok::CloseBrace,
        tokens_of(v)[0] != Tok::Comma,
{
}

/// The values between the brackets, from the first element on.
pub open spec fn items_after(t: Seq<Tok>, j: int, acc: Seq<Json>) -> Result<(Json, int), ParseError> {
    if j >= t.len() {
        Err(ParseError::ExpectedCommaOrBracket)
    } else if t[j] == Tok::Comma {
        parse_items_at(t, j + 1, acc)
    } else if t[j] == Tok::CloseBracket {
        Ok((Json::Array(acc), j + 1))
    } else {
        Err(ParseError::ExpectedCommaOrBracket)
    }
}

pub open spec fn members_after(t: Seq<Tok>, j: int, acc: Seq<(Seq<char>, Json)>) -> Result<(Json, int), ParseError> {
    if j >= t.len() {
        Err(ParseError::ExpectedCommaOrBrace)
    } else if t[j] == Tok::Comma {
        parse_members_at(t, j + 1, acc)
    } else if t[j] == Tok::CloseBrace {
        Ok((Json::Object(acc), j + 1))
    } else {
        Err(ParseError::ExpectedCommaOrBrace)
    }
}

/// Parsing the tokens of a well-formed value gives the value back.
proof fn lemma_parse_tokens_of(t: Seq<Tok>, i: int, v: Json)
    requires
        well_formed(v),
        holds_at(t, i, tokens_of(v)),
    ensures
        parse_value_at(t, i) == Ok::<(Json, int), ParseError>((v, i + tokens_of(v).len())),
    decreases v, 0int,
{
    match v {
        Json::Array(s) => {
            let body = item_tokens(s, s.len() as int);
            lemma_holds_concat(t, i, seq![Tok::OpenBracket] + body, seq![Tok::CloseBracket]);
            lemma_holds_concat(t, i, seq![Tok::OpenBracket], body);
            assert(seq![Tok::OpenBracket][0] == Tok::OpenBracket);
            assert(t[i] == Tok::OpenBracket);
            if s.len() == 0 {
                assert(t[i + 1] == Tok::CloseBracket);
                assert(s =~= Seq::<Json>::empty());
            } else {
                lemma_item_tokens_start(s, s.len() as int);
                assert(t[i + 1] == body[0]);
                lemma_parse_items(t, i + 1, s, s.len() as int);
                assert(s.take(s.len() as int) =~= s);
                assert(seq![Tok::CloseBracket][0] == Tok::CloseBracket);
                assert(t[i + 1 + body.len()] == Tok::CloseBracket);
            }
        },
        Json::Object(m) => {
            let body = member_tokens(m, m.len() as int);
            lemma_holds_concat(t, i, seq![Tok::OpenBrace] + body, seq![Tok::CloseBrace]);
            lemma_holds_concat(t, i, seq![Tok::OpenBrace], body);
            assert(seq![Tok::OpenBrace][0] == Tok::OpenBrace);
            assert(t[i] == Tok::OpenBrace);
            if m.len() == 0 {
                assert(t[i + 1] == Tok::CloseBrace);
                assert(m =~= Seq::<(Seq<char>, Json)>::empty());
            } else {
                assert(t[i + 1] == body[0]);
                lemma_parse_members(t, i + 1, m, m.len() as int);
                assert(m.take(m.len() as int) =~= m);
                assert(seq![Tok::CloseBrace][0] == Tok::CloseBrace);
                assert(t[i + 1 + body.len()] == Tok::CloseBrace);
            }
        },
        _ => {
            assert(t[i] == tokens_of(v)[0]);
        },
    }
}

proof fn lemma_item_tokens_start(s: Seq<Json>, n: int)
    requires
        0 < n <= s.len(),
    ensures
        item_tokens(s, n).len() > 0,
        item_tokens(s, n)[0] == tokens_of(s[0])[0],
    decreases n,
{
    lemma_tokens_start(s[0]);
    if n > 1 {
        lemma_item_tokens_start(s, n - 1);
    }
}

/// The first `n` elements parse to themselves, and parsing goes on after them.
proof fn lemma_parse_items(t: Seq<Tok>, q: int, s: Seq<Json>, n: int)
    requires
        0 < n <= s.len(),
        forall|k: int| 0 <= k < s.len() ==> well_formed(#[trigger] s[k]),
        holds_at(t, q, item_tokens(s, n)),
    ensures
        parse_items_at(t, q, Seq::empty()) == items_after(t, q + item_tokens(s, n).len(), s.take(n)),
    decreases s, n,
{
    if n == 1 {
        lemma_parse_tokens_of(t, q, s[0]);
        lemma_tokens_start(s[0]);
        assert(Seq::<Json>::empty().push(s[0]) =~= s.take(1));
    } else {
        let prev = item_tokens(s, n - 1);
        lemma_holds_concat(t, q, prev + seq![Tok::Comma], tokens_of(s[n - 1]));
        lemma_holds_concat(t, q, prev, seq![Tok::Comma]);
        lemma_parse_items(t, q, s, n - 1);
        let j = q + prev.len();
        assert(seq![Tok::Comma][0] == Tok::Comma);
        assert(t[j] == Tok::Comma);
        lemma_parse_tokens_of(t, j + 1, s[n - 1]);
        lemma_tokens_start(s[n - 1]);
        assert(s.take(n - 1).push(s[n - 1]) =~= s.take(n));
    }
}

proof fn lemma_insert_fresh(m: Seq<(Seq<char>, Json)>, k: Seq<char>, v: Json, i: int)
    requires
        0 <= i <= m.len(),
        forall|a: int| i <= a < m.len() ==> m[a].0 != k,
    ensures
        find_key(m, k, i) == -1,
    decreases m.len() - i,
{
    if i < m.len() {
        lemma_insert_fresh(m, k, v, i + 1);
    }
}

/// The first `n` members parse to themselves, and parsing goes on after them.
proof fn lemma_parse_members(t: Seq<Tok>, q: int, m: Seq<(Seq<char>, Json)>, n: int)
    requires
        0 < n <= m.len(),
        keys_unique(m),
        forall|k: int| 0 <= k < m.len() ==> well_formed(#[trigger] m[k].1),
        holds_at(t, q, member_tokens(m, n)),
    ensures
        parse_members_at(t, q, Seq::empty()) == members_after(t, q + member_tokens(m, n).len(), m.take(n)),
    decreases m, n,
{
    let last = m[n - 1];
    let member = seq![Tok::String(last.0), Tok::Colon] + tokens_of(last.1);
    let p = if n == 1 {
        q
    } else {
        q + member_tokens(m, n - 1).len() + 1
    };
    if n == 1 {
        assert(member_tokens(m, n) == member);
    } else {
        let prev = member_tokens(m, n - 1);
        lemma_holds_concat(t, q, prev + seq![Tok::Comma], member);
        lemma_holds_concat(t, q, prev, seq![Tok::Comma]);
        lemma_parse_members(t, q, m, n - 1);
        assert(seq![Tok::Comma][0] == Tok::Comma);
        assert(t[q + prev.len()] == Tok::Comma);
    }
    assert(holds_at(t, p, member));
    lemma_holds_concat(t, p, seq![Tok::String(last.0), Tok::Colon], tokens_of(last.1));
    assert(t[p] == Tok::String(last.0));
    assert(t[p + 1] == Tok::Colon);
    lemma_parse_tokens_of(t, p + 2, last.1);
    lemma_tokens_start(last.1);
    let acc = m.take(n - 1);
    lemma_insert_fresh(acc, last.0, last.1, 0);
    assert(insert_member(acc, last.0, last.1) =~= m.take(n));
    if n == 1 {
        assert(acc =~= Seq::<(Seq<char>, Json)>::empty());
    }
}

/// Every number token of `t` follows the JSON grammar.
pub open spec fn numbers_valid(t: Seq<Tok>) -> bool {
    forall|k: int| 0 <= k < t.len() && (#[trigger] t[k]) is Number ==> valid_number(t[k]->Number_0)
}

proof fn lemma_lex_string_is_string(s: Seq<char>, i: int, acc: Seq<char>)
    ensures
        lex_string_at(s, i, acc) is Ok ==> lex_string_at(s, i, acc)->Ok_0.0 is String,
    decreases s.len() - i,
{
    if 0 <= i < s.len() && s[i] != '"' {
        if s[i] == '\\' {
            if i + 1 < s.len() {
                lemma_lex_string_is_string(s, i + 2, acc.push(s[i + 1]));
                match crate::token::unescape(s[i + 1]) {
                    Some(c) => lemma_lex_string_is_string(s, i + 2, acc.push(c)),
                    None => {},
                }
            }
        } else {
            lemma_lex_string_is_string(s, i + 1, acc.push(s[i]));
        }
    }
}

/// The lexer yields only numbers that follow the grammar.
proof fn lemma_lex_numbers_valid(s: Seq<char>, i: int)
    ensures
        lex_from(s, i) is Ok ==> numbers_valid(lex_from(s, i)->Ok_0),
    decreases s.len() - i,
{
    match next_token(s, i) {
        Some(Ok((t, j))) => {
            if i < j <= s.len() {
                lemma_lex_numbers_valid(s, j);
                let k = crate::token::skip_ws(s, i);
                lemma_lex_string_is_string(s, k + 1, Seq::empty());
                if lex_from(s, i) is Ok {
                    let rest = lex_from(s, j)->Ok_0;
                    assert(lex_from(s, i)->Ok_0 == seq![t] + rest);
                    assert forall|x: int|
                        0 <= x < (seq![t] + rest).len() && (#[trigger] (seq![t] + rest)[x]) is Number implies valid_number(
                        (seq![t] + rest)[x]->Number_0) by {
                        if x > 0 {
                            assert((seq![t] + rest)[x] == rest[x - 1]);
                        }
                    }
                }
            }
        },
        _ => {},
    }
}

proof fn lemma_find_key(m: Seq<(Seq<char>, Json)>, k: Seq<char>, i: int)
    requires
        0 <= i,
    ensures
        find_key(m, k, i) == -1 ==> forall|a: int| i <= a < m.len() ==> m[a].0 != k,
        find_key(m, k, i) != -1 ==> i <= find_key(m, k, i) < m.len() && m[find_key(m, k, i)].0 == k,
    decreases m.len() - i,
{
    if i < m.len() {
        lemma_find_key(m, k, i + 1);
    }
}

proof fn lemma_insert_well_formed(m: Seq<(Seq<char>, Json)>, k: Seq<char>, v: Json)
    requires
        keys_unique(m),
        forall|a: int| 0 <= a < m.len() ==> well_formed(#[trigger] m[a].1),
        well_formed(v),
    ensures
        keys_unique(insert_member(m, k, v)),
        forall|a: int|
            0 <= a < insert_member(m, k, v).len() ==> well_formed(#[trigger] insert_member(m, k, v)[a].1),
{
    lemma_find_key(m, k, 0);
}

/// A value parsed from tokens whose numbers follow the grammar is well formed.
proof fn lemma_parse_well_formed(t: Seq<Tok>, i: int)
    requires
        numbers_valid(t),
    ensures
        parse_value_at(t, i) is Ok ==> well_formed(parse_value_at(t, i)->Ok_0.0),
    decreases t.len() - i, 0int,
{
    if 0 <= i < t.len() {
        match t[i] {
            Tok::OpenBrace => {
                if !(i + 1 < t.len() && t[i + 1] == Tok::CloseBrace) {
                    lemma_members_well_formed(t, i + 1, Seq::empty());
                }
            },
            Tok::OpenBracket => {
                if !(i + 1 < t.len() && t[i + 1] == Tok::CloseBracket) {
                    lemma_items_well_formed(t, i + 1, Seq::empty());
                }
            },
            _ => {},
        }
    }
}

proof fn lemma_items_well_formed(t: Seq<Tok>, i: int, acc: Seq<Json>)
    requires
        numbers_valid(t),
        forall|a: int| 0 <= a < acc.len() ==> well_formed(#[trigger] acc[a]),
    ensures
        parse_items_at(t, i, acc) is Ok ==> well_formed(parse_items_at(t, i, acc)->Ok_0.0),
    decreases t.len() - i, 1int,
{
    lemma_parse_well_formed(t, i);
    match parse_value_at(t, i) {
        Ok((v, j)) => {
            let acc2 = acc.push(v);
            assert forall|a: int| 0 <= a < acc2.len() implies well_formed(#[trigger] acc2[a]) by {
                if a < acc.len() {
                    assert(acc2[a] == acc[a]);
                }
            }
            if i < j < t.len() && t[j] == Tok::Comma {
                lemma_items_well_formed(t, j + 1, acc2);
            }
        },
        Err(_) => {},
    }
}

proof fn lemma_members_well_formed(t: Seq<Tok>, i: int, acc: Seq<(Seq<char>, Json)>)
    requires
        numbers_valid(t),
        keys_unique(acc),
        forall|a: int| 0 <= a < acc.len() ==> well_formed(#[trigger] acc[a].1),
    ensures
        parse_members_at(t, i, acc) is Ok ==> well_formed(parse_members_at(t, i, acc)->Ok_0.0),
    decreases t.len() - i, 1int,
{
    if 0 <= i && i + 1 < t.len() && t[i] is String && t[i + 1] == Tok::Colon {
        let k = t[i]->String_0;
        lemma_parse_well_formed(t, i + 2);
        match parse_value_at(t, i + 2) {
            Ok((v, j)) => {
                lemma_insert_well_formed(acc, k, v);
                if i < j < t.len() && t[j] == Tok::Comma {
                    lemma_members_well_formed(t, j + 1, insert_member(acc, k, v));
                }
            },
            Err(_) => {},
        }
    }
}

/// `ts` in front of the tokens of `r`, or the error of `r`.
pub open spec fn prepend(ts: Seq<Tok>, r: Result<Seq<Tok>, LexError>) -> Result<Seq<Tok>, LexError> {
    match r {
        Ok(x) => Ok(ts + x),
        Err(e) => Err(e),
    }
}

/// A number that ended right before position `j` of `s` ends there.
pub open spec fn boundary(s: Seq<char>, j: int) -> bool {
    j >= s.len() || !is_number_char(s[j])
}

proof fn lemma_prepend_prepend(a: Seq<Tok>, b: Seq<Tok>, r: Result<Seq<Tok>, LexError>)
    ensures
        prepend(a, prepend(b, r)) == prepend(a + b, r),
{
    match r {
        Ok(x) => {
            assert(a + (b + x) =~= (a + b) + x);
        },
        Err(_) => {},
    }
}

proof fn lemma_lex_one(s: Seq<char>, i: int, t: Tok, j: int)
    requires
        next_token(s, i) == Some(Ok::<(Tok, int), LexError>((t, j))),
        i < j <= s.len(),
    ensures
        lex_from(s, i) == prepend(seq![t], lex_from(s, j)),
{
}

proof fn lemma_number_chars(n: Seq<char>)
    ensures
        number_state(n) != 9 ==> (forall|k: int| 0 <= k < n.len() ==> is_number_char(#[trigger] n[k])),
        number_state(n) != 9 && n.len() > 0 ==> is_digit(n[0]) || n[0] == '-',
        valid_number(n) ==> n.len() > 0,
    decreases n.len(),
{
    if n.len() > 0 {
        let p = n.drop_last();
        lemma_number_chars(p);
        assert(number_step(9, n.last()) == 9);
        if number_state(n) != 9 {
            assert forall|k: int| 0 <= k < n.len() implies is_number_char(#[trigger] n[k]) by {
                if k < n.len() - 1 {
                    assert(n[k] == p[k]);
                }
            }
            if p.len() > 0 {
                assert(n[0] == p[0]);
            }
        }
    }
}

proof fn lemma_number_end(s: Seq<char>, a: int, b: int)
    requires
        0 <= a <= b <= s.len(),
        forall|k: int| a <= k < b ==> is_number_char(#[trigger] s[k]),
        boundary(s, b),
    ensures
        number_end(s, a) == b,
    decreases b - a,
{
    if a < b {
        lemma_number_end(s, a + 1, b);
    }
}

proof fn lemma_escape_concat(a: Seq<char>, b: Seq<char>)
    ensures
        escape(a + b) == escape(a) + escape(b),
    decreases b.len(),
{
    if b.len() == 0 {
        assert(a + b =~= a);
        assert(escape(a) + escape(b) =~= escape(a));
    } else {
        lemma_escape_concat(a, b.drop_last());
        assert((a + b).drop_last() =~= a + b.drop_last());
        assert(escape(a) + escape(b.drop_last()) + escape_char(b.last()) =~= escape(a) + (escape(
            b.drop_last(),
        ) + escape_char(b.last())));
    }
}

/// Lexing the escaped form of `c` from `p` on decodes its first `k` characters.
proof fn lemma_lex_escaped(s: Seq<char>, p: int, c: Seq<char>, k: int)
    requires
        0 <= k <= c.len(),
        holds_at(s, p, escape(c)),
    ensures
        lex_string_at(s, p, Seq::empty()) == lex_string_at(s, p + escape(c.take(k)).len(), c.take(k)),
    decreases k,
{
    if k == 0 {
        assert(c.take(0) =~= Seq::<char>::empty());
    } else {
        lemma_lex_escaped(s, p, c, k - 1);
        let pre = c.take(k - 1);
        let x = c[k - 1];
        assert(c.take(k).drop_last() =~= pre);
        assert(escape(c.take(k)) == escape(pre) + escape_char(x));
        assert(c =~= c.take(k) + c.skip(k));
        lemma_escape_concat(c.take(k), c.skip(k));
        lemma_holds_concat(s, p, escape(c.take(k)), escape(c.skip(k)));
        lemma_holds_concat(s, p, escape(pre), escape_char(x));
        let q = p + escape(pre).len();
        let e = escape_char(x);
        assert(s[q] == e[0]);
        if e.len() == 2 {
            assert(s[q + 1] == e[1]);
        }
        assert(pre.push(x) =~= c.take(k));
    }
}

proof fn lemma_lex_quoted(s: Seq<char>, i: int, c: Seq<char>)
    requires
        holds_at(s, i, quote(c)),
    ensures
        next_token(s, i) == Some(Ok::<(Tok, int), LexError>((Tok::String(c), i + quote(c).len()))),
{
    lemma_holds_concat(s, i, seq!['"'] + escape(c), seq!['"']);
    lemma_holds_concat(s, i, seq!['"'], escape(c));
    assert(seq!['"'][0] == '"');
    assert(s[i] == '"');
    lemma_lex_escaped(s, i + 1, c, c.len() as int);
    assert(c.take(c.len() as int) =~= c);
    assert(s[i + 1 + escape(c).len()] == '"');
}

/// Lexing the text of a well-formed value yields its tokens, and lexing goes
/// on after it.
proof fn lemma_lex_value(s: Seq<char>, i: int, v: Json)
    requires
        well_formed(v),
        holds_at(s, i, serialize_json(v)),
        boundary(s, i + serialize_json(v).len()),
    ensures
        lex_from(s, i) == prepend(tokens_of(v), lex_from(s, i + serialize_json(v).len())),
    decreases v, 0int,
{
    let x = serialize_json(v);
    let e = i + x.len();
    match v {
        Json::Null => {
            assert(s[i] == x[0]);
            assert(s.subrange(i + 1, i + 4) =~= seq!['u', 'l', 'l']);
            lemma_lex_one(s, i, Tok::LiteralNull, e);
        },
        Json::Bool(b) => {
            assert(s[i] == x[0]);
            if b {
                assert(s.subrange(i + 1, i + 4) =~= seq!['r', 'u', 'e']);
                lemma_lex_one(s, i, Tok::LiteralTrue, e);
            } else {
                assert(s.subrange(i + 1, i + 5) =~= seq!['a', 'l', 's', 'e']);
                lemma_lex_one(s, i, Tok::LiteralFalse, e);
            }
        },
        Json::Number(n) => {
            lemma_number_chars(n);
            assert(s[i] == n[0]);
            assert forall|k: int| i + 1 <= k < e implies is_number_char(#[trigger] s[k]) by {
                assert(s[i + (k - i)] == n[k - i]);
            }
            lemma_number_end(s, i + 1, e);
            assert(s.subrange(i, e) =~= n);
            lemma_lex_one(s, i, Tok::Number(n), e);
        },
        Json::String(c) => {
            lemma_lex_quoted(s, i, c);
            lemma_lex_one(s, i, Tok::String(c), e);
        },
        Json::Array(items) => {
            let body = serialize_items(items, items.len() as int);
            lemma_holds_concat(s, i, seq!['['] + body, seq![']']);
            lemma_holds_concat(s, i, seq!['['], body);
            assert(seq!['['][0] == '[');
            assert(seq![']'][0] == ']');
            assert(s[i] == '[');
            assert(s[i + 1 + body.len()] == ']');
            lemma_lex_one(s, i, Tok::OpenBracket, i + 1);
            lemma_lex_one(s, i + 1 + body.len(), Tok::CloseBracket, e);
            if items.len() == 0 {
                lemma_prepend_prepend(seq![Tok::OpenBracket], seq![Tok::CloseBracket], lex_from(s, e));
                assert(tokens_of(v) =~= seq![Tok::OpenBracket] + seq![Tok::CloseBracket]);
            } else {
                let bt = item_tokens(items, items.len() as int);
                lemma_lex_items(s, i + 1, items, items.len() as int);
                lemma_prepend_prepend(bt, seq![Tok::CloseBracket], lex_from(s, e));
                lemma_prepend_prepend(seq![Tok::OpenBracket], bt + seq![Tok::CloseBracket], lex_from(s, e));
                assert(tokens_of(v) =~= seq![Tok::OpenBracket] + (bt + seq![Tok::CloseBracket]));
            }
        },
        Json::Object(m) => {
            let body = serialize_members(m, m.len() as int);
            lemma_holds_concat(s, i, seq!['{'] + body, seq!['}']);
            lemma_holds_concat(s, i, seq!['{'], body);
            assert(seq!['{'][0] == '{');
            assert(seq!['}'][0] == '}');
            assert(s[i] == '{');
            assert(s[i + 1 + body.len()] == '}');
            lemma_lex_one(s, i, Tok::OpenBrace, i + 1);
            lemma_lex_one(s, i + 1 + body.len(), Tok::CloseBrace, e);
            if m.len() == 0 {
                lemma_prepend_prepend(seq![Tok::OpenBrace], seq![Tok::CloseBrace], lex_from(s, e));
                assert(tokens_of(v) =~= seq![Tok::OpenBrace] + seq![Tok::CloseBrace]);
            } else {
                let bt = member_tokens(m, m.len() as int);
                lemma_lex_members(s, i + 1, m, m.len() as int);
                lemma_prepend_prepend(bt, seq![Tok::CloseBrace], lex_from(s, e));
                lemma_prepend_prepend(seq![Tok::OpenBrace], bt + seq![Tok::CloseBrace], lex_from(s, e));
                assert(tokens_of(v) =~= seq![Tok::OpenBrace] + (bt + seq![Tok::CloseBrace]));
            }
        },
    }
}

proof fn lemma_lex_items(s: Seq<char>, i: int, items: Seq<Json>, n: int)
    requires
        0 < n <= items.len(),
        forall|k: int| 0 <= k < items.len() ==> well_formed(#[trigger] items[k]),
        holds_at(s, i, serialize_items(items, n)),
        boundary(s, i + serialize_items(items, n).len()),
    ensures
        lex_from(s, i) == prepend(item_tokens(items, n), lex_from(s, i + serialize_items(items, n).len())),
    decreases items, n,
{
    if n == 1 {
        lemma_lex_value(s, i, items[0]);
    } else {
        let prev = serialize_items(items, n - 1);
        let last = serialize_json(items[n - 1]);
        lemma_holds_concat(s, i, prev + seq![','], last);
        lemma_holds_concat(s, i, prev, seq![',']);
        assert(seq![','][0] == ',');
        let c = i + prev.len();
        assert(s[c] == ',');
        lemma_lex_items(s, i, items, n - 1);
        lemma_lex_one(s, c, Tok::Comma, c + 1);
        lemma_lex_value(s, c + 1, items[n - 1]);
        let end = c + 1 + last.len();
        lemma_prepend_prepend(seq![Tok::Comma], tokens_of(items[n - 1]), lex_from(s, end));
        lemma_prepend_prepend(
            item_tokens(items, n - 1),
            seq![Tok::Comma] + tokens_of(items[n - 1]),
            lex_from(s, end),
        );
        assert(item_tokens(items, n - 1) + (seq![Tok::Comma] + tokens_of(items[n - 1])) =~= item_tokens(
            items,
            n,
        ));
    }
}

proof fn lemma_lex_members(s: Seq<char>, i: int, m: Seq<(Seq<char>, Json)>, n: int)
    requires
        0 < n <= m.len(),
        forall|k: int| 0 <= k < m.len() ==> well_formed(#[trigger] m[k].1),
        holds_at(s, i, serialize_members(m, n)),
        boundary(s, i + serialize_members(m, n).len()),
    ensures
        lex_from(s, i) == prepend(member_tokens(m, n), lex_from(s, i + serialize_members(m, n).len())),
    decreases m, n,
{
    let key = m[n - 1].0;
    let val = m[n - 1].1;
    let member = quote(key) + seq![':'] + serialize_json(val);
    let p = if n == 1 {
        i
    } else {
        i + serialize_members(m, n - 1).len() + 1
    };
    if n > 1 {
        let prev = serialize_members(m, n - 1);
        lemma_holds_concat(s, i, prev + seq![','], member);
        lemma_holds_concat(s, i, prev, seq![',']);
        assert(seq![','][0] == ',');
        assert(s[i + prev.len()] == ',');
        lemma_lex_members(s, i, m, n - 1);
        lemma_lex_one(s, i + prev.len(), Tok::Comma, p);
    }
    assert(holds_at(s, p, member));
    lemma_holds_concat(s, p, quote(key) + seq![':'], serialize_json(val));
    lemma_holds_concat(s, p, quote(key), seq![':']);
    let colon = p + quote(key).len();
    let end = colon + 1 + serialize_json(val).len();
    assert(seq![':'][0] == ':');
    assert(s[colon] == ':');
    lemma_lex_quoted(s, p, key);
    lemma_lex_one(s, p, Tok::String(key), colon);
    lemma_lex_one(s, colon, Tok::Colon, colon + 1);
    lemma_lex_value(s, colon + 1, val);
    let mt = seq![Tok::String(key), Tok::Colon] + tokens_of(val);
    lemma_prepend_prepend(seq![Tok::Colon], tokens_of(val), lex_from(s, end));
    lemma_prepend_prepend(seq![Tok::String(key)], seq![Tok::Colon] + tokens_of(val), lex_from(s, end));
    assert(seq![Tok::String(key)] + (seq![Tok::Colon] + tokens_of(val)) =~= mt);
    if n > 1 {
        lemma_prepend_prepend(seq![Tok::Comma], mt, lex_from(s, end));
        lemma_prepend_prepend(member_tokens(m, n - 1), seq![Tok::Comma] + mt, lex_from(s, end));
        assert(member_tokens(m, n - 1) + (seq![Tok::Comma] + mt) =~= member_tokens(m, n));
    }
}

/// Every document that parses is well formed: its objects have unique keys
/// and its numbers follow the JSON grammar.
pub proof fn lemma_parsed_well_formed(d: Seq<char>)
    requires
        parse_text(d) is Ok,
    ensures
        well_formed(parse_text(d)->Ok_0),
{
    lemma_lex_numbers_valid(d, 0);
    lemma_parse_well_formed(lex(d)->Ok_0, 0);
}

/// A document that parses is read back from its serialization as the same
/// value: parsing, serializing and parsing again gives what the first parse gave.
pub proof fn lemma_round_trip(d: Seq<char>)
    requires
        parse_text(d) is Ok,
    ensures
        parse_text(serialize_json(parse_text(d)->Ok_0)) == parse_text(d),
{
    lemma_parsed_well_formed(d);
    let v = parse_text(d)->Ok_0;
    let x = serialize_json(v);
    assert forall|k: int| 0 <= k < x.len() implies x[0 + k] == #[trigger] x[k] by {}
    lemma_lex_value(x, 0, v);
    assert(lex_from(x, x.len() as int) == Ok::<Seq<Tok>, LexError>(Seq::empty()));
    assert(tokens_of(v) + Seq::<Tok>::empty() =~= tokens_of(v));
    let tv = tokens_of(v);
    assert forall|k: int| 0 <= k < tv.len() implies tv[0 + k] == #[trigger] tv[k] by {}
    lemma_parse_tokens_of(tv, 0, v);
}

/// Serialization depends on the value alone: the same value always gives the
/// same text.
pub proof fn lemma_serialize_deterministic(a: Json, b: Json)
    requires
        a == b,
    ensures
        serialize_json(a) == serialize_json(b),
{
}

} // verus!
