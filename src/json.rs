use vstd::prelude::*;
use vstd::string::*;
use crate::token::push_char;

verus! {

/// The mathematical model of a JSON document.
pub enum Json {
    Null,
    Bool(bool),
    /// The decimal literal of the number, as written.
    Number(Seq<char>),
    String(Seq<char>),
    Array(Seq<Json>),
    /// Members in order; keys are unique in a well-formed object.
    Object(Seq<(Seq<char>, Json)>),
}

/// A parsed JSON document.
#[derive(Debug, PartialEq)]
pub enum JsonValue {
    Null,
    Bool(bool),
    /// A number, kept as its decimal literal so that no precision is lost.
    Number(String),
    String(String),
    Array(Vec<JsonValue>),
    /// Members in order of first appearance; keys are unique.
    Object(Vec<(String, JsonValue)>),
}

/// The models of the first `n` elements of `s`.
pub open spec fn items_view(s: Seq<JsonValue>, n: int) -> Seq<Json>
    decreases s, n,
{
    if 0 < n <= s.len() {
        items_view(s, n - 1).push(s[n - 1].view())
    } else {
        Seq::empty()
    }
}

/// The models of the first `n` members of `s`.
pub open spec fn members_view(s: Seq<(String, JsonValue)>, n: int) -> Seq<(Seq<char>, Json)>
    decreases s, n,
{
    if 0 < n <= s.len() {
        members_view(s, n - 1).push((s[n - 1].0@, s[n - 1].1.view()))
    } else {
        Seq::empty()
    }
}

/// The element models, one by one.
pub proof fn lemma_items_view(s: Seq<JsonValue>, n: int)
    requires
        0 <= n <= s.len(),
    ensures
        items_view(s, n).len() == n,
        forall|k: int| 0 <= k < n ==> #[trigger] items_view(s, n)[k] == s[k].view(),
    decreases n,
{
    if n > 0 {
        lemma_items_view(s, n - 1);
    }
}

/// The member models, one by one.
pub proof fn lemma_members_view(s: Seq<(String, JsonValue)>, n: int)
    requires
        0 <= n <= s.len(),
    ensures
        members_view(s, n).len() == n,
        forall|k: int| 0 <= k < n ==> #[trigger] members_view(s, n)[k] == (s[k].0@, s[k].1.view()),
    decreases n,
{
    if n > 0 {
        lemma_members_view(s, n - 1);
    }
}

/// Pushing an element pushes its model.
pub proof fn lemma_items_push(s: Seq<JsonValue>, x: JsonValue)
    ensures
        items_view(s.push(x), (s.len() + 1) as int) == items_view(s, s.len() as int).push(x.view()),
{
    lemma_items_view(s, s.len() as int);
    lemma_items_view(s.push(x), (s.len() + 1) as int);
    assert(items_view(s.push(x), (s.len() + 1) as int) =~= items_view(s, s.len() as int).push(x.view()));
}

/// Pushing a member pushes its model.
pub proof fn lemma_members_push(s: Seq<(String, JsonValue)>, x: (String, JsonValue))
    ensures
        members_view(s.push(x), (s.len() + 1) as int) == members_view(s, s.len() as int).push((x.0@, x.1.view())),
{
    lemma_members_view(s, s.len() as int);
    lemma_members_view(s.push(x), (s.len() + 1) as int);
    assert(members_view(s.push(x), (s.len() + 1) as int) =~= members_view(s, s.len() as int).push(
        (x.0@, x.1.view()),
    ));
}

/// Replacing a member replaces its model.
pub proof fn lemma_members_update(s: Seq<(String, JsonValue)>, i: int, x: (String, JsonValue))
    requires
        0 <= i < s.len(),
    ensures
        members_view(s.update(i, x), s.len() as int) == members_view(s, s.len() as int).update(
            i,
            (x.0@, x.1.view()),
        ),
{
    lemma_members_view(s, s.len() as int);
    lemma_members_view(s.update(i, x), s.len() as int);
    assert(members_view(s.update(i, x), s.len() as int) =~= members_view(s, s.len() as int).update(
        i,
        (x.0@, x.1.view()),
    ));
}

impl JsonValue {
    pub open spec fn view(&self) -> Json
        decreases self, 0int,
    {
        match self {
            JsonValue::Null => Json::Null,
            JsonValue::Bool(b) => Json::Bool(*b),
            JsonValue::Number(n) => Json::Number(n@),
            JsonValue::String(s) => Json::String(s@),
            JsonValue::Array(v) => Json::Array(items_view(v@, v@.len() as int)),
            JsonValue::Object(m) => Json::Object(members_view(m@, m@.len() as int)),
        }
    }
}

/// The escape sequence that stands for `c` inside a string literal, or `c`
/// itself where it needs none.
pub open spec fn escape_char(c: char) -> Seq<char> {
    if c == '"' {
        seq!['\\', '"']
    } else if c == '\\' {
        seq!['\\', '\\']
    } else if c == '\x08' {
        seq!['\\', 'b']
    } else if c == '\x0C' {
        seq!['\\', 'f']
    } else if c == '\n' {
        seq!['\\', 'n']
    } else if c == '\r' {
        seq!['\\', 'r']
    } else if c == '\t' {
        seq!['\\', 't']
    } else {
        seq![c]
    }
}

/// The characters of `s`, each escaped where it needs to be.
pub open spec fn escape(s: Seq<char>) -> Seq<char>
    decreases s.len(),
{
    if s.len() == 0 {
        Seq::empty()
    } else {
        escape(s.drop_last()) + escape_char(s.last())
    }
}

/// `s` as a JSON string literal.
pub open spec fn quote(s: Seq<char>) -> Seq<char> {
    seq!['"'] + escape(s) + seq!['"']
}

/// The JSON text of `v`: no whitespace, members and elements in order.
pub open spec fn serialize_json(v: Json) -> Seq<char>
    decreases v, 0int,
{
    match v {
        Json::Null => seq!['n', 'u', 'l', 'l'],
        Json::Bool(b) => if b {
            seq!['t', 'r', 'u', 'e']
        } else {
            seq!['f', 'a', 'l', 's', 'e']
        },
        Json::Number(n) => n,
        Json::String(s) => quote(s),
        Json::Array(s) => seq!['['] + serialize_items(s, s.len() as int) + seq![']'],
        Json::Object(m) => seq!['{'] + serialize_members(m, m.len() as int) + seq!['}'],
    }
}

/// The first `n` elements of `s`, separated by commas.
pub open spec fn serialize_items(s: Seq<Json>, n: int) -> Seq<char>
    decreases s, n,
{
    if 0 < n <= s.len() {
        if n == 1 {
            serialize_json(s[0])
        } else {
            serialize_items(s, n - 1) + seq![','] + serialize_json(s[n - 1])
        }
    } else {
        Seq::empty()
    }
}

/// The first `n` members of `m` as `"key":value`, separated by commas.
pub open spec fn serialize_members(m: Seq<(Seq<char>, Json)>, n: int) -> Seq<char>
    decreases m, n,
{
    if 0 < n <= m.len() {
        let member = quote(m[n - 1].0) + seq![':'] + serialize_json(m[n - 1].1);
        if n == 1 {
            member
        } else {
            serialize_members(m, n - 1) + seq![','] + member
        }
    } else {
        Seq::empty()
    }
}

/// Appends `s` to `out` as a JSON string literal.
fn write_quoted(s: &String, out: &mut String)
    ensures
        final(out)@ == old(out)@ + quote(s@),
{
    let ghost init = out@;
    push_char(out, '"');
    let ghost text = s@;
    for c in it: s.as_str().chars()
        invariant
            text == s@,
            it.index() <= text.len(),
            it.seq() == text,
            out@ == init + seq!['"'] + escape(text.subrange(0, it.index() as int)),
    {
        let ghost i = it.index();
        if c == '"' {
            push_char(out, '\\');
            push_char(out, '"');
        } else if c == '\\' {
            push_char(out, '\\');
            push_char(out, '\\');
        } else if c == '\x08' {
            push_char(out, '\\');
            push_char(out, 'b');
        } else if c == '\x0C' {
            push_char(out, '\\');
            push_char(out, 'f');
        } else if c == '\n' {
            push_char(out, '\\');
            push_char(out, 'n');
        } else if c == '\r' {
            push_char(out, '\\');
            push_char(out, 'r');
        } else if c == '\t' {
            push_char(out, '\\');
            push_char(out, 't');
        } else {
            push_char(out, c);
        }
        proof {
            assert(c == text[i as int]);
            assert(text.subrange(0, i + 1).drop_last() =~= text.subrange(0, i as int));
            assert(out@ =~= init + seq!['"'] + escape(text.subrange(0, i + 1)));
        }
    }
    assert(text.subrange(0, text.len() as int) =~= text);
    push_char(out, '"');
    assert(out@ =~= init + quote(s@));
}

impl JsonValue {
    /// Appends the JSON text of the value to `out`.
    pub fn write_to(&self, out: &mut String)
        ensures
            final(out)@ == old(out)@ + serialize_json(self@),
        decreases self,
    {
        match self {
            JsonValue::Null => {
                proof {
                    reveal_strlit("null");
                }
                out.append("null");
            },
            JsonValue::Bool(b) => {
                if *b {
                    proof {
                        reveal_strlit("true");
                    }
                    out.append("true");
                } else {
                    proof {
                        reveal_strlit("false");
                    }
                    out.append("false");
                }
            },
            JsonValue::Number(n) => {
                out.append(n.as_str());
            },
            JsonValue::String(s) => {
                write_quoted(s, out);
            },
            JsonValue::Array(items) => {
                let ghost init = out@;
                let ghost sv = items_view(items@, items@.len() as int);
                proof {
                    lemma_items_view(items@, items@.len() as int);
                }
                push_char(out, '[');
                let mut k: usize = 0;
                while k < items.len()
                    invariant
                        k <= items@.len(),
                        *self == JsonValue::Array(*items),
                        sv == items_view(items@, items@.len() as int),
                        sv.len() == items@.len(),
                        forall|x: int| 0 <= x < items@.len() ==> #[trigger] sv[x] == items@[x]@,
                        out@ == init + seq!['['] + serialize_items(sv, k as int),
                    decreases items@.len() - k,
                {
                    let ghost before = out@;
                    if k > 0 {
                        push_char(out, ',');
                    }
                    proof {
                        vstd::std_specs::vec::axiom_vec_index_decreases(*items, k as int);
                        assert(decreases_to!(*self => self->Array_0));
                        assert(decreases_to!(*self => items[k as int]));
                    }
                    items[k].write_to(out);
                    proof {
                        assert(out@ =~= init + seq!['['] + serialize_items(sv, k + 1));
                    }
                    k = k + 1;
                }
                push_char(out, ']');
            },
            JsonValue::Object(members) => {
                let ghost init = out@;
                let ghost mv = members_view(members@, members@.len() as int);
                proof {
                    lemma_members_view(members@, members@.len() as int);
                }
                push_char(out, '{');
                let mut k: usize = 0;
                while k < members.len()
                    invariant
                        k <= members@.len(),
                        *self == JsonValue::Object(*members),
                        mv == members_view(members@, members@.len() as int),
                        mv.len() == members@.len(),
                        forall|x: int| 0 <= x < members@.len() ==> #[trigger] mv[x] == (members@[x].0@, members@[x].1@),
                        out@ == init + seq!['{'] + serialize_members(mv, k as int),
                    decreases members@.len() - k,
                {
                    if k > 0 {
                        push_char(out, ',');
                    }
                    write_quoted(&members[k].0, out);
                    push_char(out, ':');
                    proof {
                        vstd::std_specs::vec::axiom_vec_index_decreases(*members, k as int);
                        assert(decreases_to!(*self => self->Object_0));
                        assert(decreases_to!(members[k as int] => members[k as int].1));
                        assert(decreases_to!(*self => members[k as int].1));
                    }
                    members[k].1.write_to(out);
                    proof {
                        assert(out@ =~= init + seq!['{'] + serialize_members(mv, k + 1));
                    }
                    k = k + 1;
                }
                push_char(out, '}');
            },
        }
    }

    /// The JSON text of the value.
    pub fn to_string(&self) -> (r: String)
        ensures
            r@ == serialize_json(self@),
    {
        let mut out = String::new();
        self.write_to(&mut out);
        assert(out@ =~= serialize_json(self@));
        out
    }
}

} // verus!
