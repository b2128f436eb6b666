//! JSON values as the library holds them: numbers by their text, objects as ordered pairs.
use crate::text::{
    decimal, hex_char, hex_digit, law_decimal_round_trip, owned, parse_u64, push_text, read_u64, str_eq,
    to_chars, to_decimal,
};
use vstd::prelude::*;
use vstd::utf8::encode_utf8;

verus! {

/// A JSON value.
#[derive(Debug)]
pub enum Json {
    Null,
    Bool(bool),
    /// The text of the number.
    Number(String),
    Text(String),
    Array(Vec<Json>),
    /// The members in the order in which they stand.
    Object(Vec<(String, Json)>),
}

/// What a JSON value is.
pub enum JsonView {
    Null,
    Bool(bool),
    Number(Seq<char>),
    Text(Seq<char>),
    Array(Seq<JsonView>),
    Object(Seq<MemberView>),
}

/// A member of an object: its key and its value.
pub struct MemberView {
    pub key: Seq<char>,
    pub value: JsonView,
}

impl View for Json {
    type V = JsonView;

    open spec fn view(&self) -> JsonView
        decreases self,
    {
        match self {
            Json::Null => JsonView::Null,
            Json::Bool(b) => JsonView::Bool(*b),
            Json::Number(n) => JsonView::Number(n@),
            Json::Text(s) => JsonView::Text(s@),
            Json::Array(a) => JsonView::Array(
                Seq::new(
                    a@.len(),
                    |i: int| if 0 <= i < a@.len() { a@[i].view() } else { JsonView::Null },
                ),
            ),
            Json::Object(m) => JsonView::Object(
                Seq::new(
                    m@.len(),
                    |i: int|
                        if 0 <= i < m@.len() {
                            MemberView { key: m@[i].0@, value: m@[i].1.view() }
                        } else {
                            MemberView { key: Seq::empty(), value: JsonView::Null }
                        },
                ),
            ),
        }
    }
}

/// How a character stands inside a JSON string.
pub open spec fn escaped(c: char) -> Seq<char> {
    if c == '"' {
        seq!['\\', '"']
    } else if c == '\\' {
        seq!['\\', '\\']
    } else if c == '\n' {
        seq!['\\', 'n']
    } else if c == '\r' {
        seq!['\\', 'r']
    } else if c == '\t' {
        seq!['\\', 't']
    } else if c == '\u{8}' {
        seq!['\\', 'b']
    } else if c == '\u{c}' {
        seq!['\\', 'f']
    } else if (c as int) < 32 {
        seq!['\\', 'u', '0', '0', hex_char(c as int / 16), hex_char(c as int % 16)]
    } else {
        seq![c]
    }
}

/// The characters of a string, escaped.
pub open spec fn escaped_text(s: Seq<char>) -> Seq<char>
    decreases s.len(),
{
    if s.len() == 0 {
        Seq::empty()
    } else {
        escaped_text(s.drop_last()) + escaped(s.last())
    }
}

/// A string as JSON text.
pub open spec fn quoted(s: Seq<char>) -> Seq<char> {
    seq!['"'] + escaped_text(s) + seq!['"']
}

/// The text of a value, with the given text between items and between a key and its value.
pub open spec fn json_text(v: JsonView, item: Seq<char>, colon: Seq<char>) -> Seq<char>
    decreases v, 0nat,
{
    match v {
        JsonView::Null => seq!['n', 'u', 'l', 'l'],
        JsonView::Bool(b) => if b {
            seq!['t', 'r', 'u', 'e']
        } else {
            seq!['f', 'a', 'l', 's', 'e']
        },
        JsonView::Number(n) => n,
        JsonView::Text(s) => quoted(s),
        JsonView::Array(a) => seq!['['] + items_text(a, a.len(), item, colon) + seq![']'],
        JsonView::Object(m) => seq!['{'] + members_text(m, m.len(), item, colon) + seq!['}'],
    }
}

/// The first `n` items of an array.
pub open spec fn items_text(a: Seq<JsonView>, n: nat, item: Seq<char>, colon: Seq<char>) -> Seq<char>
    decreases a, n,
{
    if n == 0 || n > a.len() {
        Seq::empty()
    } else {
        items_text(a, (n - 1) as nat, item, colon) + (if n > 1 {
            item
        } else {
            Seq::empty()
        }) + json_text(a[n - 1], item, colon)
    }
}

/// The first `n` members of an object.
pub open spec fn members_text(
    m: Seq<MemberView>,
    n: nat,
    item: Seq<char>,
    colon: Seq<char>,
) -> Seq<char>
    decreases m, n,
{
    if n == 0 || n > m.len() {
        Seq::empty()
    } else {
        members_text(m, (n - 1) as nat, item, colon) + (if n > 1 {
            item
        } else {
            Seq::empty()
        }) + quoted(m[n - 1].key) + colon + json_text(m[n - 1].value, item, colon)
    }
}

/// The text without spaces: `,` between items, `:` after a key.
pub open spec fn compact(v: JsonView) -> Seq<char> {
    json_text(v, seq![','], seq![':'])
}

/// Append a character as it stands inside a JSON string.
fn push_escaped(out: &mut String, c: char)
    ensures
        final(out)@ == old(out)@ + escaped(c),
{
    if c == '"' {
        out.push('\\');
        out.push('"');
    } else if c == '\\' {
        out.push('\\');
        out.push('\\');
    } else if c == '\n' {
        out.push('\\');
        out.push('n');
    } else if c == '\r' {
        out.push('\\');
        out.push('r');
    } else if c == '\t' {
        out.push('\\');
        out.push('t');
    } else if c == '\u{8}' {
        out.push('\\');
        out.push('b');
    } else if c == '\u{c}' {
        out.push('\\');
        out.push('f');
    } else if (c as u32) < 32 {
        out.push('\\');
        out.push('u');
        out.push('0');
        out.push('0');
        out.push(hex_digit(((c as u32) / 16) as u8));
        out.push(hex_digit(((c as u32) % 16) as u8));
    } else {
        out.push(c);
    }
    assert(out@ =~= old(out)@ + escaped(c));
}

/// Append a string as JSON text.
pub fn push_quoted(s: &str, out: &mut String)
    ensures
        final(out)@ == old(out)@ + quoted(s@),
{
    out.push('"');
    let ghost start = out@;
    for c in it: s.chars()
        invariant
            it.seq() == s@,
            out@ == start + escaped_text(s@.subrange(0, it.index() as int)),
    {
        push_escaped(out, c);
        proof {
            let k = it.index() as int;
            assert(s@.subrange(0, k + 1).drop_last() =~= s@.subrange(0, k));
            assert(out@ =~= start + escaped_text(s@.subrange(0, k + 1)));
        }
    }
    assert(s@.subrange(0, s@.len() as int) =~= s@);
    out.push('"');
    assert(out@ =~= old(out)@ + quoted(s@));
}

/// Append a member: its key, the colon, its value.
fn push_member(m: &(String, Json), item: &str, colon: &str, out: &mut String)
    ensures
        final(out)@ == old(out)@ + quoted(m.0@) + colon@ + json_text(m.1@, item@, colon@),
    decreases m,
{
    push_quoted(m.0.as_str(), out);
    push_text(out, colon);
    push_json(&m.1, item, colon, out);
}

/// Append the text of a value.
pub fn push_json(v: &Json, item: &str, colon: &str, out: &mut String)
    ensures
        final(out)@ == old(out)@ + json_text(v@, item@, colon@),
    decreases v,
{
    match v {
        Json::Null => {
            out.push('n');
            out.push('u');
            out.push('l');
            out.push('l');
        },
        Json::Bool(b) => {
            if *b {
                out.push('t');
                out.push('r');
                out.push('u');
                out.push('e');
            } else {
                out.push('f');
                out.push('a');
                out.push('l');
                out.push('s');
                out.push('e');
            }
        },
        Json::Number(n) => {
            push_text(out, n.as_str());
        },
        Json::Text(s) => {
            push_quoted(s.as_str(), out);
        },
        Json::Array(a) => {
            out.push('[');
            let ghost start = out@;
            let ghost view = v@->Array_0;
            let n: usize = a.len();
            let mut i: usize = 0;
            while i < n
                invariant
                    i <= n,
                    n == a@.len(),
                    v == Json::Array(*a),
                    view == v@->Array_0,
                    out@ == start + items_text(view, i as nat, item@, colon@),
                decreases n - i,
            {
                if i > 0 {
                    push_text(out, item);
                }
                assert(decreases_to!(v => a@[i as int]));
                push_json(&a[i], item, colon, out);
                assert(view[i as int] == a@[i as int]@);
                assert(out@ =~= start + items_text(view, (i + 1) as nat, item@, colon@));
                i = i + 1;
            }
            out.push(']');
        },
        Json::Object(m) => {
            out.push('{');
            let ghost start = out@;
            let ghost view = v@->Object_0;
            assert(v@ is Object);
            let n: usize = m.len();
            let mut i: usize = 0;
            while i < n
                invariant
                    i <= n,
                    n == m@.len(),
                    v == Json::Object(*m),
                    view.len() == n,
                    forall|j: int| 0 <= j < n ==> view[j] == (MemberView { key: m@[j].0@, value: m@[j].1@ }),
                    out@ == start + members_text(view, i as nat, item@, colon@),
                decreases n - i,
            {
                if i > 0 {
                    push_text(out, item);
                }
                assert(decreases_to!(v => v->Object_0));
                assert(decreases_to!(v->Object_0 => v->Object_0@));
                assert(decreases_to!(v->Object_0@ => v->Object_0@[i as int]));
                push_member(&m[i], item, colon, out);
                assert(out@ =~= start + members_text(view, (i + 1) as nat, item@, colon@));
                i = i + 1;
            }
            out.push('}');
        },
    }
    assert(out@ =~= old(out)@ + json_text(v@, item@, colon@));
}

/// The value of the first member with that key.
pub open spec fn member(m: Seq<MemberView>, key: Seq<char>) -> Option<JsonView>
    decreases m.len(),
{
    if m.len() == 0 {
        None
    } else if m[0].key == key {
        Some(m[0].value)
    } else {
        member(m.subrange(1, m.len() as int), key)
    }
}

impl JsonView {
    /// The member of that key, where the value is an object that has one.
    pub open spec fn at(self, key: Seq<char>) -> Option<JsonView> {
        match self {
            JsonView::Object(m) => member(m, key),
            _ => None,
        }
    }

    /// Field number `i` of a record of `n` fields: the member of that key, or the item in its place
    /// where the record is written as the list of all its fields.
    pub open spec fn field(self, n: int, i: int, key: Seq<char>) -> Option<JsonView> {
        match self {
            JsonView::Array(a) => if a.len() == n { Some(a[i]) } else { None },
            _ => self.at(key),
        }
    }

    /// The name of a choice: a string, or an object that has nothing but null under it.
    pub open spec fn choice(self) -> Option<Seq<char>> {
        match self {
            JsonView::Text(s) => Some(s),
            JsonView::Object(m) => if m.len() == 1 && m[0].value is Null {
                Some(m[0].key)
            } else {
                None
            },
            _ => None,
        }
    }

    /// The number, where the value is a non-negative integer of at most 64 bits.
    pub open spec fn number(self) -> Option<u64> {
        match self {
            JsonView::Number(n) => parse_u64(n),
            _ => None,
        }
    }

    /// The text, where the value is a string.
    pub open spec fn text(self) -> Option<Seq<char>> {
        match self {
            JsonView::Text(s) => Some(s),
            _ => None,
        }
    }
}

impl Json {
    /// The member of that key, where the value is an object that has one.
    pub fn get(&self, key: &str) -> (r: Option<&Json>)
        ensures
            match self@.at(key@) {
                Some(v) => r matches Some(j) && j@ == v,
                None => r is None,
            },
    {
        match self {
            Json::Object(m) => {
                let ghost view = self@->Object_0;
                let n: usize = m.len();
                let mut i: usize = 0;
                assert(view.subrange(0, n as int) =~= view);
                while i < n
                    invariant
                        i <= n,
                        n == m@.len(),
                        view.len() == n,
                        forall|j: int|
                            0 <= j < n ==> view[j] == (MemberView {
                                key: m@[j].0@,
                                value: m@[j].1@,
                            }),
                        self@ == JsonView::Object(view),
                        member(view, key@) == member(view.subrange(i as int, n as int), key@),
                    decreases n - i,
                {
                    let ghost rest = view.subrange(i as int, n as int);
                    if str_eq(m[i].0.as_str(), key) {
                        return Some(&m[i].1);
                    }
                    assert(rest.subrange(1, rest.len() as int) =~= view.subrange(i + 1, n as int));
                    i = i + 1;
                }
                None
            },
            _ => None,
        }
    }

    /// Field number `i` of a record of `n` fields: the member of that key, or the item in its place
    /// where the record is written as the list of all its fields.
    pub fn field(&self, n: usize, i: usize, key: &str) -> (r: Option<&Json>)
        requires
            i < n,
        ensures
            match self@.field(n as int, i as int, key@) {
                Some(v) => r matches Some(j) && j@ == v,
                None => r is None,
            },
    {
        match self {
            Json::Array(a) => {
                proof {
                    lemma_array_view(*a);
                }
                if a.len() == n { Some(&a[i]) } else { None }
            },
            _ => self.get(key),
        }
    }

    /// The name of a choice: a string, or an object that has nothing but null under it.
    pub fn choice(&self) -> (r: Option<&str>)
        ensures
            match self@.choice() {
                Some(s) => r matches Some(t) && t@ == s,
                None => r is None,
            },
    {
        match self {
            Json::Text(s) => Some(s.as_str()),
            Json::Object(m) => {
                proof {
                    lemma_object_view(*m);
                }
                if m.len() != 1 {
                    return None;
                }
                assert(members_view(m@)[0].value == m@[0].1@);
                match m[0].1 {
                    Json::Null => Some(m[0].0.as_str()),
                    _ => None,
                }
            },
            _ => None,
        }
    }

    /// The number, where the value is a non-negative integer of at most 64 bits.
    pub fn as_u64(&self) -> (r: Option<u64>)
        ensures
            r == self@.number(),
    {
        match self {
            Json::Number(n) => {
                let c = to_chars(n.as_str());
                read_u64(c.as_slice())
            },
            _ => None,
        }
    }

    /// The text, where the value is a string.
    pub fn as_str(&self) -> (r: Option<&str>)
        ensures
            match self@.text() {
                Some(s) => r matches Some(t) && t@ == s,
                None => r is None,
            },
    {
        match self {
            Json::Text(s) => Some(s.as_str()),
            _ => None,
        }
    }
}

/// A value that its own compact text determines: integers only, no key twice in an object, and
/// no more than `depth` levels of arrays and objects.
pub open spec fn plain(v: JsonView, depth: nat) -> bool
    decreases depth,
{
    match v {
        JsonView::Null => true,
        JsonView::Bool(_) => true,
        JsonView::Number(n) => exists|k: u64| n == #[trigger] decimal(k as nat),
        JsonView::Text(_) => true,
        JsonView::Array(a) => depth > 0 && forall|i: int|
            0 <= i < a.len() ==> plain(#[trigger] a[i], (depth - 1) as nat),
        JsonView::Object(m) => depth > 0 && (forall|i: int|
            0 <= i < m.len() ==> plain((#[trigger] m[i]).value, (depth - 1) as nat)) && (forall|
            i: int,
            j: int,
        |
            0 <= i < j < m.len() ==> (#[trigger] m[i]).key != (#[trigger] m[j]).key),
    }
}

/// What `serde_json` makes of a JSON text in UTF-8 bytes: the value, or the message of its error.
pub uninterp spec fn parse_result(bytes: Seq<u8>) -> Result<JsonView, Seq<char>>;

/// The value that a JSON text in UTF-8 bytes denotes; none where the bytes are not JSON.
pub open spec fn parsed(bytes: Seq<u8>) -> Option<JsonView> {
    match parse_result(bytes) {
        Ok(v) => Some(v),
        Err(_) => None,
    }
}

/// A parse result, by the views of what it holds.
pub open spec fn result_view(r: Result<Json, String>) -> Result<JsonView, Seq<char>> {
    match r {
        Ok(j) => Ok(j@),
        Err(e) => Err(e@),
    }
}

/// The value inside an option, by its view.
pub open spec fn view_of(r: Option<Json>) -> Option<JsonView> {
    match r {
        Some(j) => Some(j@),
        None => None,
    }
}

/// Where the bytes are the compact text of a plain value, `r` is that value.
pub open spec fn reads_back(bytes: Seq<u8>, r: Option<JsonView>) -> bool {
    forall|v: JsonView|
        plain(v, 100) && bytes == encode_utf8(#[trigger] compact(v)) ==> r == Some(v)
}

/// The value of a successful parse.
pub open spec fn ok_value(r: Result<JsonView, Seq<char>>) -> Option<JsonView> {
    match r {
        Ok(v) => Some(v),
        Err(_) => None,
    }
}

#[verifier::external_type_specification]
#[verifier::external_body]
pub struct ExValue(serde_json::Value);

/// Rebuilds a `serde_json::Value` as a value of this module, variant by variant: numbers by
/// their text, members in the map's own order.
#[verifier::external_body]
fn from_value(v: serde_json::Value) -> Json {
    match v {
        serde_json::Value::Null => Json::Null,
        serde_json::Value::Bool(b) => Json::Bool(b),
        serde_json::Value::Number(n) => Json::Number(n.to_string()),
        serde_json::Value::String(s) => Json::Text(s),
        serde_json::Value::Array(a) => Json::Array(a.into_iter().map(from_value).collect()),
        serde_json::Value::Object(m) => Json::Object(m.into_iter().map(|(k, x)| (k, from_value(x))).collect()),
    }
}

/// `serde_json::from_slice` into a `serde_json::Value`: a function of the bytes alone, with the
/// text of the error where the bytes are not one JSON text. The text that `compact` gives of a
/// value without fractions, repeated keys or deep nesting is read back as that value.
#[verifier::external_body]
pub(crate) fn parse_checked(bytes: &[u8]) -> (r: Result<Json, String>)
    ensures
        result_view(r) == parse_result(bytes@),
        reads_back(bytes@, ok_value(result_view(r))),
{
    match serde_json::from_slice::<serde_json::Value>(bytes) {
        Ok(v) => Ok(from_value(v)),
        Err(e) => Err(e.to_string()),
    }
}

/// The value that a JSON text denotes.
pub fn parse(bytes: &[u8]) -> (r: Option<Json>)
    ensures
        view_of(r) == parsed(bytes@),
        reads_back(bytes@, view_of(r)),
{
    match parse_checked(bytes) {
        Ok(j) => Some(j),
        Err(_) => None,
    }
}

/// The compact text of a value.
pub fn to_compact(v: &Json) -> (s: String)
    ensures
        s@ == compact(v@),
{
    let mut s = String::new();
    let item = ",";
    let colon = ":";
    proof {
        reveal_strlit(",");
        reveal_strlit(":");
        assert(item@ =~= seq![',']);
        assert(colon@ =~= seq![':']);
    }
    push_json(v, item, colon, &mut s);
    assert(s@ =~= compact(v@));
    s
}

/// A member appended to an object is found where no earlier member has its key.
pub proof fn lemma_member_push(m: Seq<MemberView>, x: MemberView, key: Seq<char>)
    ensures
        member(m.push(x), key) == match member(m, key) {
            Some(v) => Some(v),
            None => if x.key == key {
                Some(x.value)
            } else {
                None
            },
        },
    decreases m.len(),
{
    let all = m.push(x);
    if m.len() == 0 {
        assert(all.subrange(1, all.len() as int) =~= Seq::<MemberView>::empty());
        reveal_with_fuel(member, 2);
    } else if m[0].key != key {
        lemma_member_push(m.subrange(1, m.len() as int), x, key);
        assert(all.subrange(1, all.len() as int) =~= m.subrange(1, m.len() as int).push(x));
    }
}

/// A JSON number.
pub open spec fn number_view(n: nat) -> JsonView {
    JsonView::Number(decimal(n))
}

/// A member with a key and a value.
pub open spec fn entry(key: Seq<char>, value: JsonView) -> MemberView {
    MemberView { key, value }
}

/// The view of members under construction.
pub open spec fn members_view(m: Seq<(String, Json)>) -> Seq<MemberView> {
    Seq::new(m.len(), |i: int| MemberView { key: m[i].0@, value: m[i].1@ })
}

/// An object is its members.
pub proof fn lemma_object_view(m: Vec<(String, Json)>)
    ensures
        Json::Object(m)@ == JsonView::Object(members_view(m@)),
{
    assert(Json::Object(m)@->Object_0 =~= members_view(m@));
}

/// The view of the items of an array.
pub open spec fn items_view(a: Seq<Json>) -> Seq<JsonView> {
    Seq::new(a.len(), |i: int| a[i]@)
}

/// An array is its items.
pub proof fn lemma_array_view(a: Vec<Json>)
    ensures
        Json::Array(a)@ == JsonView::Array(items_view(a@)),
{
    assert(Json::Array(a)@->Array_0 =~= items_view(a@));
}

/// Append a member.
pub fn push_entry(m: &mut Vec<(String, Json)>, key: &str, value: Json)
    ensures
        members_view(final(m)@) == members_view(old(m)@).push(entry(key@, value@)),
{
    m.push((owned(key), value));
    assert(members_view(m@) =~= members_view(old(m)@).push(entry(key@, value@)));
}

/// A number as a JSON value.
pub fn number(n: u64) -> (j: Json)
    ensures
        j@ == number_view(n as nat),
{
    Json::Number(to_decimal(n))
}

/// A text as a JSON value.
pub fn text_value(s: &str) -> (j: Json)
    ensures
        j@ == JsonView::Text(s@),
{
    Json::Text(owned(s))
}

/// An object that is made of these members.
pub(crate) fn object(m: Vec<(String, Json)>) -> (j: Json)
    ensures
        j@ == JsonView::Object(members_view(m@)),
{
    proof {
        lemma_object_view(m);
    }
    Json::Object(m)
}

/// An empty list of members.
pub(crate) fn no_members() -> (m: Vec<(String, Json)>)
    ensures
        members_view(m@) == Seq::<MemberView>::empty(),
{
    let m: Vec<(String, Json)> = Vec::new();
    assert(members_view(m@) =~= Seq::<MemberView>::empty());
    m
}

/// An object with one member.
pub(crate) fn object_of(key: &str, value: Json) -> (j: Json)
    ensures
        j@ == JsonView::Object(seq![entry(key@, value@)]),
{
    let mut m: Vec<(String, Json)> = no_members();
    push_entry(&mut m, key, value);
    assert(members_view(m@) =~= seq![entry(key@, value@)]);
    object(m)
}

/// An array with one item.
pub(crate) fn array_of(value: Json) -> (j: Json)
    ensures
        j@ == JsonView::Array(seq![value@]),
{
    let mut a: Vec<Json> = Vec::new();
    a.push(value);
    proof {
        lemma_array_view(a);
        assert(items_view(a@) =~= seq![value@]);
    }
    Json::Array(a)
}

/// The member of a key is the first that has the key, and there is none only where none has it.
pub proof fn law_member_is_the_first(m: Seq<MemberView>, key: Seq<char>, i: int)
    requires
        0 <= i < m.len(),
        m[i].key == key,
        forall|j: int| 0 <= j < i ==> (#[trigger] m[j]).key != key,
    ensures
        JsonView::Object(m).at(key) == Some(m[i].value),
    decreases m.len(),
{
    if i > 0 {
        let rest = m.subrange(1, m.len() as int);
        assert(m[0].key != key);
        assert forall|j: int| 0 <= j < i - 1 implies (#[trigger] rest[j]).key != key by {
            assert(rest[j] == m[j + 1]);
        }
        law_member_is_the_first(rest, key, i - 1);
        assert(JsonView::Object(rest).at(key) == member(rest, key));
    }
}

/// A value that has no member of a key has none.
pub proof fn law_no_member_is_made_up(v: JsonView, key: Seq<char>)
    ensures
        v matches JsonView::Object(m) && (forall|j: int| 0 <= j < m.len() ==> (#[trigger] m[j]).key != key)
            ==> v.at(key) is None,
        v !is Object ==> v.at(key) is None,
    decreases v,
{
    if let JsonView::Object(m) = v {
        if forall|j: int| 0 <= j < m.len() ==> (#[trigger] m[j]).key != key {
            lemma_no_member(m, key);
        }
    }
}

proof fn lemma_no_member(m: Seq<MemberView>, key: Seq<char>)
    requires
        forall|j: int| 0 <= j < m.len() ==> (#[trigger] m[j]).key != key,
    ensures
        member(m, key) is None,
    decreases m.len(),
{
    if m.len() > 0 {
        assert(m[0].key != key);
        let rest = m.subrange(1, m.len() as int);
        assert forall|j: int| 0 <= j < rest.len() implies (#[trigger] rest[j]).key != key by {
            assert(rest[j] == m[j + 1]);
        }
        lemma_no_member(rest, key);
    }
}

/// A number in a JSON value is read back as that number.
pub proof fn law_number_is_read_back(n: nat)
    ensures
        n <= u64::MAX ==> number_view(n).number() == Some(n as u64),
{
    law_decimal_round_trip(n);
}

/// Every member of an object whose key no earlier member has is found under its key.
pub proof fn lemma_found(m: Seq<MemberView>, i: int, key: Seq<char>, value: JsonView)
    requires
        0 <= i < m.len(),
        m[i] == entry(key, value),
        forall|j: int| 0 <= j < i ==> (#[trigger] m[j]).key != key,
    ensures
        JsonView::Object(m).at(key) == Some(value),
{
    law_member_is_the_first(m, key, i);
}

/// The text of a string stands on one line: what is not printable is escaped.
pub proof fn law_quoted_text_is_on_one_line(s: Seq<char>, i: int)
    requires
        0 <= i < quoted(s).len(),
    ensures
        quoted(s)[i] as int >= 32,
{
    lemma_escaped_text(s);
}

proof fn lemma_hex_char(d: int)
    requires
        0 <= d < 16,
    ensures
        hex_char(d) as int >= 48,
{
}

proof fn lemma_escaped(c: char)
    ensures
        forall|i: int| 0 <= i < escaped(c).len() ==> (#[trigger] escaped(c)[i]) as int >= 32,
{
    if (c as int) < 32 {
        lemma_hex_char(c as int / 16);
        lemma_hex_char(c as int % 16);
    }
}

proof fn lemma_escaped_text(s: Seq<char>)
    ensures
        forall|i: int| 0 <= i < escaped_text(s).len() ==> (#[trigger] escaped_text(s)[i]) as int >= 32,
    decreases s.len(),
{
    if s.len() > 0 {
        lemma_escaped_text(s.drop_last());
        let c = s.last();
        lemma_escaped(c);
        let all = escaped_text(s);
        let n = escaped_text(s.drop_last()).len();
        assert forall|i: int| 0 <= i < all.len() implies (#[trigger] all[i]) as int >= 32 by {
            if i < n {
                assert(all[i] == escaped_text(s.drop_last())[i]);
            } else {
                assert(all[i] == escaped(c)[i - n]);
            }
        }
    }
}

/// A list is the texts of its items between brackets, with the given text between two of them.
pub proof fn law_text_of_a_list(a: Seq<JsonView>, x: JsonView, item: Seq<char>, colon: Seq<char>)
    ensures
        json_text(JsonView::Array(Seq::empty()), item, colon) == seq!['[', ']'],
        json_text(JsonView::Array(seq![x]), item, colon) == seq!['['] + json_text(x, item, colon) + seq![']'],
        a.len() > 0 ==> json_text(JsonView::Array(a.push(x)), item, colon) == json_text(
            JsonView::Array(a),
            item,
            colon,
        ).drop_last() + item + json_text(x, item, colon) + seq![']'],
{
    reveal_with_fuel(items_text, 2);
    let one = seq![x];
    assert(json_text(JsonView::Array(Seq::<JsonView>::empty()), item, colon) =~= seq!['[', ']']);
    assert(one[0] == x);
    assert(items_text(one, 0, item, colon) =~= Seq::<char>::empty());
    assert(items_text(one, 1, item, colon) =~= json_text(one[0], item, colon));
    assert(json_text(JsonView::Array(one), item, colon) =~= seq!['['] + json_text(x, item, colon) + seq![']']);
    if a.len() > 0 {
        lemma_items_text_of_more(a, x, a.len(), item, colon);
        let more = a.push(x);
        assert(more[a.len() as int] == x);
        assert(json_text(JsonView::Array(more), item, colon) =~= json_text(
            JsonView::Array(a),
            item,
            colon,
        ).drop_last() + item + json_text(x, item, colon) + seq![']']);
    }
}

proof fn lemma_items_text_of_more(a: Seq<JsonView>, x: JsonView, n: nat, item: Seq<char>, colon: Seq<char>)
    requires
        n <= a.len(),
    ensures
        items_text(a.push(x), n, item, colon) == items_text(a, n, item, colon),
    decreases n,
{
    if n > 0 {
        lemma_items_text_of_more(a, x, (n - 1) as nat, item, colon);
        assert(a.push(x)[n - 1] == a[n - 1]);
    }
}

/// An object is its members between braces, each its key as a string, the colon and its value, with
/// the given text between two of them.
pub proof fn law_text_of_an_object(m: Seq<MemberView>, x: MemberView, item: Seq<char>, colon: Seq<char>)
    ensures
        json_text(JsonView::Object(Seq::empty()), item, colon) == seq!['{', '}'],
        json_text(JsonView::Object(seq![x]), item, colon) == seq!['{'] + quoted(x.key) + colon + json_text(
            x.value,
            item,
            colon,
        ) + seq!['}'],
        m.len() > 0 ==> json_text(JsonView::Object(m.push(x)), item, colon) == json_text(
            JsonView::Object(m),
            item,
            colon,
        ).drop_last() + item + quoted(x.key) + colon + json_text(x.value, item, colon) + seq!['}'],
{
    let one = seq![x];
    assert(one[0] == x);
    assert(json_text(JsonView::Object(Seq::<MemberView>::empty()), item, colon) =~= seq!['{', '}']);
    assert(members_text(one, 0, item, colon) =~= Seq::<char>::empty());
    assert(members_text(one, 1, item, colon) =~= quoted(x.key) + colon + json_text(one[0].value, item, colon));
    assert(json_text(JsonView::Object(one), item, colon) =~= seq!['{'] + quoted(x.key) + colon + json_text(
        x.value,
        item,
        colon,
    ) + seq!['}']);
    if m.len() > 0 {
        lemma_members_text_of_more(m, x, m.len(), item, colon);
        let more = m.push(x);
        assert(more[m.len() as int] == x);
        assert(json_text(JsonView::Object(more), item, colon) =~= json_text(
            JsonView::Object(m),
            item,
            colon,
        ).drop_last() + item + quoted(x.key) + colon + json_text(x.value, item, colon) + seq!['}']);
    }
}

proof fn lemma_members_text_of_more(
    m: Seq<MemberView>,
    x: MemberView,
    n: nat,
    item: Seq<char>,
    colon: Seq<char>,
)
    requires
        n <= m.len(),
    ensures
        members_text(m.push(x), n, item, colon) == members_text(m, n, item, colon),
    decreases n,
{
    if n > 0 {
        lemma_members_text_of_more(m, x, (n - 1) as nat, item, colon);
        assert(m.push(x)[n - 1] == m[n - 1]);
    }
}

} // verus!
