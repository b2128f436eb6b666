//! A configuration tree as YAML text.
use crate::chat::{lower_text, lowered};
use crate::json::{Json, JsonView, MemberView};
use crate::json::{compact, to_compact};
use crate::text::{chars_eq, copy_range, decimal_digit, owned, push_text, to_chars};
use vstd::prelude::*;

verus! {

pub open spec fn is_digit(c: char) -> bool {
    '0' <= c <= '9'
}

/// The end of the digits that start at `i`.
pub open spec fn digits_end(s: Seq<char>, i: int) -> int
    decreases s.len() - i,
{
    if 0 <= i < s.len() && is_digit(s[i]) { digits_end(s, i + 1) } else { i }
}

/// A text without one sign at its start.
pub open spec fn unsigned(s: Seq<char>) -> Seq<char> {
    if s.len() > 0 && (s[0] == '+' || s[0] == '-') { s.skip(1) } else { s }
}

/// Whether an exponent (`e`, perhaps a sign, digits) or nothing stands from `i` on.
pub open spec fn exponent_at(s: Seq<char>, i: int) -> bool {
    if i == s.len() {
        true
    } else if s[i] == 'e' || s[i] == 'E' {
        let t = unsigned(s.skip(i + 1));
        t.len() > 0 && digits_end(t, 0) == t.len()
    } else {
        false
    }
}

/// Whether digits with perhaps a point among them, and perhaps an exponent, make up the text.
pub open spec fn is_number(s: Seq<char>) -> bool {
    let a = digits_end(s, 0);
    if a < s.len() && s[a] == '.' {
        let b = digits_end(s, a + 1);
        a + (b - (a + 1)) > 0 && exponent_at(s, b)
    } else {
        a > 0 && exponent_at(s, a)
    }
}

/// Whether a text reads as a floating-point number.
pub open spec fn reads_as_float(s: Seq<char>) -> bool {
    let t = unsigned(s);
    let l = lower_text(t);
    l == "inf"@ || l == "infinity"@ || l == "nan"@ || is_number(t)
}

fn end_of_digits(s: &[char], from: usize) -> (e: usize)
    requires
        from <= s@.len(),
    ensures
        e == digits_end(s@, from as int),
        from <= e <= s@.len(),
{
    let n: usize = s.len();
    let mut i: usize = from;
    while i < n
        invariant
            from <= i <= n,
            n == s@.len(),
            digits_end(s@, i as int) == digits_end(s@, from as int),
        decreases n - i,
    {
        if decimal_digit(s[i]).is_none() {
            return i;
        }
        i = i + 1;
    }
    i
}

fn strip_sign(s: &[char], from: usize) -> (v: Vec<char>)
    requires
        from <= s@.len(),
    ensures
        v@ == unsigned(s@.skip(from as int)),
{
    let n: usize = s.len();
    let at: usize = if from < n && (s[from] == '+' || s[from] == '-') { from + 1 } else { from };
    let v: Vec<char> = copy_range(s, at, n);
    assert(v@ =~= unsigned(s@.skip(from as int)));
    v
}

fn has_exponent(s: &[char], i: usize) -> (r: bool)
    requires
        i <= s@.len(),
    ensures
        r == exponent_at(s@, i as int),
{
    if i == s.len() {
        return true;
    }
    if s[i] != 'e' && s[i] != 'E' {
        return false;
    }
    let t: Vec<char> = strip_sign(s, i + 1);
    t.len() > 0 && end_of_digits(t.as_slice(), 0) == t.len()
}

fn number_text(s: &[char]) -> (r: bool)
    ensures
        r == is_number(s@),
{
    let a: usize = end_of_digits(s, 0);
    if a < s.len() && s[a] == '.' {
        let b: usize = end_of_digits(s, a + 1);
        (a > 0 || b > a + 1) && has_exponent(s, b)
    } else {
        a > 0 && has_exponent(s, a)
    }
}

fn float_text(s: &[char]) -> (r: bool)
    ensures
        r == reads_as_float(s@),
{
    assert(s@.skip(0) =~= s@);
    let t: Vec<char> = strip_sign(s, 0);
    let l: Vec<char> = lowered(t.as_slice());
    chars_eq(l.as_slice(), to_chars("inf").as_slice()) || chars_eq(
        l.as_slice(),
        to_chars("infinity").as_slice(),
    ) || chars_eq(l.as_slice(), to_chars("nan").as_slice()) || number_text(t.as_slice())
}

/// A character that needs no quotes.
pub open spec fn bare(c: char) -> bool {
    ||| '0' <= c <= '9'
    ||| 'a' <= c <= 'z'
    ||| 'A' <= c <= 'Z'
    ||| c == '_' || c == '.' || c == '/' || c == '+' || c == '-' || c == '@'
}

fn is_bare(c: char) -> (r: bool)
    ensures
        r == bare(c),
{
    let u: u32 = c as u32;
    (48 <= u && u <= 57) || (97 <= u && u <= 122) || (65 <= u && u <= 90) || c == '_' || c == '.' || c
        == '/' || c == '+' || c == '-' || c == '@'
}

/// Words that mean something else without quotes.
pub open spec fn reserved(s: Seq<char>) -> bool {
    s == "true"@ || s == "false"@ || s == "null"@ || s == "yes"@ || s == "no"@ || s == "on"@ || s
        == "off"@ || s == "~"@
}

fn is_reserved(s: &[char]) -> (r: bool)
    ensures
        r == reserved(s@),
{
    chars_eq(s, to_chars("true").as_slice()) || chars_eq(s, to_chars("false").as_slice()) || chars_eq(
        s,
        to_chars("null").as_slice(),
    ) || chars_eq(s, to_chars("yes").as_slice()) || chars_eq(s, to_chars("no").as_slice()) || chars_eq(
        s,
        to_chars("on").as_slice(),
    ) || chars_eq(s, to_chars("off").as_slice()) || chars_eq(s, to_chars("~").as_slice())
}

/// Whether a text can stand without quotes.
pub open spec fn plain_text(s: Seq<char>) -> bool {
    &&& s.len() > 0
    &&& forall|i: int| 0 <= i < s.len() ==> bare(#[trigger] s[i])
    &&& !reserved(s)
    &&& !reads_as_float(s)
}

/// A character inside quotes.
pub open spec fn quoted_char(c: char) -> Seq<char> {
    if c == '\\' {
        seq!['\\', '\\']
    } else if c == '"' {
        seq!['\\', '"']
    } else if c == '\n' {
        seq!['\\', 'n']
    } else {
        seq![c]
    }
}

/// The first `n` characters of a text inside quotes.
pub open spec fn quoted_chars(s: Seq<char>, n: int) -> Seq<char>
    decreases n,
{
    if n <= 0 { Seq::empty() } else { quoted_chars(s, n - 1) + quoted_char(s[n - 1]) }
}

/// A value on one line.
pub open spec fn scalar_text(v: JsonView) -> Seq<char> {
    match v {
        JsonView::Text(s) => if plain_text(s) {
            s
        } else {
            seq!['"'] + quoted_chars(s, s.len() as int) + seq!['"']
        },
        _ => compact(v),
    }
}

fn can_stand_bare(s: &[char]) -> (r: bool)
    ensures
        r == plain_text(s@),
{
    let n: usize = s.len();
    if n == 0 {
        return false;
    }
    let mut i: usize = 0;
    while i < n
        invariant
            i <= n,
            n == s@.len(),
            forall|j: int| 0 <= j < i ==> bare(#[trigger] s@[j]),
        decreases n - i,
    {
        if !is_bare(s[i]) {
            assert(!bare(s@[i as int]));
            return false;
        }
        i = i + 1;
    }
    !is_reserved(s) && !float_text(s)
}

/// A value on one line.
pub fn scalar(v: &Json) -> (s: String)
    ensures
        s@ == scalar_text(v@),
{
    match v {
        Json::Text(t) => {
            let c: Vec<char> = to_chars(t.as_str());
            if can_stand_bare(c.as_slice()) {
                return owned(t.as_str());
            }
            let mut s: String = String::new();
            s.push('"');
            let ghost start = s@;
            let n: usize = c.len();
            let mut i: usize = 0;
            assert(s@ =~= start + quoted_chars(c@, 0));
            while i < n
                invariant
                    i <= n,
                    n == c@.len(),
                    s@ == start + quoted_chars(c@, i as int),
                decreases n - i,
            {
                let x: char = c[i];
                if x == '\\' {
                    s.push('\\');
                    s.push('\\');
                } else if x == '"' {
                    s.push('\\');
                    s.push('"');
                } else if x == '\n' {
                    s.push('\\');
                    s.push('n');
                } else {
                    s.push(x);
                }
                assert(s@ =~= start + quoted_chars(c@, i + 1));
                i = i + 1;
            }
            s.push('"');
            assert(s@ =~= scalar_text(v@));
            s
        },
        _ => to_compact(v),
    }
}

// ---- trees ----------------------------------------------------------------------------------

/// Whether nothing is shown of a value: an unset leaf where those are skipped, or a table of which
/// nothing is shown.
pub open spec fn blank(v: JsonView, skip: bool) -> bool
    decreases v, 0nat,
{
    match v {
        JsonView::Null => skip,
        JsonView::Object(m) => all_blank(m, m.len(), skip),
        _ => false,
    }
}

pub open spec fn all_blank(m: Seq<MemberView>, n: nat, skip: bool) -> bool
    decreases m, n,
{
    n == 0 || n > m.len() || (all_blank(m, (n - 1) as nat, skip) && blank(m[n - 1].value, skip))
}

/// The first `n` items of a list.
pub open spec fn item_lines(a: Seq<JsonView>, pad: Seq<char>, n: int) -> Seq<char>
    decreases n,
{
    if n <= 0 {
        Seq::empty()
    } else {
        item_lines(a, pad, n - 1) + pad + "  - "@ + scalar_text(a[n - 1]) + "\n"@
    }
}

/// The lines of a value.
pub open spec fn yaml_lines(v: JsonView, pad: Seq<char>, skip: bool) -> Seq<char>
    decreases v, 0nat,
{
    match v {
        JsonView::Object(m) => table_lines(m, m.len(), pad, skip),
        _ => pad + scalar_text(v) + "\n"@,
    }
}

/// The lines of one member of a table.
pub open spec fn member_lines(x: MemberView, pad: Seq<char>, skip: bool) -> Seq<char>
    decreases x, 0nat,
{
    if blank(x.value, skip) {
        Seq::empty()
    } else {
        match x.value {
            JsonView::Object(_) => pad + x.key + ":\n"@ + yaml_lines(x.value, pad + "  "@, skip),
            JsonView::Array(a) => if a.len() > 0 {
                pad + x.key + ":\n"@ + item_lines(a, pad, a.len() as int)
            } else {
                pad + x.key + ": []\n"@
            },
            _ => pad + x.key + ": "@ + scalar_text(x.value) + "\n"@,
        }
    }
}

/// The lines of the first `n` members of a table.
pub open spec fn table_lines(m: Seq<MemberView>, n: nat, pad: Seq<char>, skip: bool) -> Seq<char>
    decreases m, n,
{
    if n == 0 || n > m.len() {
        Seq::empty()
    } else {
        table_lines(m, (n - 1) as nat, pad, skip) + member_lines(m[n - 1], pad, skip)
    }
}

/// A tree as YAML; a tree of which nothing is shown is an empty table.
pub open spec fn yaml_text(v: JsonView, skip: bool) -> Seq<char> {
    let s = yaml_lines(v, Seq::empty(), skip);
    if s.len() == 0 { "{}\n"@ } else { s }
}

fn member_is_blank(e: &(String, Json), skip: bool) -> (r: bool)
    ensures
        r == blank(e.1@, skip),
    decreases e,
{
    is_blank(&e.1, skip)
}

fn is_blank(v: &Json, skip: bool) -> (r: bool)
    ensures
        r == blank(v@, skip),
    decreases v,
{
    match v {
        Json::Null => skip,
        Json::Object(m) => {
            let ghost view = v@->Object_0;
            assert(v@ is Object);
            let n: usize = m.len();
            let mut i: usize = 0;
            while i < n
                invariant
                    i <= n,
                    n == m@.len(),
                    v == Json::Object(*m),
                    view.len() == n,
                    forall|j: int|
                        0 <= j < n ==> view[j] == (MemberView { key: m@[j].0@, value: m@[j].1@ }),
                    v@ == JsonView::Object(view),
                    all_blank(view, i as nat, skip),
                decreases n - i,
            {
                assert(decreases_to!(v => v->Object_0));
                assert(decreases_to!(v->Object_0 => v->Object_0@));
                assert(decreases_to!(v->Object_0@ => v->Object_0@[i as int]));
                if !member_is_blank(&m[i], skip) {
                    proof {
                        lemma_not_all_blank(view, (i + 1) as nat, n as nat, skip);
                    }
                    return false;
                }
                i = i + 1;
            }
            true
        },
        _ => false,
    }
}

proof fn lemma_not_all_blank(m: Seq<MemberView>, k: nat, n: nat, skip: bool)
    requires
        1 <= k <= n <= m.len(),
        !blank(m[k - 1].value, skip),
    ensures
        !all_blank(m, n, skip),
    decreases n,
{
    if k < n {
        lemma_not_all_blank(m, k, (n - 1) as nat, skip);
    }
}

fn push_items(a: &Vec<Json>, pad: &str, out: &mut String)
    ensures
        final(out)@ == old(out)@ + item_lines(
            crate::json::items_view(a@),
            pad@,
            a@.len() as int,
        ),
{
    let ghost start = out@;
    let ghost view = crate::json::items_view(a@);
    let n: usize = a.len();
    let mut i: usize = 0;
    assert(out@ =~= start + item_lines(view, pad@, 0));
    while i < n
        invariant
            i <= n,
            n == a@.len(),
            view == crate::json::items_view(a@),
            out@ == start + item_lines(view, pad@, i as int),
        decreases n - i,
    {
        assert(view[i as int] == a@[i as int]@);
        push_text(out, pad);
        push_text(out, "  - ");
        push_text(out, scalar(&a[i]).as_str());
        push_text(out, "\n");
        assert(out@ =~= start + item_lines(view, pad@, i + 1));
        i = i + 1;
    }
}

fn push_member(e: &(String, Json), pad: &str, skip: bool, out: &mut String)
    ensures
        final(out)@ == old(out)@ + member_lines(MemberView { key: e.0@, value: e.1@ }, pad@, skip),
    decreases e,
{
    let ghost x = MemberView { key: e.0@, value: e.1@ };
    if is_blank(&e.1, skip) {
        assert(out@ =~= old(out)@ + member_lines(x, pad@, skip));
        return;
    }
    push_text(out, pad);
    push_text(out, e.0.as_str());
    match &e.1 {
        Json::Object(_) => {
            push_text(out, ":\n");
            let mut more: String = owned(pad);
            push_text(&mut more, "  ");
            push_yaml(&e.1, more.as_str(), skip, out);
        },
        Json::Array(a) => {
            proof {
                crate::json::lemma_array_view(*a);
            }
            if a.len() > 0 {
                push_text(out, ":\n");
                push_items(a, pad, out);
            } else {
                push_text(out, ": []\n");
            }
        },
        _ => {
            push_text(out, ": ");
            push_text(out, scalar(&e.1).as_str());
            push_text(out, "\n");
        },
    }
    assert(out@ =~= old(out)@ + member_lines(x, pad@, skip));
}

fn push_yaml(v: &Json, pad: &str, skip: bool, out: &mut String)
    ensures
        final(out)@ == old(out)@ + yaml_lines(v@, pad@, skip),
    decreases v,
{
    match v {
        Json::Object(m) => {
            let ghost start = out@;
            let ghost view = v@->Object_0;
            assert(v@ is Object);
            let n: usize = m.len();
            let mut i: usize = 0;
            assert(out@ =~= start + table_lines(view, 0, pad@, skip));
            while i < n
                invariant
                    i <= n,
                    n == m@.len(),
                    v == Json::Object(*m),
                    view.len() == n,
                    forall|j: int|
                        0 <= j < n ==> view[j] == (MemberView { key: m@[j].0@, value: m@[j].1@ }),
                    out@ == start + table_lines(view, i as nat, pad@, skip),
                decreases n - i,
            {
                assert(decreases_to!(v => v->Object_0));
                assert(decreases_to!(v->Object_0 => v->Object_0@));
                assert(decreases_to!(v->Object_0@ => v->Object_0@[i as int]));
                push_member(&m[i], pad, skip, out);
                assert(out@ =~= start + table_lines(view, (i + 1) as nat, pad@, skip));
                i = i + 1;
            }
            assert(v@ == JsonView::Object(view));
        },
        _ => {
            push_text(out, pad);
            push_text(out, scalar(v).as_str());
            push_text(out, "\n");
            assert(out@ =~= old(out)@ + yaml_lines(v@, pad@, skip));
        },
    }
}

/// Render a tree as YAML. `skip_null` drops unset leaves (and sections that become empty), which
/// is what makes the merged view readable.
pub fn to_yaml(v: &Json, skip_null: bool) -> (s: String)
    ensures
        s@ == yaml_text(v@, skip_null),
{
    let mut s: String = String::new();
    push_yaml(v, "", skip_null, &mut s);
    proof {
        reveal_strlit("");
        assert(""@ =~= Seq::<char>::empty());
    }
    assert(s@ =~= yaml_lines(v@, Seq::empty(), skip_null));
    if s.as_str().is_empty() {
        push_text(&mut s, "{}\n");
        assert(s@ =~= "{}\n"@);
    }
    s
}

/// A text is written as it is only where it is made of plain characters and would be read as nothing
/// else; otherwise in quotes.
pub proof fn law_texts_are_quoted_where_they_must_be(s: Seq<char>)
    ensures
        scalar_text(JsonView::Text(s)) == s || (scalar_text(JsonView::Text(s)).len() >= 2 && scalar_text(
            JsonView::Text(s),
        )[0] == '"' && scalar_text(JsonView::Text(s)).last() == '"'),
        s.len() == 0 || s == "true"@ || s == "false"@ || s == "null"@ || s == "yes"@ || s == "no"@ || s == "on"@
            || s == "off"@ || s == "~"@ ==> scalar_text(JsonView::Text(s)).len() >= 2 && scalar_text(
            JsonView::Text(s),
        )[0] == '"',
        (exists|i: int|
            0 <= i < s.len() && (#[trigger] s[i] == ' ' || s[i] == ':' || s[i] == '#' || s[i] == '"' || s[i]
                == '\n')) ==> scalar_text(JsonView::Text(s)).len() >= 2 && scalar_text(JsonView::Text(s))[0]
            == '"',
{
    if exists|i: int|
        0 <= i < s.len() && (#[trigger] s[i] == ' ' || s[i] == ':' || s[i] == '#' || s[i] == '"' || s[i] == '\n') {
        let i = choose|i: int|
            0 <= i < s.len() && (#[trigger] s[i] == ' ' || s[i] == ':' || s[i] == '#' || s[i] == '"' || s[i]
                == '\n');
        assert(!bare(s[i]));
    }
}

/// A text of digits alone is quoted, so that it stays a text.
pub proof fn law_numbers_as_texts_are_quoted(s: Seq<char>)
    requires
        s.len() > 0,
        forall|i: int| 0 <= i < s.len() ==> '0' <= #[trigger] s[i] <= '9',
    ensures
        !plain_text(s),
        scalar_text(JsonView::Text(s))[0] == '"',
{
    lemma_all_digits(s, 0);
    assert(unsigned(s) == s);
}

proof fn lemma_all_digits(s: Seq<char>, i: int)
    requires
        0 <= i <= s.len(),
        forall|j: int| 0 <= j < s.len() ==> '0' <= #[trigger] s[j] <= '9',
    ensures
        digits_end(s, i) == s.len(),
    decreases s.len() - i,
{
    if i < s.len() {
        assert('0' <= s[i] <= '9');
        lemma_all_digits(s, i + 1);
    }
}

/// A table is written member by member.
pub proof fn law_table_is_written_in_order(m: Seq<MemberView>, x: MemberView, pad: Seq<char>, skip: bool)
    ensures
        yaml_lines(JsonView::Object(m.push(x)), pad, skip) == yaml_lines(JsonView::Object(m), pad, skip)
            + member_lines(x, pad, skip),
        yaml_lines(JsonView::Object(Seq::empty()), pad, skip) == Seq::<char>::empty(),
{
    lemma_table_of_more(m, x, m.len(), pad, skip);
    let more = m.push(x);
    assert(more[m.len() as int] == x);
    assert(table_lines(more, more.len(), pad, skip) == table_lines(more, m.len(), pad, skip) + member_lines(
        more[m.len() as int],
        pad,
        skip,
    ));
}

proof fn lemma_table_of_more(m: Seq<MemberView>, x: MemberView, n: nat, pad: Seq<char>, skip: bool)
    requires
        n <= m.len(),
    ensures
        table_lines(m.push(x), n, pad, skip) == table_lines(m, n, pad, skip),
    decreases n,
{
    if n > 0 {
        lemma_table_of_more(m, x, (n - 1) as nat, pad, skip);
        assert(m.push(x)[n - 1] == m[n - 1]);
    }
}

/// A member is a line of its own: the key, a colon and the value; a table stands below its key, two
/// blanks further in, and so do the items of a list, each behind a dash. What is not set is left out
/// where that is asked for.
pub proof fn law_lines_of_a_member(key: Seq<char>, t: Seq<char>, m: Seq<MemberView>, a: Seq<JsonView>, pad: Seq<char>, skip: bool)
    ensures
        member_lines(MemberView { key, value: JsonView::Text(t) }, pad, skip) == pad + key + ": "@ + scalar_text(
            JsonView::Text(t),
        ) + "\n"@,
        member_lines(MemberView { key, value: JsonView::Number(t) }, pad, skip) == pad + key + ": "@ + t + "\n"@,
        member_lines(MemberView { key, value: JsonView::Null }, pad, true) == Seq::<char>::empty(),
        member_lines(MemberView { key, value: JsonView::Null }, pad, false) == pad + key + ": "@ + seq![
            'n',
            'u',
            'l',
            'l',
        ] + "\n"@,
        !blank(JsonView::Object(m), skip) ==> member_lines(
            MemberView { key, value: JsonView::Object(m) },
            pad,
            skip,
        ) == pad + key + ":\n"@ + yaml_lines(JsonView::Object(m), pad + "  "@, skip),
        a.len() > 0 ==> member_lines(MemberView { key, value: JsonView::Array(a) }, pad, skip) == pad + key
            + ":\n"@ + item_lines(a, pad, a.len() as int),
        item_lines(a, pad, a.len() as int + 1) == item_lines(a, pad, a.len() as int) + pad + "  - "@
            + scalar_text(a[a.len() as int]) + "\n"@,
{
}

/// A table is left out exactly where all of its members are, and a value that is set never is.
pub proof fn law_what_is_left_out(m: Seq<MemberView>, x: MemberView, t: Seq<char>, skip: bool)
    ensures
        blank(JsonView::Object(m.push(x)), skip) == (blank(JsonView::Object(m), skip) && blank(x.value, skip)),
        blank(JsonView::Object(Seq::empty()), skip),
        blank(JsonView::Null, skip) == skip,
        !blank(JsonView::Text(t), skip) && !blank(JsonView::Number(t), skip),
{
    lemma_blank_of_more(m, x, m.len(), skip);
    let more = m.push(x);
    assert(more[m.len() as int] == x);
    assert(all_blank(more, more.len(), skip) == (all_blank(more, m.len(), skip) && blank(
        more[m.len() as int].value,
        skip,
    )));
}

proof fn lemma_blank_of_more(m: Seq<MemberView>, x: MemberView, n: nat, skip: bool)
    requires
        n <= m.len(),
    ensures
        all_blank(m.push(x), n, skip) == all_blank(m, n, skip),
    decreases n,
{
    if n > 0 {
        lemma_blank_of_more(m, x, (n - 1) as nat, skip);
        assert(m.push(x)[n - 1] == m[n - 1]);
    }
}

} // verus!
