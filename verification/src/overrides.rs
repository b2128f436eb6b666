//! Nested values built from the flags that were actually passed, used as the last (winning) source
//! of the configuration. Flags that were not given do not appear at all, or they would override
//! the file.
use crate::http::{after_char, before_char, lemma_place_of, split_char};
use crate::json::{entry, lemma_object_view, members_view, no_members, object, Json, JsonView, MemberView};
use crate::text::to_chars;
use crate::tools::{key_place, set_argument, with_member};
use vstd::prelude::*;

verus! {

/// The value of a key.
pub open spec fn found(m: Seq<MemberView>, key: Seq<char>) -> Option<JsonView> {
    match key_place(m, key) {
        Some(i) => Some(m[i].value),
        None => None,
    }
}

/// The members of a table; none where the value is not one.
pub open spec fn table_of(v: Option<JsonView>) -> Seq<MemberView> {
    match v {
        Some(JsonView::Object(m)) => m,
        _ => Seq::empty(),
    }
}

/// A tree with a value at a path: each part of it but the last names a table, which is made where
/// there is none.
pub open spec fn with_path(m: Seq<MemberView>, path: Seq<char>, v: JsonView) -> Seq<MemberView>
    decreases path.len(),
{
    let k = before_char(path, '.');
    match after_char(path, '.') {
        None => with_member(m, entry(k, v)),
        Some(rest) => if rest.len() < path.len() {
            with_member(m, entry(k, JsonView::Object(with_path(table_of(found(m, k)), rest, v))))
        } else {
            m
        },
    }
}

/// The value at a path.
pub open spec fn value_at(m: Seq<MemberView>, path: Seq<char>) -> Option<JsonView>
    decreases path.len(),
{
    let k = before_char(path, '.');
    match after_char(path, '.') {
        None => found(m, k),
        Some(rest) => if rest.len() < path.len() {
            value_at(table_of(found(m, k)), rest)
        } else {
            None
        },
    }
}

/// Whether two paths part before either ends.
pub open spec fn apart(p: Seq<char>, q: Seq<char>) -> bool
    decreases p.len(),
{
    ||| before_char(p, '.') != before_char(q, '.')
    ||| match (after_char(p, '.'), after_char(q, '.')) {
        (Some(a), Some(b)) => a.len() < p.len() && apart(a, b),
        _ => false,
    }
}

proof fn lemma_key_place(m: Seq<MemberView>, key: Seq<char>)
    ensures
        match key_place(m, key) {
            Some(i) => 0 <= i < m.len() && m[i].key == key && forall|j: int|
                i < j < m.len() ==> (#[trigger] m[j]).key != key,
            None => forall|j: int| 0 <= j < m.len() ==> (#[trigger] m[j]).key != key,
        },
    decreases m.len(),
{
    if m.len() > 0 && m.last().key != key {
        lemma_key_place(m.drop_last(), key);
        assert forall|j: int| 0 <= j < m.len() - 1 implies m.drop_last()[j] == m[j] by {}
    }
}

/// The place of a key is where it stands and nothing of the same key follows.
proof fn lemma_place_is(m: Seq<MemberView>, key: Seq<char>, i: int)
    requires
        0 <= i < m.len(),
        m[i].key == key,
        forall|j: int| i < j < m.len() ==> (#[trigger] m[j]).key != key,
    ensures
        key_place(m, key) == Some(i),
{
    lemma_key_place(m, key);
}

proof fn lemma_found_with(m: Seq<MemberView>, x: MemberView, key: Seq<char>)
    ensures
        found(with_member(m, x), key) == if key == x.key { Some(x.value) } else { found(m, key) },
{
    let w = with_member(m, x);
    lemma_key_place(m, x.key);
    lemma_key_place(m, key);
    lemma_key_place(w, key);
    match key_place(m, x.key) {
        Some(i) => {
            if key == x.key {
                lemma_place_is(w, key, i);
            } else {
                match key_place(m, key) {
                    Some(k) => {
                        assert(w[k] == m[k]);
                        lemma_place_is(w, key, k);
                    },
                    None => {
                        assert forall|j: int| 0 <= j < w.len() implies (#[trigger] w[j]).key != key by {
                            if j != i {
                                assert(w[j] == m[j]);
                            }
                        }
                    },
                }
            }
        },
        None => {
            let n = m.len() as int;
            if key == x.key {
                lemma_place_is(w, key, n);
            } else {
                match key_place(m, key) {
                    Some(k) => {
                        assert(w[k] == m[k]);
                        assert forall|j: int| k < j < w.len() implies (#[trigger] w[j]).key != key by {
                            if j < n {
                                assert(w[j] == m[j]);
                            }
                        }
                        lemma_place_is(w, key, k);
                    },
                    None => {
                        assert forall|j: int| 0 <= j < w.len() implies (#[trigger] w[j]).key != key by {
                            if j < n {
                                assert(w[j] == m[j]);
                            }
                        }
                    },
                }
            }
        },
    }
}

/// What was set at a path is found there.
pub proof fn law_override_is_found(m: Seq<MemberView>, path: Seq<char>, v: JsonView)
    ensures
        value_at(with_path(m, path, v), path) == Some(v),
    decreases path.len(),
{
    let k = before_char(path, '.');
    lemma_place_of(path, '.', 0);
    match after_char(path, '.') {
        None => {
            lemma_found_with(m, entry(k, v), k);
        },
        Some(rest) => {
            let t = table_of(found(m, k));
            law_override_is_found(t, rest, v);
            lemma_found_with(m, entry(k, JsonView::Object(with_path(t, rest, v))), k);
        },
    }
}

/// What was set at one path changes nothing at another that parts from it.
pub proof fn law_override_leaves_others(m: Seq<MemberView>, path: Seq<char>, v: JsonView, other: Seq<char>)
    requires
        apart(path, other),
    ensures
        value_at(with_path(m, path, v), other) == value_at(m, other),
    decreases path.len(),
{
    let k = before_char(path, '.');
    let o = before_char(other, '.');
    lemma_place_of(path, '.', 0);
    lemma_place_of(other, '.', 0);
    match after_char(path, '.') {
        None => {
            lemma_found_with(m, entry(k, v), o);
        },
        Some(rest) => {
            let t = table_of(found(m, k));
            lemma_found_with(m, entry(k, JsonView::Object(with_path(t, rest, v))), o);
            if k == o {
                match after_char(other, '.') {
                    Some(more) => {
                        law_override_leaves_others(t, rest, v, more);
                    },
                    None => {},
                }
            }
        },
    }
}

/// Take the table at a key out of its members; none where there is none.
fn take_table(m: &mut Vec<(String, Json)>, key: &[char]) -> (t: Vec<(String, Json)>)
    ensures
        members_view(t@) == table_of(found(members_view(old(m)@), key@)),
        final(m)@.len() == old(m)@.len(),
        forall|x: MemberView|
            x.key == key@ ==> with_member(members_view(final(m)@), x) == #[trigger] with_member(
                members_view(old(m)@),
                x,
            ),
{
    let ghost s = members_view(m@);
    proof {
        lemma_key_place(s, key@);
    }
    let mut i: usize = m.len();
    while i > 0
        invariant
            i <= m@.len(),
            *m == *old(m),
            s == members_view(m@),
            forall|j: int| i <= j < m@.len() ==> (#[trigger] s[j]).key != key@,
        decreases i,
    {
        assert(s[i - 1].key == m@[i - 1].0@);
        if crate::text::chars_eq(to_chars(m[i - 1].0.as_str()).as_slice(), key) {
            let at: usize = i - 1;
            proof {
                lemma_place_is(s, key@, at as int);
            }
            let mut value: Json = Json::Null;
            std::mem::swap(&mut m[at].1, &mut value);
            proof {
                let w = members_view(m@);
                assert(w =~= s.update(at as int, MemberView { key: key@, value: JsonView::Null }));
                lemma_place_is(w, key@, at as int);
                assert forall|x: MemberView| x.key == key@ implies with_member(w, x)
                    == #[trigger] with_member(s, x) by {
                    assert(with_member(w, x) =~= with_member(s, x));
                }
            }
            return match value {
                Json::Object(t) => {
                    proof {
                        lemma_object_view(t);
                    }
                    t
                },
                _ => no_members(),
            };
        }
        i = i - 1;
    }
    proof {
        assert(key_place(s, key@) is None);
    }
    no_members()
}

/// Set a value at a path.
fn put_path(m: &mut Vec<(String, Json)>, path: &[char], v: Json)
    ensures
        members_view(final(m)@) == with_path(members_view(old(m)@), path@, v@),
    decreases path@.len(),
{
    let (k, rest) = split_char(path, '.');
    proof {
        lemma_place_of(path@, '.', 0);
    }
    match rest {
        None => {
            set_argument(m, k.as_slice(), v);
        },
        Some(more) => {
            let mut t: Vec<(String, Json)> = take_table(m, k.as_slice());
            put_path(&mut t, more.as_slice(), v);
            let j: Json = object(t);
            set_argument(m, k.as_slice(), j);
        },
    }
}

/// The flags that were passed, as a tree.
pub struct Ov {
    members: Vec<(String, Json)>,
}

impl View for Ov {
    type V = Seq<MemberView>;

    closed spec fn view(&self) -> Seq<MemberView> {
        members_view(self.members@)
    }
}

impl Ov {
    pub fn new() -> (o: Ov)
        ensures
            o@ == Seq::<MemberView>::empty(),
    {
        Ov { members: no_members() }
    }

    /// Set a value at a path; nothing where the flag was not passed.
    pub fn set(&mut self, path: &str, v: Option<Json>)
        ensures
            match v {
                Some(j) => final(self)@ == with_path(old(self)@, path@, j@),
                None => final(self)@ == old(self)@,
            },
    {
        match v {
            Some(j) => {
                let p: Vec<char> = to_chars(path);
                put_path(&mut self.members, p.as_slice(), j);
            },
            None => {},
        }
    }

    /// A repeatable flag: an empty list means that it was not passed.
    pub fn set_list(&mut self, path: &str, v: Vec<Json>)
        ensures
            final(self)@ == if v@.len() == 0 {
                old(self)@
            } else {
                with_path(old(self)@, path@, JsonView::Array(crate::json::items_view(v@)))
            },
    {
        if v.len() > 0 {
            proof {
                crate::json::lemma_array_view(v);
            }
            self.set(path, Some(Json::Array(v)));
        }
    }

    pub fn into_value(self) -> (j: Json)
        ensures
            j@ == JsonView::Object(self@),
    {
        object(self.members)
    }
}

} // verus!
