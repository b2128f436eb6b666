//! The stored index: the LRU order and the hit times of the objects of a store, as JSON, and
//! the order in which a store is taken up again.
use crate::backend::metas;
use crate::json::{
    compact, entry, items_view, lemma_array_view, lemma_member_push, lemma_object_view,
    members_view, number, number_view, parse, parsed, plain, push_entry, to_compact, Json, JsonView,
    MemberView,
};
use crate::key::{law_hex_round_trip, PrefixKey};
use crate::members::{repeats, repeats_member};
use crate::object::{key_value, number32, MetaView, ObjectMeta, FORMAT};
use crate::text::{
    before, decimal, hex_text, is_before, law_before_total, law_before_transitive,
    law_decimal_round_trip, owned, str_eq, to_chars,
};
use vstd::prelude::*;
use vstd::utf8::encode_utf8;

verus! {

/// A line of the stored index.
#[derive(Debug)]
pub struct Record {
    pub name: String,
    pub last_used: u64,
    /// LRU position: higher = used more recently.
    pub seq: u64,
}

#[verifier::ext_equal]
pub struct RecordView {
    pub name: Seq<char>,
    pub last_used: u64,
    pub seq: u64,
}

impl View for Record {
    type V = RecordView;

    open spec fn view(&self) -> RecordView {
        RecordView { name: self.name@, last_used: self.last_used, seq: self.seq }
    }
}

/// The lines of an index.
pub open spec fn records_view(v: Seq<Record>) -> Seq<RecordView> {
    Seq::new(v.len(), |i: int| v[i]@)
}

/// The lines that describe the objects of a store with their numbers of use, least recently used
/// first.
pub open spec fn records_of(s: Seq<MetaView>, q: Seq<u64>) -> Seq<RecordView> {
    Seq::new(
        s.len(),
        |i: int| RecordView { name: s[i].name(), last_used: s[i].last_used, seq: q[i] },
    )
}

/// A line as JSON: `[name, last_used, seq]`.
pub open spec fn record_json(r: RecordView) -> JsonView {
    JsonView::Array(
        seq![
            JsonView::Text(r.name),
            number_view(r.last_used as nat),
            number_view(r.seq as nat),
        ],
    )
}

pub open spec fn record_items(r: Seq<RecordView>) -> Seq<JsonView> {
    Seq::new(r.len(), |i: int| record_json(r[i]))
}

/// An index as JSON.
pub open spec fn index_json(root: Seq<u8>, r: Seq<RecordView>) -> JsonView {
    JsonView::Object(
        Seq::<MemberView>::empty().push(entry("format"@, number_view(FORMAT as nat))).push(
            entry("root"@, JsonView::Text(hex_text(root))),
        ).push(entry("objects"@, JsonView::Array(record_items(r)))),
    )
}

/// The bytes of a stored index.
pub open spec fn index_bytes(root: Seq<u8>, r: Seq<RecordView>) -> Seq<u8> {
    encode_utf8(compact(index_json(root, r)))
}

/// A line read from JSON.
pub open spec fn record_of(j: JsonView) -> Option<RecordView> {
    match j {
        JsonView::Array(a) => if a.len() == 3 && a[0] is Text && a[1].number() is Some
            && a[2].number() is Some {
            Some(
                RecordView {
                    name: a[0]->Text_0,
                    last_used: a[1].number()->0,
                    seq: a[2].number()->0,
                },
            )
        } else {
            None
        },
        _ => None,
    }
}

/// The lines of the index that a JSON value is, where it is one of this format and root: an object,
/// or the list of its three fields.
pub open spec fn index_of(j: JsonView, root: Seq<u8>) -> Option<Seq<RecordView>> {
    match (j.field(3, 0, "format"@), j.field(3, 1, "root"@), j.field(3, 2, "objects"@)) {
        (Some(f), Some(r), Some(JsonView::Array(a))) => if number32(f) == Some(FORMAT) && key_value(r)
            == Some(root) && forall|i: int|
            0 <= i < a.len() ==> (#[trigger] record_of(a[i])) is Some {
            Some(Seq::new(a.len(), |i: int| record_of(a[i])->0))
        } else {
            None
        },
        _ => None,
    }
}

/// The fields of an index in their order.
pub const INDEX_FIELDS: [&'static str; 3] = ["format", "root", "objects"];

/// The lines of a stored index of that root, where the bytes are one.
pub open spec fn index_in(bytes: Seq<u8>, root: Seq<u8>) -> Option<Seq<RecordView>> {
    match parsed(bytes) {
        Some(j) => if repeats(bytes, j, INDEX_FIELDS@) { None } else { index_of(j, root) },
        None => None,
    }
}

fn record_to_json(r: &Record) -> (j: Json)
    ensures
        j@ == record_json(r@),
{
    let mut a: Vec<Json> = Vec::new();
    a.push(Json::Text(owned(r.name.as_str())));
    a.push(number(r.last_used));
    a.push(number(r.seq));
    proof {
        lemma_array_view(a);
        assert(items_view(a@) =~= record_json(r@)->Array_0);
    }
    Json::Array(a)
}

/// The text of an index.
pub fn write_index(root: &PrefixKey, lines: &Vec<Record>) -> (s: String)
    ensures
        s@ == compact(index_json(root@, records_view(lines@))),
{
    let mut a: Vec<Json> = Vec::new();
    let n: usize = lines.len();
    let mut i: usize = 0;
    while i < n
        invariant
            i <= n,
            n == lines@.len(),
            a@.len() == i,
            forall|k: int| 0 <= k < i ==> (#[trigger] a@[k])@ == record_json(lines@[k]@),
        decreases n - i,
    {
        a.push(record_to_json(&lines[i]));
        i = i + 1;
    }
    proof {
        lemma_array_view(a);
        assert(items_view(a@) =~= record_items(records_view(lines@)));
    }
    let mut o: Vec<(String, Json)> = Vec::new();
    assert(members_view(o@) =~= Seq::<MemberView>::empty());
    push_entry(&mut o, "format", number(FORMAT as u64));
    let hex = root.hex();
    push_entry(&mut o, "root", Json::Text(hex));
    push_entry(&mut o, "objects", Json::Array(a));
    proof {
        lemma_object_view(o);
    }
    let j = Json::Object(o);
    to_compact(&j)
}

fn read_record(j: &Json) -> (r: Option<Record>)
    ensures
        match r {
            Some(x) => record_of(j@) == Some(x@),
            None => record_of(j@) is None,
        },
{
    match j {
        Json::Array(a) => {
            proof {
                lemma_array_view(*a);
            }
            if a.len() != 3 {
                return None;
            }
            assert(items_view(a@)[0] == a@[0]@ && items_view(a@)[1] == a@[1]@ && items_view(a@)[2]
                == a@[2]@);
            match (a[0].as_str(), a[1].as_u64(), a[2].as_u64()) {
                (Some(name), Some(last_used), Some(seq)) => {
                    let r = Record { name: owned(name), last_used, seq };
                    assert(record_of(j@)->0 =~= r@);
                    Some(r)
                },
                _ => None,
            }
        },
        _ => None,
    }
}

fn read_records(j: &Json) -> (r: Option<Vec<Record>>)
    ensures
        match r {
            Some(v) => j@ matches JsonView::Array(a) && (forall|i: int|
                0 <= i < a.len() ==> (#[trigger] record_of(a[i])) is Some) && records_view(v@) == Seq::new(
                a.len(),
                |i: int| record_of(a[i])->0,
            ),
            None => j@ matches JsonView::Array(a) ==> exists|i: int|
                0 <= i < a.len() && (#[trigger] record_of(a[i])) is None,
        },
{
    match j {
        Json::Array(a) => {
            proof {
                lemma_array_view(*a);
            }
            let ghost view = items_view(a@);
            let mut v: Vec<Record> = Vec::new();
            let n: usize = a.len();
            let mut i: usize = 0;
            while i < n
                invariant
                    i <= n,
                    n == a@.len(),
                    view == items_view(a@),
                    j@ == JsonView::Array(view),
                    v@.len() == i,
                    forall|k: int| 0 <= k < i ==> #[trigger] record_of(view[k]) == Some(v@[k]@),
                decreases n - i,
            {
                match read_record(&a[i]) {
                    Some(x) => {
                        v.push(x);
                    },
                    None => {
                        assert(record_of(view[i as int]) is None);
                        return None;
                    },
                }
                i = i + 1;
            }
            assert(records_view(v@) =~= Seq::new(view.len(), |i: int| record_of(view[i])->0));
            Some(v)
        },
        _ => None,
    }
}

/// Whether some index lines, or none, are what `bytes` hold for that root; and where the bytes
/// are an index that was written for that root, whether they are its lines.
pub open spec fn read_outcome(bytes: Seq<u8>, root: Seq<u8>, r: Option<Seq<RecordView>>) -> bool {
    &&& r == index_in(bytes, root)
    &&& forall|lines: Seq<RecordView>|
        bytes == #[trigger] index_bytes(root, lines) ==> r == Some(lines)
}

/// The lines behind an option.
pub open spec fn lines_of(r: Option<Vec<Record>>) -> Option<Seq<RecordView>> {
    match r {
        Some(v) => Some(records_view(v@)),
        None => None,
    }
}

/// The lines of a stored index of that root. An index that `write_index` wrote is read back.
pub fn read_index(bytes: &[u8], root: &PrefixKey) -> (r: Option<Vec<Record>>)
    ensures
        read_outcome(bytes@, root@, lines_of(r)),
{
    proof {
        assert forall|lines: Seq<RecordView>| plain(#[trigger] index_json(root@, lines), 100)
            && index_of(index_json(root@, lines), root@) == Some(lines) by {
            lemma_index_read_back(root@, lines);
        }
        assert forall|lines: Seq<RecordView>| bytes@ == #[trigger] index_bytes(root@, lines) implies {
            &&& plain(index_json(root@, lines), 100)
            &&& bytes@ == encode_utf8(compact(index_json(root@, lines)))
        } by {}
    }
    let j = parse(bytes)?;
    let fields: [&'static str; 3] = INDEX_FIELDS;
    if repeats_member(bytes, &j, fields.as_slice()) {
        return None;
    }
    let f = j.field(3, 0, "format")?;
    let k = j.field(3, 1, "root")?;
    let objects = j.field(3, 2, "objects")?;
    let right: bool = match f.as_u64() {
        Some(n) => n == FORMAT as u64,
        None => false,
    };
    let same: bool = match k.as_str() {
        Some(s) => match PrefixKey::parse(s) {
            Some(p) => p == *root,
            None => false,
        },
        None => false,
    };
    if !right || !same {
        return None;
    }
    read_records(objects)
}

proof fn lemma_index_read_back(root: Seq<u8>, lines: Seq<RecordView>)
    requires
        root.len() == 16,
    ensures
        plain(index_json(root, lines), 100),
        index_of(index_json(root, lines), root) == Some(lines),
{
    reveal_strlit("format");
    reveal_strlit("root");
    reveal_strlit("objects");
    let e = Seq::<MemberView>::empty();
    let a = entry("format"@, number_view(FORMAT as nat));
    let b = entry("root"@, JsonView::Text(hex_text(root)));
    let items = record_items(lines);
    let c = entry("objects"@, JsonView::Array(items));
    assert("format"@.len() == 6 && "root"@.len() == 4 && "objects"@.len() == 7);
    lemma_member_push(e, a, "format"@);
    lemma_member_push(e.push(a), b, "format"@);
    lemma_member_push(e.push(a).push(b), c, "format"@);
    lemma_member_push(e, a, "root"@);
    lemma_member_push(e.push(a), b, "root"@);
    lemma_member_push(e.push(a).push(b), c, "root"@);
    lemma_member_push(e, a, "objects"@);
    lemma_member_push(e.push(a), b, "objects"@);
    lemma_member_push(e.push(a).push(b), c, "objects"@);
    law_hex_round_trip(root);
    law_decimal_round_trip(FORMAT as nat);
    assert forall|i: int| 0 <= i < items.len() implies #[trigger] record_of(items[i]) == Some(
        lines[i],
    ) by {
        let r = lines[i];
        law_decimal_round_trip(r.last_used as nat);
        law_decimal_round_trip(r.seq as nat);
        let w = record_json(r)->Array_0;
        assert(w[1] == number_view(r.last_used as nat) && w[2] == number_view(r.seq as nat));
        assert(record_of(items[i])->0 =~= r);
    }
    let j = index_json(root, lines);
    assert(index_of(j, root)->0 =~= lines);
    let all = j->Object_0;
    assert(plain(number_view(FORMAT as nat), 99)) by {
        assert(decimal(FORMAT as u64 as nat) == decimal(FORMAT as nat));
    }
    assert(plain(JsonView::Array(items), 99)) by {
        assert forall|i: int| 0 <= i < items.len() implies plain(#[trigger] items[i], 98) by {
            let r = lines[i];
            let w = record_json(r)->Array_0;
            assert(plain(w[0], 97));
            assert(plain(w[1], 97)) by {
                assert(w[1]->Number_0 == decimal(r.last_used as nat));
            }
            assert(plain(w[2], 97)) by {
                assert(w[2]->Number_0 == decimal(r.seq as nat));
            }
            assert(w.len() == 3);
            assert forall|q: int| 0 <= q < w.len() implies plain(#[trigger] w[q], 97) by {
                assert(q == 0 || q == 1 || q == 2);
            }
        }
    }
    assert(all[0] == a && all[1] == b && all[2] == c && all.len() == 3);
    assert forall|i: int| 0 <= i < all.len() implies plain((#[trigger] all[i]).value, 99) by {
        assert(i == 0 || i == 1 || i == 2);
        assert(plain(b.value, 99));
    }
    assert forall|i: int, k: int| 0 <= i < k < all.len() implies (#[trigger] all[i]).key != (
    #[trigger] all[k]).key by {
        assert(i == 0 || i == 1);
        assert(k == 1 || k == 2);
    }
}

/// The line of an object: the last one of its name.
pub open spec fn line_for(lines: Seq<RecordView>, name: Seq<char>) -> Option<RecordView>
    decreases lines.len(),
{
    if lines.len() == 0 {
        None
    } else if lines.last().name == name {
        Some(lines.last())
    } else {
        line_for(lines.drop_last(), name)
    }
}

/// The LRU position of an object: that of its line, 0 without one.
pub open spec fn stored_seq(lines: Seq<RecordView>, m: MetaView) -> u64 {
    match line_for(lines, m.name()) {
        Some(r) => r.seq,
        None => 0,
    }
}

/// Whether `a` was used before `b`: by the stored position, then by the time in the header, then
/// by name.
pub open spec fn older(lines: Seq<RecordView>, a: MetaView, b: MetaView) -> bool {
    let x = stored_seq(lines, a);
    let y = stored_seq(lines, b);
    x < y || (x == y && (a.last_used < b.last_used || (a.last_used == b.last_used && before(
        a.name(),
        b.name(),
    ))))
}

/// No object comes after one that it is older than.
pub open spec fn in_age_order(s: Seq<MetaView>, lines: Seq<RecordView>) -> bool {
    forall|i: int, j: int|
        0 <= i < j < s.len() ==> !older(lines, #[trigger] s[j], #[trigger] s[i])
}

/// The objects with the times of last use that their lines give.
pub open spec fn taken_up(s: Seq<MetaView>, lines: Seq<RecordView>) -> Seq<MetaView> {
    Seq::new(
        s.len(),
        |i: int|
            match line_for(lines, s[i].name()) {
                Some(r) => s[i].used_at(r.last_used),
                None => s[i],
            },
    )
}

/// An object with what it is sorted by.
struct Aged {
    seq: u64,
    name: Vec<char>,
    meta: ObjectMeta,
}

spec fn aged_metas(v: Seq<Aged>) -> Seq<MetaView> {
    Seq::new(v.len(), |i: int| v[i].meta@)
}

spec fn aged_right(a: Aged, lines: Seq<RecordView>) -> bool {
    a.seq == stored_seq(lines, a.meta@) && a.name@ == a.meta@.name()
}

fn find_line(lines: &Vec<Record>, name: &str) -> (r: Option<usize>)
    ensures
        match r {
            Some(i) => i < lines@.len() && line_for(records_view(lines@), name@) == Some(
                lines@[i as int]@,
            ),
            None => line_for(records_view(lines@), name@) is None,
        },
{
    let ghost all = records_view(lines@);
    let mut n: usize = lines.len();
    assert(all.subrange(0, n as int) =~= all);
    while n > 0
        invariant
            n <= lines@.len(),
            all == records_view(lines@),
            line_for(all, name@) == line_for(all.subrange(0, n as int), name@),
        decreases n,
    {
        let ghost part = all.subrange(0, n as int);
        assert(part.last() == lines@[n - 1]@);
        if str_eq(lines[n - 1].name.as_str(), name) {
            return Some(n - 1);
        }
        assert(part.drop_last() =~= all.subrange(0, n - 1));
        n = n - 1;
    }
    None
}

fn is_older(a: &Aged, b: &Aged, Ghost(lines): Ghost<Seq<RecordView>>) -> (r: bool)
    requires
        aged_right(*a, lines),
        aged_right(*b, lines),
    ensures
        r == older(lines, a.meta@, b.meta@),
{
    a.seq < b.seq || (a.seq == b.seq && (a.meta.last_used < b.meta.last_used || (a.meta.last_used
        == b.meta.last_used && is_before(a.name.as_slice(), b.name.as_slice()))))
}

proof fn lemma_older_transitive(lines: Seq<RecordView>, a: MetaView, b: MetaView, c: MetaView)
    requires
        !older(lines, b, a),
        !older(lines, c, b),
    ensures
        !older(lines, c, a),
{
    law_before_total(a.name(), b.name());
    law_before_total(b.name(), c.name());
    law_before_total(a.name(), c.name());
    if older(lines, c, a) && before(c.name(), a.name()) {
        if before(a.name(), b.name()) {
            law_before_transitive(c.name(), a.name(), b.name());
        }
    }
}

proof fn lemma_insert_multiset(s: Seq<MetaView>, i: int, m: MetaView)
    requires
        0 <= i <= s.len(),
    ensures
        s.insert(i, m).to_multiset() == s.to_multiset().insert(m),
{
    let t = s.insert(i, m);
    t.to_multiset_ensures();
    s.to_multiset_ensures();
    assert(t.remove(i) =~= s);
    assert(t.contains(t[i]));
    assert(t.to_multiset() =~= s.to_multiset().insert(m));
}

/// The objects from the oldest to the most recently used.
pub fn sort_by_age(v: Vec<ObjectMeta>, lines: &Vec<Record>) -> (r: Vec<ObjectMeta>)
    ensures
        metas(r@).to_multiset() == metas(v@).to_multiset(),
        in_age_order(metas(r@), records_view(lines@)),
{
    let ghost lv = records_view(lines@);
    let n: usize = v.len();
    let mut sorted: Vec<Aged> = Vec::new();
    let mut i: usize = 0;
    assert(aged_metas(sorted@) =~= metas(v@).subrange(0, 0));
    while i < n
        invariant
            i <= n,
            n == v@.len(),
            lv == records_view(lines@),
            sorted@.len() == i,
            forall|k: int| 0 <= k < sorted@.len() ==> aged_right(#[trigger] sorted@[k], lv),
            in_age_order(aged_metas(sorted@), lv),
            aged_metas(sorted@).to_multiset() == metas(v@).subrange(0, i as int).to_multiset(),
        decreases n - i,
    {
        let meta = v[i].duplicate();
        let text = meta.name();
        let seq: u64 = match find_line(lines, text.as_str()) {
            Some(k) => lines[k].seq,
            None => 0,
        };
        let x = Aged { seq, name: to_chars(text.as_str()), meta };
        let ghost s = aged_metas(sorted@);
        let ghost m = x.meta@;
        let mut pos: usize = i;
        while pos > 0 && is_older(&x, &sorted[pos - 1], Ghost(lv))
            invariant
                pos <= i,
                i == sorted@.len(),
                aged_right(x, lv),
                m == x.meta@,
                s == aged_metas(sorted@),
                forall|k: int| 0 <= k < sorted@.len() ==> aged_right(#[trigger] sorted@[k], lv),
                forall|k: int| pos <= k < i ==> older(lv, m, #[trigger] s[k]),
            decreases pos,
        {
            assert(s[pos - 1] == sorted@[pos - 1].meta@);
            pos = pos - 1;
        }
        proof {
            if pos > 0 {
                assert(s[pos - 1] == sorted@[pos - 1].meta@);
                assert(!older(lv, m, s[pos - 1]));
            }
        }
        sorted.insert(pos, x);
        proof {
            let t = aged_metas(sorted@);
            assert(t =~= s.insert(pos as int, m));
            lemma_insert_multiset(s, pos as int, m);
            let part = metas(v@).subrange(0, i as int);
            part.to_multiset_ensures();
            assert(metas(v@).subrange(0, i + 1) =~= part.push(m));
            assert forall|a: int, b: int| 0 <= a < b < t.len() implies !older(
                lv,
                #[trigger] t[b],
                #[trigger] t[a],
            ) by {
                if b < pos {
                    assert(t[a] == s[a] && t[b] == s[b]);
                } else if b == pos {
                    assert(t[a] == s[a]);
                    if a < pos - 1 {
                        assert(!older(lv, s[pos - 1], s[a]));
                        lemma_older_transitive(lv, s[a], s[pos - 1], m);
                    }
                } else if a < pos {
                    assert(t[a] == s[a] && t[b] == s[b - 1]);
                } else if a == pos {
                    assert(t[b] == s[b - 1]);
                    lemma_older_asymmetric(lv, m, s[b - 1]);
                } else {
                    assert(t[a] == s[a - 1] && t[b] == s[b - 1]);
                }
            }
            assert forall|k: int| 0 <= k < sorted@.len() implies aged_right(
                #[trigger] sorted@[k],
                lv,
            ) by {}
        }
        i = i + 1;
    }
    let mut r: Vec<ObjectMeta> = Vec::new();
    let mut k: usize = 0;
    while k < n
        invariant
            k <= n,
            n == sorted@.len(),
            r@.len() == k,
            forall|q: int| 0 <= q < k ==> (#[trigger] r@[q])@ == sorted@[q].meta@,
        decreases n - k,
    {
        r.push(sorted[k].meta.duplicate());
        k = k + 1;
    }
    assert(metas(r@) =~= aged_metas(sorted@));
    assert(metas(v@).subrange(0, n as int) =~= metas(v@));
    r
}

proof fn lemma_older_asymmetric(lines: Seq<RecordView>, a: MetaView, b: MetaView)
    requires
        older(lines, a, b),
    ensures
        !older(lines, b, a),
{
    law_before_total(a.name(), b.name());
}

/// Set the times of last use that the lines give.
pub fn take_up(v: &mut Vec<ObjectMeta>, lines: &Vec<Record>)
    ensures
        metas(final(v)@) == taken_up(metas(old(v)@), records_view(lines@)),
{
    let ghost s = metas(v@);
    let ghost lv = records_view(lines@);
    let n: usize = v.len();
    let mut i: usize = 0;
    while i < n
        invariant
            i <= n,
            n == v@.len(),
            s.len() == n,
            lv == records_view(lines@),
            forall|k: int| 0 <= k < i ==> (#[trigger] v@[k])@ == taken_up(s, lv)[k],
            forall|k: int| i <= k < n ==> (#[trigger] v@[k])@ == s[k],
        decreases n - i,
    {
        let text = v[i].name();
        let mut m = v[i].duplicate();
        if let Some(k) = find_line(lines, text.as_str()) {
            m.last_used = lines[k].last_used;
        }
        assert(m@ =~= taken_up(s, lv)[i as int]);
        v.set(i, m);
        i = i + 1;
    }
    assert(metas(v@) =~= taken_up(s, lv));
}

proof fn lemma_line_for_own(s: Seq<MetaView>, q: Seq<u64>, n: int, i: int)
    requires
        0 <= i < n <= s.len(),
        forall|a: int, b: int| 0 <= a < b < s.len() ==> (#[trigger] s[a]).name() != (#[trigger] s[b]).name(),
    ensures
        line_for(records_of(s, q).subrange(0, n), s[i].name()) == Some(records_of(s, q)[i]),
    decreases n,
{
    let part = records_of(s, q).subrange(0, n);
    assert(part.last() == records_of(s, q)[n - 1]);
    if i < n - 1 {
        assert(s[i].name() != s[n - 1].name());
        assert(part.drop_last() =~= records_of(s, q).subrange(0, n - 1));
        lemma_line_for_own(s, q, n - 1, i);
    }
}

/// Names that differ in a list differ in any order of it, and nothing is lost or added.
pub proof fn lemma_reordered_names(listed: Seq<MetaView>, sorted: Seq<MetaView>)
    requires
        forall|a: int, b: int|
            0 <= a < b < listed.len() ==> (#[trigger] listed[a]).name() != (
            #[trigger] listed[b]).name(),
        sorted.to_multiset() == listed.to_multiset(),
    ensures
        sorted.len() == listed.len(),
        forall|i: int| 0 <= i < sorted.len() ==> listed.contains(#[trigger] sorted[i]),
        forall|a: int, b: int|
            0 <= a < b < sorted.len() ==> (#[trigger] sorted[a]).name() != (
            #[trigger] sorted[b]).name(),
{
    sorted.to_multiset_ensures();
    listed.to_multiset_ensures();
    assert(listed.no_duplicates()) by {
        assert forall|a: int, b: int| 0 <= a < listed.len() && 0 <= b < listed.len() && a != b implies listed[a]
            != listed[b] by {
            if a < b {
                assert(listed[a].name() != listed[b].name());
            } else {
                assert(listed[b].name() != listed[a].name());
            }
        }
    }
    listed.lemma_multiset_has_no_duplicates();
    sorted.lemma_multiset_has_no_duplicates_conv();
    assert forall|i: int| 0 <= i < sorted.len() implies listed.contains(#[trigger] sorted[i]) by {
        assert(sorted.contains(sorted[i]));
        assert(sorted.to_multiset().count(sorted[i]) > 0);
    }
    assert forall|i: int, j: int| 0 <= i < j < sorted.len() implies (#[trigger] sorted[i]).name() != (
    #[trigger] sorted[j]).name() by {
        let a = choose|a: int| 0 <= a < listed.len() && listed[a] == sorted[i];
        let b = choose|b: int| 0 <= b < listed.len() && listed[b] == sorted[j];
        if a < b {
            assert(listed[a].name() != listed[b].name());
        } else if b < a {
            assert(listed[b].name() != listed[a].name());
        }
        assert(sorted[i] != sorted[j]);
    }
}

/// An index written for a store and read back restores its order: however the backend lists the
/// objects, sorting them by the stored lines and taking up their times gives the list that the
/// lines were written for, as long as the numbers of use grow along it.
pub proof fn law_index_restores_order(
    s: Seq<MetaView>,
    q: Seq<u64>,
    listed: Seq<MetaView>,
    sorted: Seq<MetaView>,
)
    requires
        q.len() == s.len(),
        forall|i: int, j: int| 0 <= i < j < q.len() ==> #[trigger] q[i] < #[trigger] q[j],
        forall|a: int, b: int| 0 <= a < b < s.len() ==> (#[trigger] s[a]).name() != (#[trigger] s[b]).name(),
        forall|a: int, b: int|
            0 <= a < b < listed.len() ==> (#[trigger] listed[a]).name() != (
            #[trigger] listed[b]).name(),
        listed.len() == s.len(),
        forall|k: int|
            0 <= k < listed.len() ==> exists|x: int|
                0 <= x < s.len() && (#[trigger] listed[k]).used_at((#[trigger] s[x]).last_used) == s[x],
        sorted.to_multiset() == listed.to_multiset(),
        in_age_order(sorted, records_of(s, q)),
    ensures
        taken_up(sorted, records_of(s, q)) == s,
{
    let lines = records_of(s, q);
    let n = s.len();
    lemma_reordered_names(listed, sorted);
    assert(lines.subrange(0, n as int) =~= lines);
    let at = |i: int| choose|x: int| 0 <= x < n && sorted[i].used_at((#[trigger] s[x]).last_used) == s[x];
    assert forall|i: int| 0 <= i < n implies 0 <= #[trigger] at(i) < n && sorted[i].used_at(
        s[at(i)].last_used,
    ) == s[at(i)] && line_for(lines, sorted[i].name()) == Some(lines[at(i)]) by {
        assert(listed.contains(sorted[i]));
        let k = choose|k: int| 0 <= k < listed.len() && listed[k] == sorted[i];
        let x = choose|x: int|
            0 <= x < s.len() && (#[trigger] listed[k]).used_at((#[trigger] s[x]).last_used) == s[x];
        assert(sorted[i].used_at(s[x].last_used) == s[x]);
        lemma_line_for_own(s, q, n as int, at(i));
        assert(sorted[i].name() == s[at(i)].name());
    }
    assert forall|i: int, j: int| 0 <= i < j < n implies #[trigger] at(i) < #[trigger] at(j) by {
        assert(!older(lines, sorted[j], sorted[i]));
        assert(stored_seq(lines, sorted[i]) == q[at(i)]);
        assert(stored_seq(lines, sorted[j]) == q[at(j)]);
        if at(i) == at(j) {
            assert(sorted[i].name() == sorted[j].name());
        }
    }
    assert forall|i: int| 0 <= i < n implies #[trigger] at(i) == i by {
        lemma_increasing_is_identity(at, n as int, i);
    }
    assert(taken_up(sorted, lines) =~= s) by {
        assert forall|i: int| 0 <= i < n implies taken_up(sorted, lines)[i] == s[i] by {
            assert(at(i) == i);
        }
    }
}

/// A strictly increasing map of `0..n` into itself is the identity.
proof fn lemma_increasing_is_identity(f: spec_fn(int) -> int, n: int, i: int)
    requires
        0 <= i < n,
        forall|a: int| 0 <= a < n ==> 0 <= #[trigger] f(a) < n,
        forall|a: int, b: int| 0 <= a < b < n ==> #[trigger] f(a) < #[trigger] f(b),
    ensures
        f(i) == i,
{
    lemma_increasing_low(f, n, i);
    lemma_increasing_high(f, n, i);
}

proof fn lemma_increasing_low(f: spec_fn(int) -> int, n: int, i: int)
    requires
        0 <= i < n,
        forall|a: int| 0 <= a < n ==> 0 <= #[trigger] f(a) < n,
        forall|a: int, b: int| 0 <= a < b < n ==> #[trigger] f(a) < #[trigger] f(b),
    ensures
        f(i) >= i,
    decreases i,
{
    if i > 0 {
        lemma_increasing_low(f, n, i - 1);
        assert(f(i - 1) < f(i));
    } else {
        assert(f(0) >= 0);
    }
}

proof fn lemma_increasing_high(f: spec_fn(int) -> int, n: int, i: int)
    requires
        0 <= i < n,
        forall|a: int| 0 <= a < n ==> 0 <= #[trigger] f(a) < n,
        forall|a: int, b: int| 0 <= a < b < n ==> #[trigger] f(a) < #[trigger] f(b),
    ensures
        f(i) <= i,
    decreases n - i,
{
    if i < n - 1 {
        lemma_increasing_high(f, n, i + 1);
        assert(f(i) < f(i + 1));
    } else {
        assert(f(i) < n);
    }
}

} // verus!
