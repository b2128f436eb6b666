//! The storage backend: a blob store keyed by object name. `MemBackend` keeps the blobs in
//! memory; others implement the same trait over files or a network.
use crate::object::{MetaView, ObjectMeta};
use crate::text::{
    before, chars_eq, concat, is_before, law_before_total, law_before_transitive, owned,
    push_decimal, push_text, texts, to_chars,
};
use vstd::prelude::*;

verus! {

/// A stored object: its metadata and its body.
#[verifier::ext_equal]
pub struct Blob {
    pub meta: MetaView,
    pub body: Seq<u8>,
}

/// The metadata in a list.
pub open spec fn metas(v: Seq<ObjectMeta>) -> Seq<MetaView> {
    Seq::new(v.len(), |i: int| v[i]@)
}

/// Whether `v` holds the metadata of every object once and of nothing else.
pub open spec fn lists(v: Seq<MetaView>, objects: Map<Seq<char>, Blob>) -> bool {
    &&& forall|i: int, j: int|
        0 <= i < j < v.len() ==> (#[trigger] v[i]).name() != (#[trigger] v[j]).name()
    &&& forall|i: int|
        0 <= i < v.len() ==> objects.dom().contains((#[trigger] v[i]).name()) && objects[v[i].name()].meta
            == v[i]
    &&& forall|n: Seq<char>| #[trigger]
        objects.dom().contains(n) ==> exists|i: int| 0 <= i < v.len() && (#[trigger] v[i]).name() == n
}

/// A blob store. Every operation may fail; a failed one leaves the objects as they were.
///
/// The ghost functions model what a store holds. An implementation that stands outside the proofs
/// has no use for them and leaves them as they are.
pub trait Backend: Sized {
    /// The representation is intact.
    open spec fn sound(&self) -> bool {
        true
    }

    /// The stored objects by name.
    open spec fn objects(&self) -> Map<Seq<char>, Blob> {
        arbitrary()
    }

    /// The stored index, if one was stored.
    open spec fn stored_index(&self) -> Option<Seq<u8>> {
        arbitrary()
    }

    /// Where the data lives.
    open spec fn place(&self) -> Seq<char> {
        arbitrary()
    }

    /// Store `body` under `meta.name()`, atomically (a reader never sees a partial object).
    fn put(&mut self, meta: &ObjectMeta, body: &[u8]) -> (r: Result<(), String>)
        requires
            old(self).sound(),
        ensures
            final(self).sound(),
            final(self).stored_index() == old(self).stored_index(),
            final(self).place() == old(self).place(),
            r is Ok ==> body@.len() == meta.bytes && final(self).objects() == old(self).objects().insert(
                meta@.name(),
                (Blob { meta: meta@, body: body@ }),
            ),
            r is Err ==> final(self).objects() == old(self).objects(),
    ;

    /// Read the object `name` into `body` (whose length must equal the stored `bytes`); returns
    /// the stored metadata.
    fn get(&mut self, name: &str, body: &mut [u8]) -> (r: Result<ObjectMeta, String>)
        requires
            old(self).sound(),
        ensures
            final(self).sound(),
            final(self).objects() == old(self).objects(),
            final(self).stored_index() == old(self).stored_index(),
            final(self).place() == old(self).place(),
            final(body)@.len() == old(body)@.len(),
            r matches Ok(m) ==> old(self).objects().dom().contains(name@) && m@ == old(self).objects()[name@].meta && final(body)@ == old(self).objects()[name@].body,
    ;

    /// Remove `name`; not an error when it does not exist.
    fn delete(&mut self, name: &str) -> (r: Result<(), String>)
        requires
            old(self).sound(),
        ensures
            final(self).sound(),
            final(self).stored_index() == old(self).stored_index(),
            final(self).place() == old(self).place(),
            r is Ok ==> final(self).objects() == old(self).objects().remove(name@),
            r is Err ==> final(self).objects() == old(self).objects(),
    ;

    /// The metadata of every object (headers only), in any order.
    fn list(&mut self) -> (r: Result<Vec<ObjectMeta>, String>)
        requires
            old(self).sound(),
        ensures
            final(self).sound(),
            final(self).objects() == old(self).objects(),
            final(self).stored_index() == old(self).stored_index(),
            final(self).place() == old(self).place(),
            r matches Ok(v) ==> lists(metas(v@), old(self).objects()),
    ;

    /// Store the serialized index (informational: LRU order and hit times).
    fn put_index(&mut self, json: &[u8]) -> (r: Result<(), String>)
        requires
            old(self).sound(),
        ensures
            final(self).sound(),
            final(self).objects() == old(self).objects(),
            final(self).place() == old(self).place(),
            r is Ok ==> final(self).stored_index() == Some(json@),
            r is Err ==> final(self).stored_index() == old(self).stored_index(),
    ;

    /// The serialized index, if one was stored.
    fn get_index(&mut self) -> (r: Result<Option<Vec<u8>>, String>)
        requires
            old(self).sound(),
        ensures
            final(self).sound(),
            final(self).objects() == old(self).objects(),
            final(self).stored_index() == old(self).stored_index(),
            final(self).place() == old(self).place(),
            r matches Ok(v) ==> match v {
                Some(b) => old(self).stored_index() == Some(b@),
                None => old(self).stored_index() is None,
            },
    ;

    /// Where the data lives, for log lines.
    fn describe(&self) -> (s: String)
        ensures
            s@ == self.place(),
    ;
}

/// Whether `r` is what a backend in that state may answer to that write.
pub open spec fn write_answers<B: Backend>(
    at: B,
    meta: MetaView,
    body: Seq<u8>,
    r: Result<(), String>,
) -> bool {
    exists|s: &mut B, m: &ObjectMeta, b: &[u8]|
        *s == at && m@ == meta && b@ == body && #[trigger] call_ensures(B::put, (s, m, b), r)
}

/// Whether a backend in that state may take that write.
pub open spec fn write_taken<B: Backend>(at: B, meta: MetaView, body: Seq<u8>) -> bool {
    exists|r: Result<(), String>| r is Ok && #[trigger] write_answers(at, meta, body, r)
}

/// Whether `e` is an error with which a backend in that state may refuse to read that object into
/// a buffer of that length.
pub open spec fn read_fails<B: Backend>(at: B, name: Seq<char>, len: nat, e: String) -> bool {
    exists|s: &mut B, n: &str, b: &mut [u8]|
        *s == at && n@ == name && b@.len() == len && #[trigger] call_ensures(
            B::get,
            (s, n, b),
            Err::<ObjectMeta, String>(e),
        )
}

/// Whether `e` is an error with which a backend in that state may refuse to list its objects.
pub open spec fn listing_fails<B: Backend>(at: B, e: String) -> bool {
    exists|s: &mut B| *s == at && #[trigger] call_ensures(
        B::list,
        (s,),
        Err::<Vec<ObjectMeta>, String>(e),
    )
}

/// Whether `e` is an error with which a backend in that state may refuse to delete that object.
pub open spec fn deletion_fails<B: Backend>(at: B, name: Seq<char>, e: String) -> bool {
    exists|s: &mut B, n: &str| *s == at && n@ == name && #[trigger] call_ensures(
        B::delete,
        (s, n),
        Err::<(), String>(e),
    )
}

/// Whether `e` is an error with which a backend in that state may refuse to store that index.
pub open spec fn index_fails<B: Backend>(at: B, json: Seq<u8>, e: String) -> bool {
    exists|s: &mut B, b: &[u8]| *s == at && b@ == json && #[trigger] call_ensures(
        B::put_index,
        (s, b),
        Err::<(), String>(e),
    )
}

/// Whether `e` is an error with which a backend in that state may refuse to give out its index.
pub open spec fn index_withheld<B: Backend>(at: B, e: String) -> bool {
    exists|s: &mut B| *s == at && #[trigger] call_ensures(
        B::get_index,
        (s,),
        Err::<Option<Vec<u8>>, String>(e),
    )
}

/// Whether `index` is what a reader may get of the index that a backend holds: the index, or
/// nothing where the backend refuses to give it out.
pub open spec fn index_given<B: Backend>(at: B, index: Option<Seq<u8>>) -> bool {
    index == at.stored_index() || (index is None && exists|e: String| #[trigger] index_withheld(at, e))
}

/// An object in memory.
pub struct Stored {
    name: Vec<char>,
    meta: ObjectMeta,
    body: Vec<u8>,
}

impl Stored {
    pub closed spec fn text(&self) -> Seq<char> {
        self.name@
    }

    pub closed spec fn blob(&self) -> Blob {
        Blob { meta: self.meta@, body: self.body@ }
    }
}

/// The objects in the order of their names, and the index.
pub struct MemStore {
    objects: Vec<Stored>,
    index: Option<Vec<u8>>,
}

/// In-memory backend.
pub struct MemBackend {
    pub kept: MemStore,
    /// Make the next `put` fail.
    pub fail_next_put: bool,
}

/// Whether some object has that name.
spec fn has_name(v: Seq<Stored>, n: Seq<char>) -> bool {
    exists|i: int| 0 <= i < v.len() && (#[trigger] v[i]).text() == n
}

/// The position of the object with that name.
spec fn place_of(v: Seq<Stored>, n: Seq<char>) -> int {
    choose|i: int| 0 <= i < v.len() && (#[trigger] v[i]).text() == n
}

/// The names increase strictly.
spec fn in_name_order(v: Seq<Stored>) -> bool {
    forall|i: int, j: int|
        0 <= i < j < v.len() ==> before((#[trigger] v[i]).text(), (#[trigger] v[j]).text())
}

spec fn contents(v: Seq<Stored>) -> Map<Seq<char>, Blob> {
    Map::new(|n: Seq<char>| has_name(v, n), |n: Seq<char>| v[place_of(v, n)].blob())
}

proof fn lemma_contents_at(v: Seq<Stored>, i: int)
    requires
        in_name_order(v),
        0 <= i < v.len(),
    ensures
        contents(v).dom().contains(v[i].text()),
        contents(v)[v[i].text()] == v[i].blob(),
{
    let n = v[i].text();
    assert(has_name(v, n));
    let k = place_of(v, n);
    if k != i {
        law_before_total(v[i].text(), v[k].text());
        if k < i {
            assert(before(v[k].text(), v[i].text()));
        } else {
            assert(before(v[i].text(), v[k].text()));
        }
    }
}

impl MemBackend {
    /// The stored objects by name.
    pub closed spec fn held(&self) -> Map<Seq<char>, Blob> {
        contents(self.kept.objects@)
    }

    /// The stored index.
    pub closed spec fn index_view(&self) -> Option<Seq<u8>> {
        match self.kept.index {
            Some(b) => Some(b@),
            None => None,
        }
    }

    /// The objects stand in the order of their names, each under its own name.
    pub closed spec fn ordered(&self) -> bool {
        &&& in_name_order(self.kept.objects@)
        &&& forall|i: int|
            0 <= i < self.kept.objects@.len() ==> (#[trigger] self.kept.objects@[i]).text()
                == self.kept.objects@[i].blob().meta.name()
    }

    /// Whether the next `put` fails.
    pub open spec fn fails_next(&self) -> bool {
        self.fail_next_put
    }

    /// How many objects there are.
    pub closed spec fn count(&self) -> nat {
        self.kept.objects@.len()
    }

    /// An empty store.
    pub fn new() -> (b: MemBackend)
        ensures
            b.sound(),
            b.objects() == Map::<Seq<char>, Blob>::empty(),
            b.stored_index() is None,
            b.count() == 0,
            !b.fails_next(),
    {
        let b = MemBackend {
            kept: MemStore { objects: Vec::new(), index: None },
            fail_next_put: false,
        };
        assert(b.objects() =~= Map::<Seq<char>, Blob>::empty());
        b
    }

    /// How many objects are stored.
    pub fn len(&self) -> (n: usize)
        ensures
            n == self.count(),
    {
        self.kept.objects.len()
    }

    pub fn is_empty(&self) -> (r: bool)
        ensures
            r == (self.count() == 0),
    {
        self.kept.objects.len() == 0
    }

    /// The names of the objects, in order.
    pub fn names(&self) -> (v: Vec<String>)
        requires
            self.sound(),
        ensures
            v@.len() == self.count(),
            forall|i: int, j: int| 0 <= i < j < v@.len() ==> before(#[trigger] v@[i]@, #[trigger] v@[j]@),
            forall|n: Seq<char>| #[trigger] self.objects().dom().contains(n) <==> texts(v@).contains(n),
    {
        let mut v: Vec<String> = Vec::new();
        let n: usize = self.kept.objects.len();
        let mut i: usize = 0;
        while i < n
            invariant
                i <= n,
                n == self.kept.objects@.len(),
                v@.len() == i,
                forall|k: int| 0 <= k < i ==> #[trigger] v@[k]@ == self.kept.objects@[k].text(),
            decreases n - i,
        {
            v.push(crate::text::from_chars(self.kept.objects[i].name.as_slice()));
            i = i + 1;
        }
        proof {
            assert forall|m: Seq<char>| #[trigger]
                self.objects().dom().contains(m) implies texts(v@).contains(m) by {
                let k = place_of(self.kept.objects@, m);
                assert(texts(v@)[k] == m);
            }
            assert forall|m: Seq<char>| texts(v@).contains(m) implies #[trigger] self.objects().dom().contains(
                m,
            ) by {
                let k = choose|k: int| 0 <= k < texts(v@).len() && texts(v@)[k] == m;
                assert(v@[k]@ == self.kept.objects@[k].text());
                assert(has_name(self.kept.objects@, m));
            }
        }
        v
    }

    /// Where the object of that name stands, or where it would.
    fn locate(&self, name: &[char]) -> (r: (usize, bool))
        requires
            in_name_order(self.kept.objects@),
        ensures
            r.0 <= self.kept.objects@.len(),
            forall|j: int| 0 <= j < r.0 ==> before((#[trigger] self.kept.objects@[j]).text(), name@),
            r.1 == has_name(self.kept.objects@, name@),
            r.1 ==> r.0 < self.kept.objects@.len() && self.kept.objects@[r.0 as int].text() == name@,
            !r.1 ==> forall|j: int|
                r.0 <= j < self.kept.objects@.len() ==> before(name@, (#[trigger] self.kept.objects@[j]).text()),
    {
        let n: usize = self.kept.objects.len();
        let mut i: usize = 0;
        while i < n && is_before(self.kept.objects[i].name.as_slice(), name)
            invariant
                i <= n,
                n == self.kept.objects@.len(),
                forall|j: int| 0 <= j < i ==> before((#[trigger] self.kept.objects@[j]).text(), name@),
            decreases n - i,
        {
            i = i + 1;
        }
        let found: bool = i < n && chars_eq(self.kept.objects[i].name.as_slice(), name);
        proof {
            let v = self.kept.objects@;
            if found {
                assert(v[i as int].text() == name@);
                assert(has_name(v, name@));
            } else {
                if i < n {
                    law_before_total(v[i as int].text(), name@);
                }
                assert forall|j: int| i <= j < v.len() implies before(
                    name@,
                    (#[trigger] v[j]).text(),
                ) by {
                    if j > i {
                        assert(before(v[i as int].text(), v[j].text()));
                        law_before_transitive(name@, v[i as int].text(), v[j].text());
                    }
                }
                if has_name(v, name@) {
                    let k = place_of(v, name@);
                    law_before_total(v[k].text(), name@);
                }
            }
        }
        (i, found)
    }
}

impl Default for MemBackend {
    fn default() -> (b: MemBackend)
        ensures
            b.sound(),
            b.objects() == Map::<Seq<char>, Blob>::empty(),
            b.stored_index() is None,
            b.count() == 0,
            !b.fails_next(),
    {
        MemBackend::new()
    }
}

/// A copy of some bytes.
pub(crate) fn copy_bytes(t: &[u8]) -> (v: Vec<u8>)
    ensures
        v@ == t@,
{
    let mut v: Vec<u8> = Vec::new();
    let n: usize = t.len();
    let mut i: usize = 0;
    while i < n
        invariant
            i <= n,
            n == t@.len(),
            v@ == t@.subrange(0, i as int),
        decreases n - i,
    {
        v.push(t[i]);
        i = i + 1;
    }
    v
}

impl Backend for MemBackend {
    open spec fn sound(&self) -> bool {
        self.ordered()
    }

    open spec fn objects(&self) -> Map<Seq<char>, Blob> {
        self.held()
    }

    open spec fn stored_index(&self) -> Option<Seq<u8>> {
        self.index_view()
    }

    open spec fn place(&self) -> Seq<char> {
        "memory"@
    }

    /// Fails when a failure was asked for, and when the body is not as long as the metadata says.
    fn put(&mut self, meta: &ObjectMeta, body: &[u8]) -> (r: Result<(), String>)
        ensures
            r is Ok <==> !old(self).fails_next() && body@.len() == meta.bytes,
            !final(self).fails_next(),
    {
        if self.fail_next_put {
            self.fail_next_put = false;
            return Err(owned("injected put failure"));
        }
        if body.len() as u64 != meta.bytes {
            let mut e = owned("body is ");
            push_decimal(&mut e, body.len() as u64);
            push_text(&mut e, " bytes, header says ");
            push_decimal(&mut e, meta.bytes);
            return Err(e);
        }
        let text = meta.name();
        let name = to_chars(text.as_str());
        let (i, found) = self.locate(name.as_slice());
        let ghost n = name@;
        let ghost blob = Blob { meta: meta@, body: body@ };
        let ghost old_v = self.kept.objects@;
        let stored = Stored { name, meta: meta.duplicate(), body: copy_bytes(body) };
        if found {
            self.kept.objects.set(i, stored);
            proof {
                let v = self.kept.objects@;
                assert forall|a: int, b: int| 0 <= a < b < v.len() implies before(
                    (#[trigger] v[a]).text(),
                    (#[trigger] v[b]).text(),
                ) by {
                    assert(v[a].text() == old_v[a].text() && v[b].text() == old_v[b].text());
                }
                lemma_replaced(old_v, v, i as int, n);
            }
        } else {
            self.kept.objects.insert(i, stored);
            proof {
                let v = self.kept.objects@;
                assert(v =~= old_v.insert(i as int, stored));
                assert forall|a: int, b: int| 0 <= a < b < v.len() implies before(
                    (#[trigger] v[a]).text(),
                    (#[trigger] v[b]).text(),
                ) by {
                    if a < i && b < i {
                        assert(v[a] == old_v[a] && v[b] == old_v[b]);
                    } else if a < i && b == i {
                        assert(v[a] == old_v[a]);
                    } else if a < i {
                        assert(v[a] == old_v[a] && v[b] == old_v[b - 1]);
                    } else if a == i {
                        assert(v[b] == old_v[b - 1]);
                    } else {
                        assert(v[a] == old_v[a - 1] && v[b] == old_v[b - 1]);
                    }
                }
                assert forall|k: int| 0 <= k < v.len() implies (#[trigger] v[k]).text()
                    == v[k].blob().meta.name() by {
                    if k < i {
                        assert(v[k] == old_v[k]);
                    } else if k > i {
                        assert(v[k] == old_v[k - 1]);
                    }
                }
                lemma_inserted(old_v, v, i as int, n);
            }
        }
        Ok(())
    }

    /// Fails when there is no such object, and when the buffer is not as long as its body.
    fn get(&mut self, name: &str, body: &mut [u8]) -> (r: Result<ObjectMeta, String>)
        ensures
            r is Ok <==> old(self).objects().dom().contains(name@) && old(self).objects()[name@].body.len() == old(body)@.len(),
            final(self).fails_next() == old(self).fails_next(),
            r is Err ==> final(body)@ == old(body)@,
    {
        let chars = to_chars(name);
        let (i, found) = self.locate(chars.as_slice());
        if !found {
            return Err(concat("no object ", name));
        }
        proof {
            lemma_contents_at(self.kept.objects@, i as int);
        }
        let n: usize = self.kept.objects[i].body.len();
        if n != body.len() {
            let mut e = concat("object ", name);
            push_text(&mut e, " is ");
            push_decimal(&mut e, n as u64);
            push_text(&mut e, " bytes, buffer ");
            push_decimal(&mut e, body.len() as u64);
            return Err(e);
        }
        let mut k: usize = 0;
        while k < n
            invariant
                k <= n,
                i < self.kept.objects@.len(),
                n == self.kept.objects@[i as int].body@.len(),
                body@.len() == n,
                forall|j: int| 0 <= j < k ==> body@[j] == self.kept.objects@[i as int].body@[j],
            decreases n - k,
        {
            body[k] = self.kept.objects[i].body[k];
            k = k + 1;
        }
        assert(body@ =~= self.kept.objects@[i as int].body@);
        Ok(self.kept.objects[i].meta.duplicate())
    }

    fn delete(&mut self, name: &str) -> (r: Result<(), String>)
        ensures
            r is Ok,
            final(self).fails_next() == old(self).fails_next(),
    {
        let chars = to_chars(name);
        let (i, found) = self.locate(chars.as_slice());
        let ghost old_v = self.kept.objects@;
        if found {
            self.kept.objects.remove(i);
            proof {
                let v = self.kept.objects@;
                assert(v =~= old_v.remove(i as int));
                assert forall|a: int, b: int| 0 <= a < b < v.len() implies before(
                    (#[trigger] v[a]).text(),
                    (#[trigger] v[b]).text(),
                ) by {
                    let x = if a < i { a } else { a + 1 };
                    let y = if b < i { b } else { b + 1 };
                    assert(v[a] == old_v[x] && v[b] == old_v[y]);
                }
                assert forall|k: int| 0 <= k < v.len() implies (#[trigger] v[k]).text()
                    == v[k].blob().meta.name() by {
                    let x = if k < i { k } else { k + 1 };
                    assert(v[k] == old_v[x]);
                }
                lemma_removed(old_v, v, i as int, name@);
            }
        } else {
            assert(self.objects() =~= old(self).objects().remove(name@));
        }
        Ok(())
    }

    fn list(&mut self) -> (r: Result<Vec<ObjectMeta>, String>)
        ensures
            r is Ok,
            *final(self) == *old(self),
    {
        let mut v: Vec<ObjectMeta> = Vec::new();
        let n: usize = self.kept.objects.len();
        let mut i: usize = 0;
        while i < n
            invariant
                i <= n,
                n == self.kept.objects@.len(),
                v@.len() == i,
                forall|k: int| 0 <= k < i ==> (#[trigger] v@[k])@ == self.kept.objects@[k].blob().meta,
            decreases n - i,
        {
            v.push(self.kept.objects[i].meta.duplicate());
            i = i + 1;
        }
        proof {
            let m = metas(v@);
            let o = self.kept.objects@;
            assert forall|k: int| 0 <= k < m.len() implies (#[trigger] m[k]).name() == o[k].text()
                && m[k] == o[k].blob().meta by {
                assert(v@[k]@ == o[k].blob().meta);
            }
            assert forall|a: int, b: int| 0 <= a < b < m.len() implies (#[trigger] m[a]).name() != (
            #[trigger] m[b]).name() by {
                assert(before(o[a].text(), o[b].text()));
                law_before_total(o[a].text(), o[b].text());
            }
            assert forall|k: int| 0 <= k < m.len() implies self.objects().dom().contains(
                (#[trigger] m[k]).name(),
            ) && self.objects()[m[k].name()].meta == m[k] by {
                lemma_contents_at(o, k);
            }
            assert forall|t: Seq<char>| #[trigger] self.objects().dom().contains(t) implies exists|
                k: int,
            | 0 <= k < m.len() && (#[trigger] m[k]).name() == t by {
                let k = place_of(o, t);
                assert(m[k].name() == t);
            }
        }
        Ok(v)
    }

    fn put_index(&mut self, json: &[u8]) -> (r: Result<(), String>)
        ensures
            r is Ok,
            final(self).fails_next() == old(self).fails_next(),
    {
        self.kept.index = Some(copy_bytes(json));
        Ok(())
    }

    fn get_index(&mut self) -> (r: Result<Option<Vec<u8>>, String>)
        ensures
            r is Ok,
            *final(self) == *old(self),
    {
        match &self.kept.index {
            Some(b) => Ok(Some(copy_bytes(b.as_slice()))),
            None => Ok(None),
        }
    }

    fn describe(&self) -> String {
        owned("memory")
    }
}

proof fn lemma_replaced(old_v: Seq<Stored>, v: Seq<Stored>, i: int, n: Seq<char>)
    requires
        in_name_order(old_v),
        in_name_order(v),
        0 <= i < old_v.len(),
        old_v[i].text() == n,
        v.len() == old_v.len(),
        v[i].text() == n,
        forall|k: int| 0 <= k < v.len() && k != i ==> v[k] == old_v[k],
    ensures
        contents(v) == contents(old_v).insert(n, v[i].blob()),
{
    let want = contents(old_v).insert(n, v[i].blob());
    lemma_contents_at(v, i);
    assert forall|m: Seq<char>| #[trigger] contents(v).dom().contains(m) == want.dom().contains(m) by {
        if has_name(v, m) {
            let k = place_of(v, m);
            if k != i {
                assert(old_v[k].text() == m);
            }
        }
        if has_name(old_v, m) {
            let k = place_of(old_v, m);
            if k != i {
                assert(v[k].text() == m);
            }
        }
    }
    assert forall|m: Seq<char>| #[trigger] contents(v).dom().contains(m) implies contents(v)[m]
        == want[m] by {
        let k = place_of(v, m);
        if k != i {
            lemma_contents_at(v, k);
            lemma_contents_at(old_v, k);
            if m == n {
                lemma_same_place(v, k, i);
            }
        }
    }
    assert(contents(v) =~= want);
}

proof fn lemma_same_place(v: Seq<Stored>, a: int, b: int)
    requires
        in_name_order(v),
        0 <= a < v.len(),
        0 <= b < v.len(),
        v[a].text() == v[b].text(),
    ensures
        a == b,
{
    law_before_total(v[a].text(), v[b].text());
    if a < b {
        assert(before(v[a].text(), v[b].text()));
    } else if b < a {
        assert(before(v[b].text(), v[a].text()));
    }
}

proof fn lemma_inserted(old_v: Seq<Stored>, v: Seq<Stored>, i: int, n: Seq<char>)
    requires
        in_name_order(old_v),
        in_name_order(v),
        0 <= i <= old_v.len(),
        v == old_v.insert(i, v[i]),
        v[i].text() == n,
    ensures
        contents(v) == contents(old_v).insert(n, v[i].blob()),
{
    let want = contents(old_v).insert(n, v[i].blob());
    lemma_contents_at(v, i);
    assert forall|m: Seq<char>| #[trigger] contents(v).dom().contains(m) == want.dom().contains(m) by {
        if has_name(v, m) {
            let k = place_of(v, m);
            if k < i {
                assert(old_v[k].text() == m);
            } else if k > i {
                assert(old_v[k - 1].text() == m);
            }
        }
        if has_name(old_v, m) {
            let k = place_of(old_v, m);
            if k < i {
                assert(v[k].text() == m);
            } else {
                assert(v[k + 1].text() == m);
            }
        }
    }
    assert forall|m: Seq<char>| #[trigger] contents(v).dom().contains(m) implies contents(v)[m]
        == want[m] by {
        let k = place_of(v, m);
        if k != i {
            if m == n {
                lemma_same_place(v, k, i);
            }
            lemma_contents_at(v, k);
            let x = if k < i { k } else { k - 1 };
            assert(v[k] == old_v[x]);
            lemma_contents_at(old_v, x);
        }
    }
    assert(contents(v) =~= want);
}

proof fn lemma_removed(old_v: Seq<Stored>, v: Seq<Stored>, i: int, n: Seq<char>)
    requires
        in_name_order(old_v),
        in_name_order(v),
        0 <= i < old_v.len(),
        old_v[i].text() == n,
        v == old_v.remove(i),
    ensures
        contents(v) == contents(old_v).remove(n),
{
    let want = contents(old_v).remove(n);
    assert forall|m: Seq<char>| #[trigger] contents(v).dom().contains(m) == want.dom().contains(m) by {
        if has_name(v, m) {
            let k = place_of(v, m);
            let x = if k < i { k } else { k + 1 };
            assert(old_v[x].text() == m);
            if m == n {
                lemma_same_place(old_v, x, i);
            }
        }
        if has_name(old_v, m) && m != n {
            let k = place_of(old_v, m);
            let x = if k < i { k } else { k - 1 };
            assert(v[x].text() == m);
        }
    }
    assert forall|m: Seq<char>| #[trigger] contents(v).dom().contains(m) implies contents(v)[m]
        == want[m] by {
        let k = place_of(v, m);
        lemma_contents_at(v, k);
        let x = if k < i { k } else { k + 1 };
        assert(v[k] == old_v[x]);
        lemma_contents_at(old_v, x);
    }
    assert(contents(v) =~= want);
}

} // verus!
