//! The pack manifest: which files and tensors a pack holds, and whether they fit together.
use crate::codec::{strips_up, Codec};
use crate::json::{
    compact, items_view, lemma_array_view, lemma_object_view, member, members_view, to_compact, Json,
    JsonView, MemberView,
};
use crate::sha256::{digest, sha256};
use crate::text::{
    before, chars_eq, concat, decimal, hex_text, is_before, law_before_total, law_before_transitive,
    owned, push_decimal, push_text, str_eq, to_chars, to_hex,
};
use vstd::prelude::*;
use vstd::slice::slice_subrange;
use vstd::utf8::encode_utf8;

verus! {

pub const FORMAT_VERSION: u32 = 2;

#[derive(Debug)]
pub struct ShardHash {
    pub file: String,
    pub bytes: u64,
    pub sha256: String,
    pub fast: bool,
}

#[derive(Debug)]
pub struct FileEntry {
    pub name: String,
    pub bytes: u64,
}

#[derive(Debug, Clone, Copy, PartialEq, Eq, Structural)]
pub enum TensorKind {
    Tq,
    F32,
    Iq4nlRows,
    /// bf16 weights pre-laid out as AMX B-tile strips: [pad16(rows)/16][k/2][16][2] u16
    /// (strip s, pair-row p holds (w[16s+n][2p], w[16s+n][2p+1]) for n in 0..16).
    Bf16Strips,
}

#[derive(Debug)]
pub struct Shard {
    pub kind: String,
    pub ranges: Vec<[usize; 2]>,
    pub start: usize,
    pub len: usize,
}

#[derive(Debug)]
pub struct TensorEntry {
    pub name: String,
    pub tile: Option<usize>,
    pub kind: TensorKind,
    pub shard: Shard,
    pub bits: u8,
    pub kb: usize,
    pub count: usize,
    pub layer: Option<usize>,
    pub rows: usize,
    pub k: usize,
    pub stride: usize,
    pub nbytes: usize,
    pub file: String,
    pub offset: u64,
    pub shape: Vec<usize>,
    pub row_bytes: usize,
}

/// The `count` of a tensor entry that does not give one.
pub fn one() -> (n: usize)
    ensures
        n == 1,
{
    1
}

impl TensorEntry {
    pub fn codec(&self) -> (c: Codec)
        ensures
            c == (Codec { bits: self.bits, kb: self.kb }),
    {
        Codec::new(self.bits, self.kb)
    }
}

#[derive(Debug)]
pub struct Manifest {
    pub format_version: u32,
    pub hash: String,
    pub identity: Json,
    pub source_gguf: String,
    pub shards: Vec<ShardHash>,
    pub config: Vec<(String, Json)>,
    pub chat_template: String,
    pub n_tiles: usize,
    pub layer_ids: Vec<usize>,
    pub n_expert_packed: usize,
    pub n_vocab: usize,
    pub files: Vec<FileEntry>,
    pub tokenizer: String,
    pub tensors: Vec<TensorEntry>,
    /// Overlay packs (the MTP draft head) reference the base pack they were built for by hash.
    pub overlay_of: Option<String>,
}

/// A member placed among members in the order of their keys, in place of one with its key.
pub open spec fn place(s: Seq<MemberView>, x: MemberView) -> Seq<MemberView>
    decreases s.len(),
{
    if s.len() == 0 {
        seq![x]
    } else if s.last().key == x.key {
        s.drop_last().push(x)
    } else if before(s.last().key, x.key) {
        s.push(x)
    } else {
        place(s.drop_last(), x).push(s.last())
    }
}

/// The first `n` items, each made canonical.
pub open spec fn canonical_items(a: Seq<JsonView>, n: nat) -> Seq<JsonView>
    decreases a, n,
{
    if n == 0 || n > a.len() {
        Seq::empty()
    } else {
        canonical_items(a, (n - 1) as nat).push(canonical_view(a[n - 1]))
    }
}

/// The first `n` members in the order of their keys, each value made canonical.
pub open spec fn canonical_members(m: Seq<MemberView>, n: nat) -> Seq<MemberView>
    decreases m, n,
{
    if n == 0 || n > m.len() {
        Seq::empty()
    } else {
        place(
            canonical_members(m, (n - 1) as nat),
            MemberView { key: m[n - 1].key, value: canonical_view(m[n - 1].value) },
        )
    }
}

/// The value with the members of every object in the order of their keys.
pub open spec fn canonical_view(v: JsonView) -> JsonView
    decreases v, 0nat,
{
    match v {
        JsonView::Array(a) => JsonView::Array(canonical_items(a, a.len())),
        JsonView::Object(m) => JsonView::Object(canonical_members(m, m.len())),
        JsonView::Null => JsonView::Null,
        JsonView::Bool(b) => JsonView::Bool(b),
        JsonView::Number(n) => JsonView::Number(n),
        JsonView::Text(t) => JsonView::Text(t),
    }
}

/// Keys that increase strictly.
pub open spec fn keys_sorted(m: Seq<MemberView>) -> bool {
    forall|i: int, j: int|
        0 <= i < j < m.len() ==> before((#[trigger] m[i]).key, (#[trigger] m[j]).key)
}

proof fn lemma_place_sorted(s: Seq<MemberView>, x: MemberView)
    requires
        keys_sorted(s),
    ensures
        keys_sorted(place(s, x)),
        place(s, x).len() > 0,
        forall|k: Seq<char>|
            (forall|i: int| 0 <= i < s.len() ==> before((#[trigger] s[i]).key, k)) && before(x.key, k)
                ==> forall|i: int|
                0 <= i < place(s, x).len() ==> before(#[trigger] place(s, x)[i].key, k),
    decreases s.len(),
{
    let r = place(s, x);
    if s.len() > 0 {
        let h = s.drop_last();
        let last = s.last();
        assert forall|i: int| 0 <= i < h.len() implies before((#[trigger] h[i]).key, last.key) by {
            assert(h[i] == s[i] && s[s.len() - 1] == last);
        }
        assert(keys_sorted(h)) by {
            assert forall|i: int, j: int| 0 <= i < j < h.len() implies before(
                (#[trigger] h[i]).key,
                (#[trigger] h[j]).key,
            ) by {
                assert(h[i] == s[i] && h[j] == s[j]);
            }
        }
        if last.key == x.key {
            assert forall|k: Seq<char>|
                (forall|i: int| 0 <= i < s.len() ==> before((#[trigger] s[i]).key, k)) && before(
                    x.key,
                    k,
                ) implies forall|i: int| 0 <= i < r.len() ==> before(#[trigger] r[i].key, k) by {
                assert forall|i: int| 0 <= i < r.len() implies before(#[trigger] r[i].key, k) by {
                    if i < h.len() {
                        assert(s[i] == h[i]);
                    }
                }
            }
        } else if before(last.key, x.key) {
            assert forall|i: int, j: int| 0 <= i < j < r.len() implies before(
                (#[trigger] r[i]).key,
                (#[trigger] r[j]).key,
            ) by {
                if j == s.len() {
                    if i < h.len() {
                        assert(before(h[i].key, last.key));
                        law_before_transitive(h[i].key, last.key, x.key);
                    }
                } else {
                    assert(r[i] == s[i] && r[j] == s[j]);
                }
            }
        } else {
            law_before_total(last.key, x.key);
            lemma_place_sorted(h, x);
            let t = place(h, x);
            assert(forall|i: int| 0 <= i < t.len() ==> before(#[trigger] t[i].key, last.key));
            assert forall|i: int, j: int| 0 <= i < j < r.len() implies before(
                (#[trigger] r[i]).key,
                (#[trigger] r[j]).key,
            ) by {
                if j == t.len() {
                    assert(r[i] == t[i]);
                } else {
                    assert(r[i] == t[i] && r[j] == t[j]);
                }
            }
            assert forall|k: Seq<char>|
                (forall|i: int| 0 <= i < s.len() ==> before((#[trigger] s[i]).key, k)) && before(
                    x.key,
                    k,
                ) implies forall|i: int| 0 <= i < r.len() ==> before(#[trigger] r[i].key, k) by {
                assert forall|i: int| 0 <= i < h.len() implies before((#[trigger] h[i]).key, k) by {
                    assert(s[i] == h[i]);
                }
                assert(before(s[s.len() - 1].key, k));
                assert forall|i: int| 0 <= i < r.len() implies before(#[trigger] r[i].key, k) by {
                    if i < t.len() {
                        assert(r[i] == t[i]);
                        assert(before(t[i].key, k));
                    }
                }
            }
        }
    }
}

/// The canonical order of members is strictly increasing in their keys.
pub proof fn law_canonical_keys_sorted(m: Seq<MemberView>, n: nat)
    ensures
        keys_sorted(canonical_members(m, n)),
    decreases n,
{
    if n > 0 && n <= m.len() {
        law_canonical_keys_sorted(m, (n - 1) as nat);
        lemma_place_sorted(
            canonical_members(m, (n - 1) as nat),
            MemberView { key: m[n - 1].key, value: canonical_view(m[n - 1].value) },
        );
    }
}

/// Place a member among sorted members.
fn place_member(v: &mut Vec<(String, Json)>, key: String, value: Json)
    ensures
        members_view(final(v)@) == place(
            members_view(old(v)@),
            (MemberView { key: key@, value: value@ }),
        ),
{
    let ghost s = members_view(v@);
    let ghost x = MemberView { key: key@, value: value@ };
    let kc = to_chars(key.as_str());
    let mut i: usize = v.len();
    let ghost n = v@.len() as int;
    assert(s.subrange(0, n) =~= s);
    assert(s.subrange(n, n) =~= Seq::<MemberView>::empty());
    assert(place(s, x) =~= place(s.subrange(0, n), x) + s.subrange(n, n));
    let mut same: bool = false;
    while i > 0
        invariant_except_break
            i <= v@.len(),
            n == v@.len(),
            s == members_view(v@),
            x.key == key@,
            kc@ == key@,
            !same,
            place(s, x) == place(s.subrange(0, i as int), x) + s.subrange(i as int, n),
        ensures
            i <= v@.len(),
            n == v@.len(),
            !same ==> place(s, x) == s.subrange(0, i as int).push(x) + s.subrange(i as int, n),
            same ==> i < n && place(s, x) == s.subrange(0, i as int).push(x) + s.subrange(i + 1, n),
        decreases i,
    {
        let ghost part = s.subrange(0, i as int);
        assert(part.last() == s[i - 1]);
        assert(part.drop_last() =~= s.subrange(0, i - 1));
        let c = to_chars(v[i - 1].0.as_str());
        if chars_eq(c.as_slice(), kc.as_slice()) {
            same = true;
            i = i - 1;
            break;
        }
        if is_before(c.as_slice(), kc.as_slice()) {
            break;
        }
        proof {
            let rest = s.subrange(i as int, n);
            assert(place(part.drop_last(), x).push(s[i - 1]) + rest =~= place(part.drop_last(), x)
                + s.subrange(i - 1, n));
        }
        i = i - 1;
    }
    if same {
        v.set(i, (key, value));
        assert(members_view(v@) =~= s.subrange(0, i as int).push(x) + s.subrange(i + 1, n));
    } else {
        v.insert(i, (key, value));
        assert(members_view(v@) =~= s.subrange(0, i as int).push(x) + s.subrange(i as int, n));
    }
}

fn canonical_pair(m: &(String, Json)) -> (r: (String, Json))
    ensures
        r.0@ == m.0@,
        r.1@ == canonical_view(m.1@),
    decreases m,
{
    (owned(m.0.as_str()), canonical(&m.1))
}

/// Canonical JSON: sorted keys.
pub fn canonical(v: &Json) -> (r: Json)
    ensures
        r@ == canonical_view(v@),
    decreases v,
{
    match v {
        Json::Null => Json::Null,
        Json::Bool(b) => Json::Bool(*b),
        Json::Number(n) => Json::Number(owned(n.as_str())),
        Json::Text(s) => Json::Text(owned(s.as_str())),
        Json::Array(a) => {
            proof {
                lemma_array_view(*a);
            }
            let ghost view = items_view(a@);
            let mut out: Vec<Json> = Vec::new();
            let n: usize = a.len();
            let mut i: usize = 0;
            assert(items_view(out@) =~= canonical_items(view, 0));
            while i < n
                invariant
                    i <= n,
                    n == a@.len(),
                    v == Json::Array(*a),
                    view == items_view(a@),
                    items_view(out@) == canonical_items(view, i as nat),
                decreases n - i,
            {
                assert(decreases_to!(v => v->Array_0));
                assert(decreases_to!(v->Array_0 => v->Array_0@));
                assert(decreases_to!(v->Array_0@ => v->Array_0@[i as int]));
                let ghost before = out@;
                let x = canonical(&a[i]);
                out.push(x);
                assert(items_view(out@) =~= items_view(before).push(x@));
                assert(view[i as int] == a@[i as int]@);
                i = i + 1;
            }
            proof {
                lemma_array_view(out);
            }
            Json::Array(out)
        },
        Json::Object(m) => {
            proof {
                lemma_object_view(*m);
            }
            let ghost view = members_view(m@);
            let mut out: Vec<(String, Json)> = Vec::new();
            let n: usize = m.len();
            let mut i: usize = 0;
            assert(members_view(out@) =~= canonical_members(view, 0));
            while i < n
                invariant
                    i <= n,
                    n == m@.len(),
                    v == Json::Object(*m),
                    view == members_view(m@),
                    members_view(out@) == canonical_members(view, i as nat),
                decreases n - i,
            {
                assert(decreases_to!(v => v->Object_0));
                assert(decreases_to!(v->Object_0 => v->Object_0@));
                assert(decreases_to!(v->Object_0@ => v->Object_0@[i as int]));
                let (key, value) = canonical_pair(&m[i]);
                place_member(&mut out, key, value);
                i = i + 1;
            }
            proof {
                lemma_object_view(out);
            }
            Json::Object(out)
        },
    }
}

/// The hash of an identity: the first eight bytes of the digest of its canonical compact text,
/// in hexadecimal.
pub open spec fn identity_hash(identity: JsonView) -> Seq<char> {
    hex_text(digest(encode_utf8(compact(canonical_view(identity)))).subrange(0, 8))
}

fn hash_identity(identity: &Json) -> (s: String)
    ensures
        s@ == identity_hash(identity@),
{
    let c = canonical(identity);
    let text = to_compact(&c);
    let d = sha256(text.as_str().as_bytes());
    to_hex(slice_subrange(d.as_slice(), 0, 8))
}

/// Why a pack is refused. Files and tensors are named by their place in the manifest.
#[derive(Debug)]
pub enum ManifestError {
    FormatVersion { found: u32 },
    /// The hash of the identity is not the one in the manifest.
    Hash { computed: String },
    /// The file is not there.
    Stat { file: usize },
    FileSize { file: usize, found: u64 },
    UnknownFile { tensor: usize },
    /// The section ends beyond the end of its file.
    Beyond { tensor: usize },
    /// A codec without blocks: other bits than 4, 5 or 8, or no columns.
    Codec { tensor: usize },
    TqSize { tensor: usize },
    TqColumns { tensor: usize },
    F32Size { tensor: usize },
    Iq4nlSize { tensor: usize },
    Bf16Strips { tensor: usize },
}

/// A size, where 64 bits hold it.
pub open spec fn cap(v: int) -> Option<u64> {
    if 0 <= v <= u64::MAX { Some(v as u64) } else { None }
}

/// The product of a size and a factor.
fn times(a: Option<u64>, b: u64, Ghost(v): Ghost<int>) -> (r: Option<u64>)
    requires
        v >= 0,
        a == cap(v),
    ensures
        r == cap(v * b),
{
    if b == 0 {
        assert(v * b == 0) by (nonlinear_arith)
            requires
                b == 0,
        ;
        return Some(0);
    }
    match a {
        Some(x) => {
            assert(0 <= x * b <= 0xffff_ffff_ffff_ffff * 0xffff_ffff_ffff_ffff) by (nonlinear_arith)
                requires
                    0 <= x <= 0xffff_ffff_ffff_ffff,
                    0 <= b <= 0xffff_ffff_ffff_ffff,
            ;
            let p: u128 = x as u128 * b as u128;
            if p <= u64::MAX as u128 { Some(p as u64) } else { None }
        },
        None => {
            assert(v * b >= v) by (nonlinear_arith)
                requires
                    v >= 0,
                    b >= 1,
            ;
            None
        },
    }
}

/// The number of values of a shape.
pub open spec fn volume(shape: Seq<usize>) -> int
    decreases shape.len(),
{
    if shape.len() == 0 {
        1
    } else {
        volume(shape.drop_last()) * shape.last()
    }
}

proof fn lemma_volume_nonneg(shape: Seq<usize>)
    ensures
        volume(shape) >= 0,
    decreases shape.len(),
{
    if shape.len() > 0 {
        lemma_volume_nonneg(shape.drop_last());
        let a = volume(shape.drop_last());
        let b = shape.last() as int;
        assert(a * b >= 0) by (nonlinear_arith)
            requires
                a >= 0,
                b >= 0,
        ;
    }
}

fn shape_volume(shape: &Vec<usize>) -> (r: Option<u64>)
    ensures
        r == cap(volume(shape@)),
{
    let n: usize = shape.len();
    let mut r: Option<u64> = Some(1);
    let mut i: usize = 0;
    while i < n
        invariant
            i <= n,
            n == shape@.len(),
            r == cap(volume(shape@.subrange(0, i as int))),
        decreases n - i,
    {
        proof {
            lemma_volume_nonneg(shape@.subrange(0, i as int));
            assert(shape@.subrange(0, i + 1).drop_last() =~= shape@.subrange(0, i as int));
        }
        r = times(r, shape[i] as u64, Ghost(volume(shape@.subrange(0, i as int))));
        i = i + 1;
    }
    assert(shape@.subrange(0, n as int) =~= shape@);
    r
}

/// The size of the last file entry of that name.
pub open spec fn size_of_file(files: Seq<FileEntry>, name: Seq<char>) -> Option<u64>
    decreases files.len(),
{
    if files.len() == 0 {
        None
    } else if files.last().name@ == name {
        Some(files.last().bytes)
    } else {
        size_of_file(files.drop_last(), name)
    }
}

fn file_size(files: &Vec<FileEntry>, name: &str) -> (r: Option<u64>)
    ensures
        r == size_of_file(files@, name@),
{
    let mut n: usize = files.len();
    assert(files@.subrange(0, n as int) =~= files@);
    while n > 0
        invariant
            n <= files@.len(),
            size_of_file(files@, name@) == size_of_file(files@.subrange(0, n as int), name@),
        decreases n,
    {
        let ghost part = files@.subrange(0, n as int);
        assert(part.last() == files@[n - 1]);
        assert(part.drop_last() =~= files@.subrange(0, n - 1));
        if str_eq(files[n - 1].name.as_str(), name) {
            return Some(files[n - 1].bytes);
        }
        n = n - 1;
    }
    None
}

/// What is wrong with the tensor at place `i`, if anything.
pub open spec fn tensor_flaw(t: TensorEntry, files: Seq<FileEntry>, i: int) -> Option<ManifestError> {
    let tensor = i as usize;
    let c = Codec { bits: t.bits, kb: t.kb };
    let matrix = c.matrix_size(t.rows as int, t.k as int);
    match size_of_file(files, t.file@) {
        None => Some(ManifestError::UnknownFile { tensor }),
        Some(size) => if t.offset + t.nbytes > size {
            Some(ManifestError::Beyond { tensor })
        } else {
            match t.kind {
                TensorKind::Tq => if !c.known() || c.kb == 0 {
                    Some(ManifestError::Codec { tensor })
                } else if matrix * t.count != t.nbytes || t.stride != matrix {
                    Some(ManifestError::TqSize { tensor })
                } else if t.k % t.kb != 0 {
                    Some(ManifestError::TqColumns { tensor })
                } else {
                    None
                },
                TensorKind::F32 => if t.nbytes != volume(t.shape@) * 4 {
                    Some(ManifestError::F32Size { tensor })
                } else {
                    None
                },
                TensorKind::Iq4nlRows => if t.nbytes != t.rows * t.row_bytes {
                    Some(ManifestError::Iq4nlSize { tensor })
                } else {
                    None
                },
                TensorKind::Bf16Strips => if t.nbytes != strips_up(t.rows as int) * t.k * 2 || t.k
                    % 32 != 0 {
                    Some(ManifestError::Bf16Strips { tensor })
                } else {
                    None
                },
            }
        },
    }
}

/// The first flaw among the first `n` tensors.
pub open spec fn tensors_flaw(m: Manifest, n: int) -> Option<ManifestError>
    decreases n,
{
    if n <= 0 {
        None
    } else {
        match tensors_flaw(m, n - 1) {
            Some(e) => Some(e),
            None => tensor_flaw(m.tensors@[n - 1], m.files@, n - 1),
        }
    }
}

/// The first flaw among the first `n` files, whose sizes on disk are given (none for a file that
/// is not there).
pub open spec fn files_flaw(m: Manifest, sizes: Seq<Option<u64>>, n: int) -> Option<ManifestError>
    decreases n,
{
    if n <= 0 {
        None
    } else {
        match files_flaw(m, sizes, n - 1) {
            Some(e) => Some(e),
            None => match sizes[n - 1] {
                None => Some(ManifestError::Stat { file: (n - 1) as usize }),
                Some(found) => if found != m.files@[n - 1].bytes {
                    Some(ManifestError::FileSize { file: (n - 1) as usize, found })
                } else {
                    None
                },
            },
        }
    }
}

/// The matrix size of a codec with blocks, where 64 bits hold it.
fn matrix_cap(c: &Codec, rows: usize, k: usize) -> (r: Option<u64>)
    requires
        c.known(),
        c.kb > 0,
    ensures
        r == cap(c.matrix_size(rows as int, k as int)),
        c.matrix_size(rows as int, k as int) >= 0,
{
    let strips: u64 = (rows / 16) as u64 + (if rows % 16 == 0 { 0u64 } else { 1u64 });
    assert(strips == strips_up(rows as int) / 16);
    let ghost kb = c.kb as int;
    let blocks: u64 = (k / c.kb) as u64;
    let bb: u128 = if c.bits == 8 {
        64 + 16 * (c.kb as u128)
    } else if c.bits == 4 {
        64 + 16 * (c.kb as u128) / 2
    } else {
        64 + 16 * (c.kb as u128) / 2 + 2 * (c.kb as u128)
    };
    assert(bb == c.block_size());
    let bc: Option<u64> = if bb <= u64::MAX as u128 { Some(bb as u64) } else { None };
    let ghost size = c.block_size();
    let row = times(bc, blocks, Ghost(size));
    proof {
        let n = k as int / kb;
        assert(size * n == n * size) by (nonlinear_arith);
        assert(n * size >= 0) by (nonlinear_arith)
            requires
                n >= 0,
                size >= 0,
        ;
        let s = strips as int;
        let w = n * size;
        assert(w * s == s * w) by (nonlinear_arith);
        assert(w * s >= 0) by (nonlinear_arith)
            requires
                w >= 0,
                s >= 0,
        ;
    }
    times(row, strips, Ghost((k as int / kb) * size))
}

/// What is wrong with a tensor.
fn check_tensor(t: &TensorEntry, files: &Vec<FileEntry>, i: usize) -> (r: Option<ManifestError>)
    ensures
        r == tensor_flaw(*t, files@, i as int),
{
    let size: u64 = match file_size(files, t.file.as_str()) {
        Some(s) => s,
        None => {
            return Some(ManifestError::UnknownFile { tensor: i });
        },
    };
    if t.offset as u128 + t.nbytes as u128 > size as u128 {
        return Some(ManifestError::Beyond { tensor: i });
    }
    match t.kind {
        TensorKind::Tq => {
            let c = t.codec();
            if !(c.bits == 4 || c.bits == 5 || c.bits == 8) || c.kb == 0 {
                return Some(ManifestError::Codec { tensor: i });
            }
            let matrix = matrix_cap(&c, t.rows, t.k);
            let ghost m = c.matrix_size(t.rows as int, t.k as int);
            let want = times(matrix, t.count as u64, Ghost(m));
            assert(m * t.count >= 0) by (nonlinear_arith)
                requires
                    m >= 0,
            ;
            let sized: bool = match want {
                Some(w) => w == t.nbytes as u64,
                None => false,
            };
            let strided: bool = match matrix {
                Some(w) => w == t.stride as u64,
                None => false,
            };
            if !sized || !strided {
                return Some(ManifestError::TqSize { tensor: i });
            }
            if t.k % t.kb != 0 {
                return Some(ManifestError::TqColumns { tensor: i });
            }
            None
        },
        TensorKind::F32 => {
            let v = shape_volume(&t.shape);
            proof {
                lemma_volume_nonneg(t.shape@);
            }
            let want = times(v, 4, Ghost(volume(t.shape@)));
            let sized: bool = match want {
                Some(w) => w == t.nbytes as u64,
                None => false,
            };
            if sized { None } else { Some(ManifestError::F32Size { tensor: i }) }
        },
        TensorKind::Iq4nlRows => {
            let want = times(Some(t.rows as u64), t.row_bytes as u64, Ghost(t.rows as int));
            assert(t.rows * t.row_bytes >= 0) by (nonlinear_arith);
            let sized: bool = match want {
                Some(w) => w == t.nbytes as u64,
                None => false,
            };
            if sized { None } else { Some(ManifestError::Iq4nlSize { tensor: i }) }
        },
        TensorKind::Bf16Strips => {
            let strips: u64 = (t.rows / 16) as u64 + (if t.rows % 16 == 0 { 0u64 } else { 1u64 });
            let ghost s = strips as int;
            assert(s * 16 == strips_up(t.rows as int));
            let rows = times(Some(strips), 16, Ghost(s));
            let values = times(rows, t.k as u64, Ghost(s * 16));
            assert((s * 16) * t.k >= 0) by (nonlinear_arith)
                requires
                    s >= 0,
            ;
            let want = times(values, 2, Ghost((s * 16) * t.k));
            let sized: bool = match want {
                Some(w) => w == t.nbytes as u64,
                None => false,
            };
            if !sized || t.k % 32 != 0 {
                Some(ManifestError::Bf16Strips { tensor: i })
            } else {
                None
            }
        },
    }
}

/// A text with a prefix and a dot in front of it.
pub open spec fn dotted(a: Seq<char>, b: Seq<char>) -> Seq<char> {
    a + "."@ + b
}

/// The numbers among the first `n` items of a list.
pub open spec fn numbers_in(a: Seq<JsonView>, n: int) -> Seq<u64>
    decreases n,
{
    if n <= 0 {
        Seq::empty()
    } else {
        match a[n - 1].number() {
            Some(x) => numbers_in(a, n - 1).push(x),
            None => numbers_in(a, n - 1),
        }
    }
}

/// The bytes of the tensors on a tile among the first `n`.
pub open spec fn tile_bytes(t: Seq<TensorEntry>, tile: usize, n: int) -> int
    decreases n,
{
    if n <= 0 {
        0
    } else {
        tile_bytes(t, tile, n - 1) + if t[n - 1].tile == Some(tile) { t[n - 1].nbytes as int } else { 0int }
    }
}

/// The places of the tensors on a tile (or of those on none) among the first `n`.
pub open spec fn places_on(t: Seq<TensorEntry>, tile: Option<usize>, n: int) -> Seq<usize>
    decreases n,
{
    if n <= 0 {
        Seq::empty()
    } else if t[n - 1].tile == tile {
        places_on(t, tile, n - 1).push((n - 1) as usize)
    } else {
        places_on(t, tile, n - 1)
    }
}

impl Manifest {
    /// What a configuration key holds.
    pub open spec fn config_at(self, key: Seq<char>) -> Option<JsonView> {
        member(members_view(self.config@), key)
    }

    /// The architecture name, empty where none is given.
    pub open spec fn arch_text(self) -> Seq<char> {
        match self.config_at("architecture"@) {
            Some(JsonView::Text(s)) => s,
            _ => Seq::empty(),
        }
    }

    /// What is wrong with the pack, if anything: the format, the hash, the sizes of the files as
    /// found, the tensors, in this order.
    pub open spec fn flaw(self, sizes: Seq<Option<u64>>) -> Option<ManifestError> {
        if self.format_version != FORMAT_VERSION {
            Some(ManifestError::FormatVersion { found: self.format_version })
        } else if let Some(e) = files_flaw(self, sizes, self.files@.len() as int) {
            Some(e)
        } else {
            tensors_flaw(self, self.tensors@.len() as int)
        }
    }

    /// Whether the pack is sound, given the size of each of its files as found on disk (none for
    /// a file that is not there).
    pub fn validate(&self, sizes: &Vec<Option<u64>>) -> (r: Result<(), ManifestError>)
        requires
            sizes@.len() == self.files@.len(),
        ensures
            if self.format_version != FORMAT_VERSION {
                r == Err::<(), ManifestError>(
                    ManifestError::FormatVersion { found: self.format_version },
                )
            } else if self.hash@ != identity_hash(self.identity@) {
                r matches Err(ManifestError::Hash { computed }) && computed@ == identity_hash(
                    self.identity@,
                )
            } else {
                match self.flaw(sizes@) {
                    Some(e) => r == Err::<(), ManifestError>(e),
                    None => r is Ok,
                }
            },
    {
        if self.format_version != FORMAT_VERSION {
            return Err(ManifestError::FormatVersion { found: self.format_version });
        }
        let computed = hash_identity(&self.identity);
        if !str_eq(computed.as_str(), self.hash.as_str()) {
            return Err(ManifestError::Hash { computed });
        }
        let n: usize = self.files.len();
        let mut i: usize = 0;
        while i < n
            invariant
                i <= n,
                n == self.files@.len(),
                sizes@.len() == n,
                self.format_version == FORMAT_VERSION,
                self.hash@ == identity_hash(self.identity@),
                files_flaw(*self, sizes@, i as int) is None,
            decreases n - i,
        {
            match sizes[i] {
                None => {
                    proof {
                        lemma_files_flaw_stays(*self, sizes@, i + 1, n as int);
                    }
                    return Err(ManifestError::Stat { file: i });
                },
                Some(found) => {
                    if found != self.files[i].bytes {
                        proof {
                            lemma_files_flaw_stays(*self, sizes@, i + 1, n as int);
                        }
                        return Err(ManifestError::FileSize { file: i, found });
                    }
                },
            }
            i = i + 1;
        }
        let m: usize = self.tensors.len();
        let mut j: usize = 0;
        while j < m
            invariant
                j <= m,
                m == self.tensors@.len(),
                self.format_version == FORMAT_VERSION,
                self.hash@ == identity_hash(self.identity@),
                files_flaw(*self, sizes@, self.files@.len() as int) is None,
                tensors_flaw(*self, j as int) is None,
            decreases m - j,
        {
            if let Some(e) = check_tensor(&self.tensors[j], &self.files, j) {
                proof {
                    lemma_tensors_flaw_stays(*self, j + 1, m as int);
                }
                return Err(e);
            }
            j = j + 1;
        }
        Ok(())
    }

    fn config_value(&self, key: &str) -> (r: Option<&Json>)
        ensures
            match self.config_at(key@) {
                Some(v) => r matches Some(j) && j@ == v,
                None => r is None,
            },
    {
        let ghost view = members_view(self.config@);
        let n: usize = self.config.len();
        let mut i: usize = 0;
        assert(view.subrange(0, n as int) =~= view);
        while i < n
            invariant
                i <= n,
                n == self.config@.len(),
                view == members_view(self.config@),
                member(view, key@) == member(view.subrange(i as int, n as int), key@),
            decreases n - i,
        {
            let ghost rest = view.subrange(i as int, n as int);
            assert(rest[0] == view[i as int]);
            if str_eq(self.config[i].0.as_str(), key) {
                return Some(&self.config[i].1);
            }
            assert(rest.subrange(1, rest.len() as int) =~= view.subrange(i + 1, n as int));
            i = i + 1;
        }
        None
    }

    /// The architecture name.
    pub fn arch(&self) -> (s: String)
        ensures
            s@ == self.arch_text(),
    {
        match self.config_value("architecture") {
            Some(j) => match j.as_str() {
                Some(s) => owned(s),
                None => String::new(),
            },
            None => String::new(),
        }
    }

    /// The configuration value of `<arch>.<key>`.
    pub fn cfg(&self, key: &str) -> (r: Option<&Json>)
        ensures
            match self.config_at(dotted(self.arch_text(), key@)) {
                Some(v) => r matches Some(j) && j@ == v,
                None => r is None,
            },
    {
        let mut k = self.arch();
        push_text(&mut k, ".");
        push_text(&mut k, key);
        self.config_value(k.as_str())
    }

    /// The number at `<arch>.<key>`.
    pub fn cfg_u64(&self, key: &str) -> (r: Option<u64>)
        ensures
            match self.config_at(dotted(self.arch_text(), key@)) {
                Some(v) => r == v.number(),
                None => r is None,
            },
    {
        match self.cfg(key) {
            Some(j) => j.as_u64(),
            None => None,
        }
    }

    /// The numbers in the list at `<arch>.<key>`; none of them where there is no list.
    pub fn cfg_arr_u64(&self, key: &str) -> (r: Vec<u64>)
        ensures
            match self.config_at(dotted(self.arch_text(), key@)) {
                Some(JsonView::Array(a)) => r@ == numbers_in(a, a.len() as int),
                _ => r@ == Seq::<u64>::empty(),
            },
    {
        let mut out: Vec<u64> = Vec::new();
        match self.cfg(key) {
            Some(Json::Array(a)) => {
                proof {
                    lemma_array_view(*a);
                }
                let ghost view = items_view(a@);
                let n: usize = a.len();
                let mut i: usize = 0;
                while i < n
                    invariant
                        i <= n,
                        n == a@.len(),
                        view == items_view(a@),
                        out@ == numbers_in(view, i as int),
                    decreases n - i,
                {
                    assert(view[i as int] == a@[i as int]@);
                    if let Some(x) = a[i].as_u64() {
                        out.push(x);
                    }
                    i = i + 1;
                }
            },
            _ => {},
        }
        out
    }

    /// The first tensor of that name on that tile.
    pub fn tensor(&self, name: &str, tile: Option<usize>) -> (r: Option<&TensorEntry>)
        ensures
            match r {
                Some(t) => exists|i: int|
                    0 <= i < self.tensors@.len() && *t == #[trigger] self.tensors@[i] && t.name@ == name@
                        && t.tile == tile && forall|j: int|
                        0 <= j < i ==> !((#[trigger] self.tensors@[j]).name@ == name@
                            && self.tensors@[j].tile == tile),
                None => forall|j: int|
                    0 <= j < self.tensors@.len() ==> !((#[trigger] self.tensors@[j]).name@ == name@
                        && self.tensors@[j].tile == tile),
            },
    {
        let n: usize = self.tensors.len();
        let mut i: usize = 0;
        while i < n
            invariant
                i <= n,
                n == self.tensors@.len(),
                forall|j: int|
                    0 <= j < i ==> !((#[trigger] self.tensors@[j]).name@ == name@
                        && self.tensors@[j].tile == tile),
            decreases n - i,
        {
            let t = &self.tensors[i];
            let here: bool = match (t.tile, tile) {
                (Some(a), Some(b)) => a == b,
                (None, None) => true,
                _ => false,
            };
            if here && str_eq(t.name.as_str(), name) {
                assert(*t == self.tensors@[i as int]);
                return Some(t);
            }
            i = i + 1;
        }
        None
    }

    /// The places of the tensors on a tile.
    pub fn tensors_on_tile(&self, tile: usize) -> (r: Vec<usize>)
        ensures
            r@ == places_on(self.tensors@, Some(tile), self.tensors@.len() as int),
    {
        self.tensor_places(Some(tile))
    }

    /// The places of the tensors that are on no tile.
    pub fn shared_tensors(&self) -> (r: Vec<usize>)
        ensures
            r@ == places_on(self.tensors@, None, self.tensors@.len() as int),
    {
        self.tensor_places(None)
    }

    fn tensor_places(&self, tile: Option<usize>) -> (r: Vec<usize>)
        ensures
            r@ == places_on(self.tensors@, tile, self.tensors@.len() as int),
    {
        let mut out: Vec<usize> = Vec::new();
        let n: usize = self.tensors.len();
        let mut i: usize = 0;
        while i < n
            invariant
                i <= n,
                n == self.tensors@.len(),
                out@ == places_on(self.tensors@, tile, i as int),
            decreases n - i,
        {
            let here: bool = match (self.tensors[i].tile, tile) {
                (Some(a), Some(b)) => a == b,
                (None, None) => true,
                _ => false,
            };
            if here {
                out.push(i);
            }
            i = i + 1;
        }
        out
    }

    /// The bytes of the tensors on a tile.
    pub fn bytes_on_tile(&self, tile: usize) -> (r: u64)
        requires
            tile_bytes(self.tensors@, tile, self.tensors@.len() as int) <= u64::MAX,
        ensures
            r == tile_bytes(self.tensors@, tile, self.tensors@.len() as int),
    {
        let n: usize = self.tensors.len();
        let mut sum: u64 = 0;
        let mut i: usize = 0;
        while i < n
            invariant
                i <= n,
                n == self.tensors@.len(),
                tile_bytes(self.tensors@, tile, n as int) <= u64::MAX,
                sum == tile_bytes(self.tensors@, tile, i as int),
            decreases n - i,
        {
            proof {
                lemma_tile_bytes_grow(self.tensors@, tile, i + 1, n as int);
            }
            let here: bool = match self.tensors[i].tile {
                Some(a) => a == tile,
                None => false,
            };
            if here {
                sum = sum + self.tensors[i].nbytes as u64;
            }
            i = i + 1;
        }
        sum
    }
}

proof fn lemma_tile_bytes_grow(t: Seq<TensorEntry>, tile: usize, a: int, b: int)
    requires
        0 <= a <= b <= t.len(),
    ensures
        tile_bytes(t, tile, a) <= tile_bytes(t, tile, b),
    decreases b - a,
{
    if a < b {
        lemma_tile_bytes_grow(t, tile, a, b - 1);
    }
}

proof fn lemma_files_flaw_stays(m: Manifest, sizes: Seq<Option<u64>>, a: int, b: int)
    requires
        a <= b,
        files_flaw(m, sizes, a) is Some,
    ensures
        files_flaw(m, sizes, b) == files_flaw(m, sizes, a),
    decreases b - a,
{
    if a < b {
        lemma_files_flaw_stays(m, sizes, a, b - 1);
    }
}

proof fn lemma_tensors_flaw_stays(m: Manifest, a: int, b: int)
    requires
        a <= b,
        tensors_flaw(m, a) is Some,
    ensures
        tensors_flaw(m, b) == tensors_flaw(m, a),
    decreases b - a,
{
    if a < b {
        lemma_tensors_flaw_stays(m, a, b - 1);
    }
}

impl ManifestError {
    /// Whether the file or tensor that the error speaks of is one of the manifest's.
    pub open spec fn within(self, m: Manifest) -> bool {
        match self {
            ManifestError::FormatVersion { .. } => true,
            ManifestError::Hash { .. } => true,
            ManifestError::Stat { file } => file < m.files@.len(),
            ManifestError::FileSize { file, .. } => file < m.files@.len(),
            ManifestError::UnknownFile { tensor } => tensor < m.tensors@.len(),
            ManifestError::Beyond { tensor } => tensor < m.tensors@.len(),
            ManifestError::Codec { tensor } => tensor < m.tensors@.len(),
            ManifestError::TqSize { tensor } => tensor < m.tensors@.len() && Codec {
                bits: m.tensors@[tensor as int].bits,
                kb: m.tensors@[tensor as int].kb,
            }.known() && m.tensors@[tensor as int].kb > 0,
            ManifestError::TqColumns { tensor } => tensor < m.tensors@.len(),
            ManifestError::F32Size { tensor } => tensor < m.tensors@.len(),
            ManifestError::Iq4nlSize { tensor } => tensor < m.tensors@.len(),
            ManifestError::Bf16Strips { tensor } => tensor < m.tensors@.len(),
        }
    }
}

/// What is wrong with a pack is wrong with one of its own files or tensors.
pub proof fn law_flaws_can_be_told(m: Manifest, sizes: Seq<Option<u64>>)
    requires
        m.flaw(sizes) is Some,
        m.files@.len() <= usize::MAX,
        m.tensors@.len() <= usize::MAX,
    ensures
        (m.flaw(sizes)->0).within(m),
{
    lemma_files_flaw_within(m, sizes, m.files@.len() as int);
    lemma_tensors_flaw_within(m, m.tensors@.len() as int);
}

proof fn lemma_files_flaw_within(m: Manifest, sizes: Seq<Option<u64>>, n: int)
    requires
        n <= m.files@.len() <= usize::MAX,
    ensures
        files_flaw(m, sizes, n) matches Some(e) ==> e.within(m),
    decreases n,
{
    if n > 0 {
        lemma_files_flaw_within(m, sizes, n - 1);
    }
}

proof fn lemma_tensors_flaw_within(m: Manifest, n: int)
    requires
        n <= m.tensors@.len() <= usize::MAX,
    ensures
        tensors_flaw(m, n) matches Some(e) ==> e.within(m),
    decreases n,
{
    if n > 0 {
        lemma_tensors_flaw_within(m, n - 1);
    }
}

/// The bytes that a packed tensor should have.
pub open spec fn wanted_bytes(t: TensorEntry) -> Seq<char> {
    match cap(Codec { bits: t.bits, kb: t.kb }.matrix_size(t.rows as int, t.k as int) * t.count) {
        Some(n) => decimal(n as nat),
        None => "too many"@,
    }
}

impl Manifest {
    /// What is said of a pack that is refused.
    pub open spec fn message(self, e: ManifestError) -> Seq<char> {
        match e {
            ManifestError::FormatVersion { found } => "pack format_version "@ + decimal(found as nat)
                + " != "@ + decimal(FORMAT_VERSION as nat),
            ManifestError::Hash { computed } => "manifest hash mismatch: "@ + self.hash@
                + " != computed "@ + computed@,
            ManifestError::Stat { file } => "stat "@ + self.files@[file as int].name@,
            ManifestError::FileSize { file, found } => self.files@[file as int].name@ + ": size "@
                + decimal(found as nat) + " != manifest "@ + decimal(
                self.files@[file as int].bytes as nat,
            ),
            ManifestError::UnknownFile { tensor } => self.tensors@[tensor as int].name@
                + ": unknown file "@ + self.tensors@[tensor as int].file@,
            ManifestError::Beyond { tensor } => self.tensors@[tensor as int].name@
                + ": section beyond end of "@ + self.tensors@[tensor as int].file@,
            ManifestError::Codec { tensor } => self.tensors@[tensor as int].name@ + ": no codec of "@
                + decimal(self.tensors@[tensor as int].bits as nat) + " bits in blocks of "@ + decimal(
                self.tensors@[tensor as int].kb as nat,
            ),
            ManifestError::TqSize { tensor } => self.tensors@[tensor as int].name@
                + ": tq size mismatch (manifest "@ + decimal(
                self.tensors@[tensor as int].nbytes as nat,
            ) + " vs codec "@ + wanted_bytes(self.tensors@[tensor as int]) + ")"@,
            ManifestError::TqColumns { tensor } => self.tensors@[tensor as int].name@ + ": k "@
                + decimal(self.tensors@[tensor as int].k as nat) + " not a multiple of kb "@ + decimal(
                self.tensors@[tensor as int].kb as nat,
            ),
            ManifestError::F32Size { tensor } => self.tensors@[tensor as int].name@
                + ": f32 size mismatch"@,
            ManifestError::Iq4nlSize { tensor } => self.tensors@[tensor as int].name@
                + ": iq4nl size mismatch"@,
            ManifestError::Bf16Strips { tensor } => self.tensors@[tensor as int].name@
                + ": bf16 strips size mismatch (rows "@ + decimal(
                self.tensors@[tensor as int].rows as nat,
            ) + " k "@ + decimal(self.tensors@[tensor as int].k as nat) + " nbytes "@ + decimal(
                self.tensors@[tensor as int].nbytes as nat,
            ) + ")"@,
        }
    }

    /// What is said of a pack that is refused.
    pub fn complaint(&self, e: &ManifestError) -> (s: String)
        requires
            e.within(*self),
        ensures
            s@ == self.message(*e),
    {
        match e {
            ManifestError::FormatVersion { found } => {
                let mut s: String = owned("pack format_version ");
                push_decimal(&mut s, *found as u64);
                push_text(&mut s, " != ");
                push_decimal(&mut s, FORMAT_VERSION as u64);
                s
            },
            ManifestError::Hash { computed } => {
                let mut s: String = concat("manifest hash mismatch: ", self.hash.as_str());
                push_text(&mut s, " != computed ");
                push_text(&mut s, computed.as_str());
                s
            },
            ManifestError::Stat { file } => concat("stat ", self.files[*file].name.as_str()),
            ManifestError::FileSize { file, found } => {
                let mut s: String = concat(self.files[*file].name.as_str(), ": size ");
                push_decimal(&mut s, *found);
                push_text(&mut s, " != manifest ");
                push_decimal(&mut s, self.files[*file].bytes);
                s
            },
            ManifestError::UnknownFile { tensor } => {
                let t = &self.tensors[*tensor];
                let mut s: String = concat(t.name.as_str(), ": unknown file ");
                push_text(&mut s, t.file.as_str());
                s
            },
            ManifestError::Beyond { tensor } => {
                let t = &self.tensors[*tensor];
                let mut s: String = concat(t.name.as_str(), ": section beyond end of ");
                push_text(&mut s, t.file.as_str());
                s
            },
            ManifestError::Codec { tensor } => {
                let t = &self.tensors[*tensor];
                let mut s: String = concat(t.name.as_str(), ": no codec of ");
                push_decimal(&mut s, t.bits as u64);
                push_text(&mut s, " bits in blocks of ");
                push_decimal(&mut s, t.kb as u64);
                s
            },
            ManifestError::TqSize { tensor } => {
                let t = &self.tensors[*tensor];
                let mut s: String = concat(t.name.as_str(), ": tq size mismatch (manifest ");
                push_decimal(&mut s, t.nbytes as u64);
                push_text(&mut s, " vs codec ");
                let c = t.codec();
                let matrix = matrix_cap(&c, t.rows, t.k);
                let want = times(
                    matrix,
                    t.count as u64,
                    Ghost(c.matrix_size(t.rows as int, t.k as int)),
                );
                match want {
                    Some(n) => push_decimal(&mut s, n),
                    None => push_text(&mut s, "too many"),
                }
                push_text(&mut s, ")");
                s
            },
            ManifestError::TqColumns { tensor } => {
                let t = &self.tensors[*tensor];
                let mut s: String = concat(t.name.as_str(), ": k ");
                push_decimal(&mut s, t.k as u64);
                push_text(&mut s, " not a multiple of kb ");
                push_decimal(&mut s, t.kb as u64);
                s
            },
            ManifestError::F32Size { tensor } => concat(
                self.tensors[*tensor].name.as_str(),
                ": f32 size mismatch",
            ),
            ManifestError::Iq4nlSize { tensor } => concat(
                self.tensors[*tensor].name.as_str(),
                ": iq4nl size mismatch",
            ),
            ManifestError::Bf16Strips { tensor } => {
                let t = &self.tensors[*tensor];
                let mut s: String = concat(
                    t.name.as_str(),
                    ": bf16 strips size mismatch (rows ",
                );
                push_decimal(&mut s, t.rows as u64);
                push_text(&mut s, " k ");
                push_decimal(&mut s, t.k as u64);
                push_text(&mut s, " nbytes ");
                push_decimal(&mut s, t.nbytes as u64);
                push_text(&mut s, ")");
                s
            },
        }
    }
}

} // verus!
