//! Stored objects: a header (JSON metadata, padded to the I/O alignment) followed by the body.
//! Every object is self-describing, so the index can always be rebuilt from the headers.
use crate::buf::AlignedBuf;
use crate::json::{
    compact, entry, items_view, lemma_array_view, lemma_member_push, lemma_object_view, member,
    members_view, number, number_view, parse, parsed, plain, push_entry, text_value, to_compact,
    Json, JsonView, MemberView,
};
use crate::key::{
    from_le64, law_hex_round_trip, law_le64_round_trip, le64, pair_value, parse_hex, push_le64, read_le64, PrefixKey,
};
use crate::members::{repeats, repeats_member};
use crate::role::{law_role_names_distinct, Role};
use crate::text::{
    decimal, from_chars, hex_text, hex_value, law_decimal_round_trip, owned, push_decimal, push_text, str_eq, to_chars,
};
use vstd::prelude::*;
use vstd::slice::slice_subrange;
use vstd::utf8::encode_utf8;

verus! {

/// I/O alignment of headers and bodies.
pub const ALIGN: usize = 4096;

/// Object format version; bumped when the header or the body layout changes.
pub const FORMAT: u32 = 1;

/// The longest JSON part of a header that is read back.
pub const HEADER_MAX: u64 = 0x400_0000;

#[derive(Clone, Copy, Debug, PartialEq, Eq, Hash, Structural)]
pub enum Kind {
    /// K/V + indexer rows of positions `[start, end)`, tagged with a role.
    Rows,
    /// The recurrent state at position `end` (plus the host-side scalars the engine stores).
    Snapshot,
}

impl Kind {
    /// The extension of an object's name.
    pub open spec fn ext_text(self) -> Seq<char> {
        match self {
            Kind::Rows => "rows"@,
            Kind::Snapshot => "snap"@,
        }
    }

    /// The kind as it stands in a header.
    pub open spec fn tag(self) -> Seq<char> {
        match self {
            Kind::Rows => "rows"@,
            Kind::Snapshot => "snapshot"@,
        }
    }

    pub fn ext(self) -> (s: &'static str)
        ensures
            s@ == self.ext_text(),
    {
        match self {
            Kind::Rows => "rows",
            Kind::Snapshot => "snap",
        }
    }

    /// The kind with that extension; none for any other text.
    pub fn from_ext(e: &str) -> (r: Option<Kind>)
        ensures
            match r {
                Some(k) => e@ == k.ext_text(),
                None => forall|k: Kind| e@ != #[trigger] k.ext_text(),
            },
    {
        if str_eq(e, "rows") {
            Some(Kind::Rows)
        } else if str_eq(e, "snap") {
            Some(Kind::Snapshot)
        } else {
            None
        }
    }
}

/// Metadata of one object; the stored header and the index entry are this struct.
#[derive(Clone, Debug)]
pub struct ObjectMeta {
    pub format: u32,
    /// Root key of the store the object belongs to (engine identity).
    pub root: PrefixKey,
    pub kind: Kind,
    /// Prefix key at `end`: the object's address.
    pub key: PrefixKey,
    /// Prefix key at `start` (rows: the previous chunk's key; snapshot: same as `key`).
    pub parent: PrefixKey,
    pub start: usize,
    pub end: usize,
    /// Rows: the tokens' role. Snapshots: the role of the span that ends at the position (none
    /// for objects written before roles were recorded on snapshots).
    pub role: Option<Role>,
    /// Rows only: the token ids of `[start, end)` (verified against the prompt on restore).
    pub tokens: Vec<u32>,
    /// Body length in bytes (the file may be padded beyond it).
    pub bytes: u64,
    /// Unix seconds of the last hit (informational; the LRU order is kept in the index).
    pub last_used: u64,
}

/// What the metadata of an object says.
#[verifier::ext_equal]
pub struct MetaView {
    pub format: u32,
    pub root: Seq<u8>,
    pub kind: Kind,
    pub key: Seq<u8>,
    pub parent: Seq<u8>,
    pub start: usize,
    pub end: usize,
    pub role: Option<Role>,
    pub tokens: Seq<u32>,
    pub bytes: u64,
    pub last_used: u64,
}

impl View for ObjectMeta {
    type V = MetaView;

    open spec fn view(&self) -> MetaView {
        MetaView {
            format: self.format,
            root: self.root@,
            kind: self.kind,
            key: self.key@,
            parent: self.parent@,
            start: self.start,
            end: self.end,
            role: self.role,
            tokens: self.tokens@,
            bytes: self.bytes,
            last_used: self.last_used,
        }
    }
}

/// Why a header or its metadata is refused.
#[derive(Clone, Copy, Debug, PartialEq, Eq, Structural)]
pub enum ObjectError {
    /// The format is not the one this build reads.
    Format { found: u32 },
    /// The object starts after its end.
    Backwards { start: usize, end: usize },
    /// A rows object whose token list does not have one token per position.
    TokenCount { positions: usize, tokens: usize },
    /// A rows object without a role.
    NoRole,
    /// A snapshot that covers more than one position.
    SnapshotSpan { start: usize, end: usize },
    /// Fewer than the eight bytes of the length.
    ShortHeader,
    /// A length of zero, or of more than `HEADER_MAX` bytes.
    HeaderLength { len: u64 },
    /// The bytes end before the header does.
    Truncated { have: usize, need: usize },
    /// The JSON part is not the metadata of an object.
    Json,
    /// The header does not fit the address space.
    TooLarge,
}

impl ObjectError {
    /// What is said of the object of that name.
    pub open spec fn message(self, name: Seq<char>) -> Seq<char> {
        match self {
            ObjectError::Format { found } => "object format "@ + decimal(found as nat)
                + " (this build reads "@ + decimal(FORMAT as nat) + ")"@,
            ObjectError::Backwards { start, end } => "object "@ + name + " has start "@ + decimal(
                start as nat,
            ) + " > end "@ + decimal(end as nat),
            ObjectError::TokenCount { positions, tokens } => "rows object "@ + name + " covers "@
                + decimal(positions as nat) + " positions but lists "@ + decimal(tokens as nat)
                + " tokens"@,
            ObjectError::NoRole => "rows object "@ + name + " has no role"@,
            ObjectError::SnapshotSpan { start, end } => "snapshot object "@ + name + " spans "@
                + decimal(start as nat) + ".."@ + decimal(end as nat),
            ObjectError::ShortHeader => "short header"@,
            ObjectError::HeaderLength { len } => "implausible header length "@ + decimal(len as nat),
            ObjectError::Truncated { have, need } => "header truncated: "@ + decimal(have as nat)
                + " of "@ + decimal(need as nat) + " bytes"@,
            ObjectError::Json => "object header"@,
            ObjectError::TooLarge => "the object header does not fit the address space"@,
        }
    }

    /// What is said of the object of that name.
    pub fn text(self, name: &str) -> (s: String)
        ensures
            s@ == self.message(name@),
    {
        match self {
            ObjectError::Format { found } => {
                let mut s: String = owned("object format ");
                push_decimal(&mut s, found as u64);
                push_text(&mut s, " (this build reads ");
                push_decimal(&mut s, FORMAT as u64);
                push_text(&mut s, ")");
                s
            },
            ObjectError::Backwards { start, end } => {
                let mut s: String = owned("object ");
                push_text(&mut s, name);
                push_text(&mut s, " has start ");
                push_decimal(&mut s, start as u64);
                push_text(&mut s, " > end ");
                push_decimal(&mut s, end as u64);
                s
            },
            ObjectError::TokenCount { positions, tokens } => {
                let mut s: String = owned("rows object ");
                push_text(&mut s, name);
                push_text(&mut s, " covers ");
                push_decimal(&mut s, positions as u64);
                push_text(&mut s, " positions but lists ");
                push_decimal(&mut s, tokens as u64);
                push_text(&mut s, " tokens");
                s
            },
            ObjectError::NoRole => {
                let mut s: String = owned("rows object ");
                push_text(&mut s, name);
                push_text(&mut s, " has no role");
                s
            },
            ObjectError::SnapshotSpan { start, end } => {
                let mut s: String = owned("snapshot object ");
                push_text(&mut s, name);
                push_text(&mut s, " spans ");
                push_decimal(&mut s, start as u64);
                push_text(&mut s, "..");
                push_decimal(&mut s, end as u64);
                s
            },
            ObjectError::ShortHeader => owned("short header"),
            ObjectError::HeaderLength { len } => {
                let mut s: String = owned("implausible header length ");
                push_decimal(&mut s, len);
                s
            },
            ObjectError::Truncated { have, need } => {
                let mut s: String = owned("header truncated: ");
                push_decimal(&mut s, have as u64);
                push_text(&mut s, " of ");
                push_decimal(&mut s, need as u64);
                push_text(&mut s, " bytes");
                s
            },
            ObjectError::Json => owned("object header"),
            ObjectError::TooLarge => owned("the object header does not fit the address space"),
        }
    }
}

impl MetaView {
    /// The blob name: `<key hex>.<rows|snap>`.
    pub open spec fn name(self) -> Seq<char> {
        name_text(self.key, self.kind)
    }

    /// What is wrong with the metadata, if anything.
    pub open spec fn flaw(self) -> Option<ObjectError> {
        if self.format != FORMAT {
            Some(ObjectError::Format { found: self.format })
        } else if self.start > self.end {
            Some(ObjectError::Backwards { start: self.start, end: self.end })
        } else {
            match self.kind {
                Kind::Rows => if self.tokens.len() != self.end - self.start {
                    Some(
                        ObjectError::TokenCount {
                            positions: (self.end - self.start) as usize,
                            tokens: self.tokens.len() as usize,
                        },
                    )
                } else if self.role is None {
                    Some(ObjectError::NoRole)
                } else {
                    None
                },
                Kind::Snapshot => if self.start != self.end {
                    Some(ObjectError::SnapshotSpan { start: self.start, end: self.end })
                } else {
                    None
                },
            }
        }
    }

    /// Bytes that the object occupies once padded (header + body), for the budget. The header
    /// is taken as 256 bytes and 12 more for each token.
    pub open spec fn footprint(self) -> nat {
        (pad(256 + 12 * self.tokens.len() as int) + pad(self.bytes as int)) as nat
    }

    /// The same object, last used at `now`.
    pub open spec fn used_at(self, now: u64) -> MetaView {
        MetaView { last_used: now, ..self }
    }
}

/// `n` rounded up to a multiple of the alignment.
pub open spec fn pad(n: int) -> int {
    (n + ALIGN - 1) / (ALIGN as int) * ALIGN
}

/// `<key hex>.<rows|snap>`.
pub open spec fn name_text(key: Seq<u8>, kind: Kind) -> Seq<char> {
    hex_text(key) + "."@ + kind.ext_text()
}

/// The current time in whole seconds since the Unix epoch, by `SystemTime::now`; 0 for a clock
/// set before it. Nothing is said of it: it is the clock's.
#[verifier::external_body]
pub fn now() -> u64 {
    std::time::SystemTime::now().duration_since(std::time::UNIX_EPOCH).map(|d| d.as_secs()).unwrap_or(0)
}

/// A copy of a token list.
pub(crate) fn copy_tokens(t: &[u32]) -> (v: Vec<u32>)
    ensures
        v@ == t@,
{
    let mut v: Vec<u32> = Vec::new();
    let n: usize = t.len();
    let mut i: usize = 0;
    while i < n
        invariant
            i <= n,
            n == t@.len(),
            v@ == t@.subrange(0, i as int),
        decreases n - i,
    {
        v.push(t[i]);
        i = i + 1;
    }
    v
}

impl ObjectMeta {
    /// The metadata of the rows of `[start, end)`, used now.
    pub fn rows(
        root: PrefixKey,
        key: PrefixKey,
        parent: PrefixKey,
        start: usize,
        end: usize,
        role: Role,
        tokens: Vec<u32>,
        bytes: u64,
    ) -> (m: ObjectMeta)
        requires
            start <= end,
            tokens@.len() == end - start,
        ensures
            m@ == (MetaView {
                format: FORMAT,
                root: root@,
                kind: Kind::Rows,
                key: key@,
                parent: parent@,
                start,
                end,
                role: Some(role),
                tokens: tokens@,
                bytes,
                last_used: m.last_used,
            }),
            m@.flaw() is None,
    {
        ObjectMeta {
            format: FORMAT,
            root,
            kind: Kind::Rows,
            key,
            parent,
            start,
            end,
            role: Some(role),
            tokens,
            bytes,
            last_used: now(),
        }
    }

    /// The metadata of the snapshot at `pos`, used now.
    pub fn snapshot(
        root: PrefixKey,
        key: PrefixKey,
        pos: usize,
        role: Option<Role>,
        bytes: u64,
    ) -> (m: ObjectMeta)
        ensures
            m@ == (MetaView {
                format: FORMAT,
                root: root@,
                kind: Kind::Snapshot,
                key: key@,
                parent: key@,
                start: pos,
                end: pos,
                role,
                tokens: Seq::empty(),
                bytes,
                last_used: m.last_used,
            }),
            m@.flaw() is None,
    {
        ObjectMeta {
            format: FORMAT,
            root,
            kind: Kind::Snapshot,
            key,
            parent: key,
            start: pos,
            end: pos,
            role,
            tokens: Vec::new(),
            bytes,
            last_used: now(),
        }
    }

    /// A copy.
    pub fn duplicate(&self) -> (m: ObjectMeta)
        ensures
            m@ == self@,
    {
        ObjectMeta {
            format: self.format,
            root: self.root,
            kind: self.kind,
            key: self.key,
            parent: self.parent,
            start: self.start,
            end: self.end,
            role: self.role,
            tokens: copy_tokens(self.tokens.as_slice()),
            bytes: self.bytes,
            last_used: self.last_used,
        }
    }

    /// Whether two objects have the same metadata.
    pub fn same(&self, other: &ObjectMeta) -> (r: bool)
        ensures
            r == (self@ == other@),
    {
        let head: bool = self.format == other.format && self.root == other.root && self.kind
            == other.kind && self.key == other.key && self.parent == other.parent && self.start
            == other.start && self.end == other.end && self.role == other.role && self.bytes
            == other.bytes && self.last_used == other.last_used;
        let n: usize = self.tokens.len();
        if !head || n != other.tokens.len() {
            return false;
        }
        let mut i: usize = 0;
        while i < n
            invariant
                i <= n,
                n == self.tokens@.len(),
                n == other.tokens@.len(),
                forall|j: int| 0 <= j < i ==> self.tokens@[j] == other.tokens@[j],
            decreases n - i,
        {
            if self.tokens[i] != other.tokens[i] {
                return false;
            }
            i = i + 1;
        }
        assert(self.tokens@ =~= other.tokens@);
        true
    }

    /// Blob name: `<key hex>.<rows|snap>`.
    pub fn name(&self) -> (s: String)
        ensures
            s@ == self@.name(),
    {
        object_name(&self.key, self.kind)
    }

    /// Bytes the object occupies once padded (header + body), for the budget.
    pub fn footprint(&self) -> (n: u64)
        requires
            self@.footprint() <= u64::MAX,
        ensures
            n == self@.footprint(),
    {
        self.footprint_wide() as u64
    }

    /// The footprint of any object, whatever its header claims.
    pub(crate) fn footprint_wide(&self) -> (n: u128)
        ensures
            n == self@.footprint(),
            n <= 0x20_0000_0000_0000_0000,
    {
        let header: u128 = 256 + 12 * (self.tokens.len() as u128);
        let a: u128 = (header + (ALIGN as u128 - 1)) / (ALIGN as u128) * (ALIGN as u128);
        let b: u128 = (self.bytes as u128 + (ALIGN as u128 - 1)) / (ALIGN as u128) * (
        ALIGN as u128);
        a + b
    }

    /// Whether the metadata is that of an object of this format.
    pub fn validate(&self) -> (r: Result<(), ObjectError>)
        ensures
            match self@.flaw() {
                Some(e) => r == Err::<(), ObjectError>(e),
                None => r is Ok,
            },
    {
        if self.format != FORMAT {
            return Err(ObjectError::Format { found: self.format });
        }
        if self.start > self.end {
            return Err(ObjectError::Backwards { start: self.start, end: self.end });
        }
        match self.kind {
            Kind::Rows => {
                if self.tokens.len() != self.end - self.start {
                    return Err(
                        ObjectError::TokenCount {
                            positions: self.end - self.start,
                            tokens: self.tokens.len(),
                        },
                    );
                }
                if self.role.is_none() {
                    return Err(ObjectError::NoRole);
                }
            },
            Kind::Snapshot => {
                if self.start != self.end {
                    return Err(ObjectError::SnapshotSpan { start: self.start, end: self.end });
                }
            },
        }
        Ok(())
    }
}

/// The name of the object at a key.
pub fn object_name(key: &PrefixKey, kind: Kind) -> (s: String)
    ensures
        s@ == name_text(key@, kind),
{
    let mut s = key.hex();
    push_text(&mut s, ".");
    push_text(&mut s, kind.ext());
    s
}

/// `n` rounded up to a multiple of the alignment.
pub fn padded(n: usize) -> (r: usize)
    requires
        pad(n as int) <= usize::MAX,
    ensures
        r == pad(n as int),
{
    let q: usize = n / ALIGN;
    let m: usize = n % ALIGN;
    if m == 0 { n } else { (q + 1) * ALIGN }
}

impl PartialEq for ObjectMeta {
    fn eq(&self, other: &ObjectMeta) -> (r: bool) {
        self.same(other)
    }
}

impl vstd::std_specs::cmp::PartialEqSpecImpl for ObjectMeta {
    open spec fn obeys_eq_spec() -> bool {
        true
    }

    open spec fn eq_spec(&self, other: &ObjectMeta) -> bool {
        self@ == other@
    }
}

/// Whether `s` is the name of an object: the hexadecimal text of a key, a dot, an extension.
pub open spec fn is_name(s: Seq<char>, key: Seq<u8>, kind: Kind) -> bool {
    exists|head: Seq<char>|
        s == #[trigger] (head + "."@ + kind.ext_text()) && parse_hex(head) == Some(key)
}

/// Whether a text has the shape of an object name: 32 hexadecimal digits and `.rows` or `.snap`.
pub open spec fn name_shaped(s: Seq<char>) -> bool {
    &&& s.len() == 37
    &&& forall|i: int| 0 <= i < 32 ==> hex_value(#[trigger] s[i]) is Some
    &&& s.subrange(32, 37) == ".rows"@ || s.subrange(32, 37) == ".snap"@
}

/// The names of objects are exactly the texts of that shape.
pub proof fn law_names_have_that_shape(s: Seq<char>)
    ensures
        name_shaped(s) <==> exists|k: Seq<u8>, kind: Kind| #[trigger] is_name(s, k, kind),
{
    reveal_strlit(".");
    reveal_strlit("rows");
    reveal_strlit("snap");
    reveal_strlit(".rows");
    reveal_strlit(".snap");
    if name_shaped(s) {
        let head = s.subrange(0, 32);
        let kind = if s.subrange(32, 37) == ".rows"@ { Kind::Rows } else { Kind::Snapshot };
        assert forall|i: int| 0 <= i < 16 implies (#[trigger] pair_value(head[2 * i], head[2 * i + 1])) is Some by {
            assert(hex_value(s[2 * i]) is Some);
            assert(hex_value(s[2 * i + 1]) is Some);
        }
        let tail = s.subrange(32, 37);
        assert("."@ + kind.ext_text() =~= tail);
        assert forall|i: int| 32 <= i < 37 implies s[i] == (head + "."@ + kind.ext_text())[i] by {
            assert(tail[i - 32] == ("."@ + kind.ext_text())[i - 32]);
        }
        assert(s =~= head + "."@ + kind.ext_text());
        assert(is_name(s, parse_hex(head)->0, kind));
    }
    if exists|k: Seq<u8>, kind: Kind| #[trigger] is_name(s, k, kind) {
        let (k, kind) = choose|k: Seq<u8>, kind: Kind| #[trigger] is_name(s, k, kind);
        let head = choose|head: Seq<char>|
            s == #[trigger] (head + "."@ + kind.ext_text()) && parse_hex(head) == Some(k);
        assert forall|i: int| 0 <= i < 32 implies hex_value(#[trigger] s[i]) is Some by {
            let j = i / 2;
            assert(pair_value(head[2 * j], head[2 * j + 1]) is Some);
            assert(s[i] == head[i]);
            assert(i == 2 * j || i == 2 * j + 1);
        }
        assert(s.subrange(32, 37) =~= "."@ + kind.ext_text());
        assert(s.subrange(32, 37) =~= if kind is Rows { ".rows"@ } else { ".snap"@ });
    }
}

/// `(key, kind)` of an object name, none for anything that is not one.
pub fn parse_name(name: &str) -> (r: Option<(PrefixKey, Kind)>)
    ensures
        r is Some <==> name_shaped(name@),
        match r {
            Some((k, kind)) => is_name(name@, k@, kind),
            None => forall|k: Seq<u8>, kind: Kind| !#[trigger] is_name(name@, k, kind),
        },
{
    proof {
        reveal_strlit(".");
        reveal_strlit("rows");
        reveal_strlit("snap");
    }
    let c = to_chars(name);
    let n: usize = c.len();
    proof {
        law_names_have_that_shape(name@);
    }
    if n < 5 {
        proof {
            lemma_not_a_name(name@);
        }
        return None;
    }
    let head = from_chars(slice_subrange(c.as_slice(), 0, n - 5));
    let ext = from_chars(slice_subrange(c.as_slice(), n - 4, n));
    let kind = Kind::from_ext(ext.as_str());
    let key = PrefixKey::parse(head.as_str());
    let dot: bool = c[n - 5] == '.';
    proof {
        if dot && kind is Some {
            assert(name@ =~= head@ + "."@ + (kind->0).ext_text());
        }
        assert forall|k: Seq<u8>, kd: Kind| is_name(name@, k, kd) implies dot && kind == Some(kd)
            && parse_hex(head@) == Some(k) by {
            let h = choose|h: Seq<char>|
                name@ == #[trigger] (h + "."@ + kd.ext_text()) && parse_hex(h) == Some(k);
            assert(kd.ext_text().len() == 4);
            assert(h =~= head@);
            assert(kd.ext_text() =~= ext@);
            assert("rows"@[0] != "snap"@[0]);
            assert(c@[n - 5] == "."@[0]);
        }
    }
    if !dot {
        return None;
    }
    match (key, kind) {
        (Some(k), Some(kd)) => {
            assert(is_name(name@, k@, kd));
            Some((k, kd))
        },
        _ => None,
    }
}

proof fn lemma_not_a_name(s: Seq<char>)
    requires
        s.len() < 5,
    ensures
        forall|k: Seq<u8>, kind: Kind| !#[trigger] is_name(s, k, kind),
{
    reveal_strlit(".");
    reveal_strlit("rows");
    reveal_strlit("snap");
    assert forall|k: Seq<u8>, kind: Kind| !#[trigger] is_name(s, k, kind) by {
        if is_name(s, k, kind) {
            let h = choose|h: Seq<char>|
                s == #[trigger] (h + "."@ + kind.ext_text()) && parse_hex(h) == Some(k);
            assert(s.len() == h.len() + 5);
        }
    }
}

/// The name of an object is read back as its key and kind.
pub proof fn law_name_round_trip(key: Seq<u8>, kind: Kind)
    requires
        key.len() == 16,
    ensures
        is_name(name_text(key, kind), key, kind),
{
    law_hex_round_trip(key);
    let head = hex_text(key);
    assert(name_text(key, kind) == head + "."@ + kind.ext_text());
}

/// Different objects have different names.
pub proof fn law_names_distinct(key1: Seq<u8>, kind1: Kind, key2: Seq<u8>, kind2: Kind)
    requires
        key1.len() == 16,
        key2.len() == 16,
        name_text(key1, kind1) == name_text(key2, kind2),
    ensures
        key1 == key2,
        kind1 == kind2,
{
    reveal_strlit(".");
    reveal_strlit("rows");
    reveal_strlit("snap");
    let a = name_text(key1, kind1);
    let b = name_text(key2, kind2);
    assert(hex_text(key1) =~= a.subrange(0, 32));
    assert(hex_text(key2) =~= b.subrange(0, 32));
    law_hex_round_trip(key1);
    law_hex_round_trip(key2);
    assert(kind1.ext_text()[0] == a[33]);
    assert(kind2.ext_text()[0] == b[33]);
}

/// The token ids as JSON numbers.
pub open spec fn token_items(tokens: Seq<u32>) -> Seq<JsonView> {
    Seq::new(tokens.len(), |i: int| number_view(tokens[i] as nat))
}

/// The members of a header up to the positions.
pub open spec fn header_front(m: MetaView) -> Seq<MemberView> {
    Seq::<MemberView>::empty().push(entry("format"@, number_view(m.format as nat))).push(
        entry("root"@, JsonView::Text(hex_text(m.root))),
    ).push(entry("kind"@, JsonView::Text(m.kind.tag()))).push(
        entry("key"@, JsonView::Text(hex_text(m.key))),
    ).push(entry("parent"@, JsonView::Text(hex_text(m.parent)))).push(
        entry("start"@, number_view(m.start as nat)),
    ).push(entry("end"@, number_view(m.end as nat)))
}

/// The role, where there is one, and the tokens, where there are any.
pub open spec fn header_middle(m: MetaView) -> Seq<MemberView> {
    let a = header_front(m);
    let b = match m.role {
        Some(r) => a.push(entry("role"@, JsonView::Text(r.text()))),
        None => a,
    };
    if m.tokens.len() > 0 {
        b.push(entry("tokens"@, JsonView::Array(token_items(m.tokens))))
    } else {
        b
    }
}

/// Every member of a header.
pub open spec fn header_members(m: MetaView) -> Seq<MemberView> {
    header_middle(m).push(entry("bytes"@, number_view(m.bytes as nat))).push(
        entry("last_used"@, number_view(m.last_used as nat)),
    )
}

/// The metadata as JSON.
pub open spec fn meta_json(m: MetaView) -> JsonView {
    JsonView::Object(header_members(m))
}

/// The JSON bytes of a header.
pub open spec fn meta_bytes(m: MetaView) -> Seq<u8> {
    encode_utf8(compact(meta_json(m)))
}

/// The header: the length of the JSON (eight bytes, least significant first), the JSON, and
/// zeros up to a multiple of the alignment.
pub open spec fn header_bytes(m: MetaView) -> Seq<u8> {
    let json = meta_bytes(m);
    le64(json.len() as u64) + json + Seq::new(
        (pad(8 + json.len() as int) - 8 - json.len()) as nat,
        |i: int| 0u8,
    )
}

fn meta_to_json(m: &ObjectMeta) -> (j: Json)
    ensures
        j@ == meta_json(m@),
{
    let mut o: Vec<(String, Json)> = Vec::new();
    assert(members_view(o@) =~= Seq::<MemberView>::empty());
    push_entry(&mut o, "format", number(m.format as u64));
    let root = m.root.hex();
    push_entry(&mut o, "root", Json::Text(root));
    let tag = match m.kind {
        Kind::Rows => "rows",
        Kind::Snapshot => "snapshot",
    };
    push_entry(&mut o, "kind", text_value(tag));
    let key = m.key.hex();
    push_entry(&mut o, "key", Json::Text(key));
    let parent = m.parent.hex();
    push_entry(&mut o, "parent", Json::Text(parent));
    push_entry(&mut o, "start", number(m.start as u64));
    push_entry(&mut o, "end", number(m.end as u64));
    assert(members_view(o@) == header_front(m@));
    if let Some(r) = m.role {
        push_entry(&mut o, "role", text_value(r.name()));
    }
    let n: usize = m.tokens.len();
    if n > 0 {
        let mut a: Vec<Json> = Vec::new();
        let mut i: usize = 0;
        while i < n
            invariant
                i <= n,
                n == m.tokens@.len(),
                a@.len() == i,
                forall|k: int|
                    0 <= k < i ==> (#[trigger] a@[k])@ == number_view(m.tokens@[k] as nat),
            decreases n - i,
        {
            a.push(number(m.tokens[i] as u64));
            i = i + 1;
        }
        proof {
            lemma_array_view(a);
            assert(items_view(a@) =~= token_items(m.tokens@));
        }
        push_entry(&mut o, "tokens", Json::Array(a));
    }
    assert(members_view(o@) == header_middle(m@));
    push_entry(&mut o, "bytes", number(m.bytes));
    push_entry(&mut o, "last_used", number(m.last_used));
    proof {
        lemma_object_view(o);
    }
    Json::Object(o)
}

/// A number of at most 32 bits.
pub open spec fn number32(j: JsonView) -> Option<u32> {
    match j.number() {
        Some(n) => if n <= u32::MAX { Some(n as u32) } else { None },
        None => None,
    }
}

/// A number that fits the address space.
pub open spec fn number_size(j: JsonView) -> Option<usize> {
    match j.number() {
        Some(n) => if n <= usize::MAX { Some(n as usize) } else { None },
        None => None,
    }
}

/// A key written as a string.
pub open spec fn key_value(j: JsonView) -> Option<Seq<u8>> {
    match j {
        JsonView::Text(s) => parse_hex(s),
        _ => None,
    }
}

/// The kind of that name.
pub open spec fn kind_value(j: JsonView) -> Option<Kind> {
    match j.choice() {
        Some(s) => if s == Kind::Rows.tag() {
            Some(Kind::Rows)
        } else if s == Kind::Snapshot.tag() {
            Some(Kind::Snapshot)
        } else {
            None
        },
        None => None,
    }
}

/// The role of that name.
pub open spec fn role_named(s: Seq<char>) -> Option<Role> {
    if s == Role::System.text() {
        Some(Role::System)
    } else if s == Role::User.text() {
        Some(Role::User)
    } else if s == Role::Reasoning.text() {
        Some(Role::Reasoning)
    } else if s == Role::Tool.text() {
        Some(Role::Tool)
    } else if s == Role::Assistant.text() {
        Some(Role::Assistant)
    } else {
        None
    }
}

/// An optional role: none where it is absent or null. The outer option is none for a value that
/// is neither null nor the name of a role.
pub open spec fn role_value(j: Option<JsonView>) -> Option<Option<Role>> {
    match j {
        None => Some(None),
        Some(JsonView::Null) => Some(None),
        Some(v) => match v.choice() {
            Some(s) => match role_named(s) {
                Some(r) => Some(Some(r)),
                None => None,
            },
            None => None,
        },
    }
}

/// A token list: empty where it is absent.
pub open spec fn tokens_value(j: Option<JsonView>) -> Option<Seq<u32>> {
    match j {
        None => Some(Seq::empty()),
        Some(JsonView::Array(a)) => if forall|i: int|
            0 <= i < a.len() ==> (#[trigger] number32(a[i])) is Some {
            Some(Seq::new(a.len(), |i: int| number32(a[i])->0))
        } else {
            None
        },
        _ => None,
    }
}

/// How many fields metadata has.
pub const FIELDS: usize = 11;

/// The fields in their order.
pub const META_FIELDS: [&'static str; FIELDS] = [
    "format",
    "root",
    "kind",
    "key",
    "parent",
    "start",
    "end",
    "role",
    "tokens",
    "bytes",
    "last_used",
];

/// The metadata that a JSON value holds: an object, of which members that metadata does not have
/// are passed over, or the list of all fields.
pub open spec fn meta_of(j: JsonView) -> Option<MetaView> {
    let format = j.field(FIELDS as int, 0, "format"@);
    let root = j.field(FIELDS as int, 1, "root"@);
    let kind = j.field(FIELDS as int, 2, "kind"@);
    let key = j.field(FIELDS as int, 3, "key"@);
    let parent = j.field(FIELDS as int, 4, "parent"@);
    let start = j.field(FIELDS as int, 5, "start"@);
    let end = j.field(FIELDS as int, 6, "end"@);
    let bytes = j.field(FIELDS as int, 9, "bytes"@);
    let last = j.field(FIELDS as int, 10, "last_used"@);
    let role = role_value(j.field(FIELDS as int, 7, "role"@));
    let tokens = tokens_value(j.field(FIELDS as int, 8, "tokens"@));
    if format is Some && root is Some && kind is Some && key is Some && parent is Some
        && start is Some && end is Some && bytes is Some && last is Some && role is Some
        && tokens is Some && number32(format->0) is Some && key_value(root->0) is Some && kind_value(
        kind->0,
    ) is Some && key_value(key->0) is Some && key_value(parent->0) is Some && number_size(
        start->0,
    ) is Some && number_size(end->0) is Some && (bytes->0).number() is Some && (last->0).number() is Some {
        Some(
            MetaView {
                format: number32(format->0)->0,
                root: key_value(root->0)->0,
                kind: kind_value(kind->0)->0,
                key: key_value(key->0)->0,
                parent: key_value(parent->0)->0,
                start: number_size(start->0)->0,
                end: number_size(end->0)->0,
                role: role->0,
                tokens: tokens->0,
                bytes: (bytes->0).number()->0,
                last_used: (last->0).number()->0,
            },
        )
    } else {
        None
    }
}

fn read_number32(j: &Json) -> (r: Option<u32>)
    ensures
        r == number32(j@),
{
    match j.as_u64() {
        Some(n) => if n <= u32::MAX as u64 { Some(n as u32) } else { None },
        None => None,
    }
}

fn read_size(j: &Json) -> (r: Option<usize>)
    ensures
        r == number_size(j@),
{
    match j.as_u64() {
        Some(n) => if n <= usize::MAX as u64 { Some(n as usize) } else { None },
        None => None,
    }
}

fn read_key(j: &Json) -> (r: Option<PrefixKey>)
    ensures
        match key_value(j@) {
            Some(k) => r matches Some(p) && p@ == k,
            None => r is None,
        },
{
    match j.as_str() {
        Some(s) => PrefixKey::parse(s),
        None => None,
    }
}

fn read_kind(j: &Json) -> (r: Option<Kind>)
    ensures
        r == kind_value(j@),
{
    match j.choice() {
        Some(s) => if str_eq(s, "rows") {
            Some(Kind::Rows)
        } else if str_eq(s, "snapshot") {
            Some(Kind::Snapshot)
        } else {
            None
        },
        None => None,
    }
}

fn read_role(j: Option<&Json>) -> (r: Option<Option<Role>>)
    ensures
        r == role_value(
            match j {
                Some(v) => Some(v@),
                None => None,
            },
        ),
{
    match j {
        None => Some(None),
        Some(Json::Null) => Some(None),
        Some(v) => match v.choice() {
            Some(s) => {
                let p = Role::parse(s);
                proof {
                    if let Some(q) = p {
                        assert forall|o: Role| s@ == #[trigger] o.text() implies o == q by {
                            law_role_names_distinct(o, q);
                        }
                    }
                }
                match p {
                    Some(q) => Some(Some(q)),
                    None => None,
                }
            },
            None => None,
        },
    }
}

fn read_tokens(j: Option<&Json>) -> (r: Option<Vec<u32>>)
    ensures
        ({
            let v = tokens_value(
                match j {
                    Some(v) => Some(v@),
                    None => None,
                },
            );
            match r {
                Some(t) => v == Some(t@),
                None => v is None,
            }
        }),
{
    match j {
        None => {
            let t: Vec<u32> = Vec::new();
            assert(t@ =~= Seq::<u32>::empty());
            Some(t)
        },
        Some(Json::Array(a)) => {
            proof {
                lemma_array_view(*a);
            }
            let ghost view = items_view(a@);
            let mut t: Vec<u32> = Vec::new();
            let n: usize = a.len();
            let mut i: usize = 0;
            while i < n
                invariant
                    i <= n,
                    n == a@.len(),
                    view == items_view(a@),
                    j matches Some(v) && v@ == JsonView::Array(view),
                    t@.len() == i,
                    forall|k: int| 0 <= k < i ==> #[trigger] number32(view[k]) == Some(t@[k]),
                decreases n - i,
            {
                match read_number32(&a[i]) {
                    Some(x) => {
                        t.push(x);
                    },
                    None => {
                        assert(number32(view[i as int]) is None);
                        return None;
                    },
                }
                i = i + 1;
            }
            assert(t@ =~= tokens_value(Some(JsonView::Array(view)))->0);
            Some(t)
        },
        Some(_) => None,
    }
}

fn meta_from_json(j: &Json) -> (r: Option<ObjectMeta>)
    ensures
        match r {
            Some(m) => meta_of(j@) == Some(m@),
            None => meta_of(j@) is None,
        },
{
    let role = read_role(j.field(FIELDS, 7, "role"));
    let tokens = read_tokens(j.field(FIELDS, 8, "tokens"));
    let format = read_number32(j.field(FIELDS, 0, "format")?)?;
    let root = read_key(j.field(FIELDS, 1, "root")?)?;
    let kind = read_kind(j.field(FIELDS, 2, "kind")?)?;
    let key = read_key(j.field(FIELDS, 3, "key")?)?;
    let parent = read_key(j.field(FIELDS, 4, "parent")?)?;
    let start = read_size(j.field(FIELDS, 5, "start")?)?;
    let end = read_size(j.field(FIELDS, 6, "end")?)?;
    let bytes = j.field(FIELDS, 9, "bytes")?.as_u64()?;
    let last_used = j.field(FIELDS, 10, "last_used")?.as_u64()?;
    let role = role?;
    let tokens = tokens?;
    Some(
        ObjectMeta {
            format,
            root,
            kind,
            key,
            parent,
            start,
            end,
            role,
            tokens,
            bytes,
            last_used,
        },
    )
}

/// What stands in a header under a key.
spec fn header_entry(m: MetaView, key: Seq<char>) -> Option<JsonView> {
    if key == "format"@ {
        Some(number_view(m.format as nat))
    } else if key == "root"@ {
        Some(JsonView::Text(hex_text(m.root)))
    } else if key == "kind"@ {
        Some(JsonView::Text(m.kind.tag()))
    } else if key == "key"@ {
        Some(JsonView::Text(hex_text(m.key)))
    } else if key == "parent"@ {
        Some(JsonView::Text(hex_text(m.parent)))
    } else if key == "start"@ {
        Some(number_view(m.start as nat))
    } else if key == "end"@ {
        Some(number_view(m.end as nat))
    } else if key == "role"@ && m.role is Some {
        Some(JsonView::Text((m.role->0).text()))
    } else if key == "tokens"@ && m.tokens.len() > 0 {
        Some(JsonView::Array(token_items(m.tokens)))
    } else if key == "bytes"@ {
        Some(number_view(m.bytes as nat))
    } else if key == "last_used"@ {
        Some(number_view(m.last_used as nat))
    } else {
        None
    }
}

proof fn lemma_header_entry(m: MetaView, key: Seq<char>)
    ensures
        member(header_members(m), key) == header_entry(m, key),
{
    let e = Seq::<MemberView>::empty();
    let a1 = entry("format"@, number_view(m.format as nat));
    let a2 = entry("root"@, JsonView::Text(hex_text(m.root)));
    let a3 = entry("kind"@, JsonView::Text(m.kind.tag()));
    let a4 = entry("key"@, JsonView::Text(hex_text(m.key)));
    let a5 = entry("parent"@, JsonView::Text(hex_text(m.parent)));
    let a6 = entry("start"@, number_view(m.start as nat));
    let a7 = entry("end"@, number_view(m.end as nat));
    let b8 = entry("bytes"@, number_view(m.bytes as nat));
    let b9 = entry("last_used"@, number_view(m.last_used as nat));
    lemma_member_push(e, a1, key);
    lemma_member_push(e.push(a1), a2, key);
    lemma_member_push(e.push(a1).push(a2), a3, key);
    lemma_member_push(e.push(a1).push(a2).push(a3), a4, key);
    lemma_member_push(e.push(a1).push(a2).push(a3).push(a4), a5, key);
    lemma_member_push(e.push(a1).push(a2).push(a3).push(a4).push(a5), a6, key);
    lemma_member_push(e.push(a1).push(a2).push(a3).push(a4).push(a5).push(a6), a7, key);
    let front = header_front(m);
    let mid = match m.role {
        Some(r) => {
            let x = entry("role"@, JsonView::Text(r.text()));
            lemma_member_push(front, x, key);
            front.push(x)
        },
        None => front,
    };
    if m.tokens.len() > 0 {
        lemma_member_push(mid, entry("tokens"@, JsonView::Array(token_items(m.tokens))), key);
    }
    lemma_member_push(header_middle(m), b8, key);
    lemma_member_push(header_middle(m).push(b8), b9, key);
}

proof fn lemma_header_keys()
    ensures
        "format"@.len() == 6 && "format"@[0] == 'f',
        "root"@.len() == 4 && "root"@[1] == 'o' && "root"@[2] == 'o',
        "kind"@.len() == 4 && "kind"@[1] == 'i',
        "key"@.len() == 3 && "key"@[0] == 'k',
        "parent"@.len() == 6 && "parent"@[0] == 'p',
        "start"@.len() == 5 && "start"@[0] == 's',
        "end"@.len() == 3 && "end"@[0] == 'e',
        "role"@.len() == 4 && "role"@[1] == 'o' && "role"@[2] == 'l',
        "tokens"@.len() == 6 && "tokens"@[0] == 't',
        "bytes"@.len() == 5 && "bytes"@[0] == 'b',
        "last_used"@.len() == 9,
        "rows"@.len() == 4,
        "snapshot"@.len() == 8,
{
    reveal_strlit("format");
    reveal_strlit("root");
    reveal_strlit("kind");
    reveal_strlit("key");
    reveal_strlit("parent");
    reveal_strlit("start");
    reveal_strlit("end");
    reveal_strlit("role");
    reveal_strlit("tokens");
    reveal_strlit("bytes");
    reveal_strlit("last_used");
    reveal_strlit("rows");
    reveal_strlit("snapshot");
}

proof fn lemma_number_read(n: u64)
    ensures
        number_view(n as nat).number() == Some(n),
{
    law_decimal_round_trip(n as nat);
}

/// Keys of the length that stored metadata has.
pub open spec fn sized_keys(m: MetaView) -> bool {
    m.root.len() == 16 && m.key.len() == 16 && m.parent.len() == 16
}

proof fn lemma_meta_read_back(m: MetaView)
    requires
        sized_keys(m),
    ensures
        meta_of(meta_json(m)) == Some(m),
{
    lemma_header_keys();
    lemma_header_entry(m, "format"@);
    lemma_header_entry(m, "root"@);
    lemma_header_entry(m, "kind"@);
    lemma_header_entry(m, "key"@);
    lemma_header_entry(m, "parent"@);
    lemma_header_entry(m, "start"@);
    lemma_header_entry(m, "end"@);
    lemma_header_entry(m, "role"@);
    lemma_header_entry(m, "tokens"@);
    lemma_header_entry(m, "bytes"@);
    lemma_header_entry(m, "last_used"@);
    lemma_number_read(m.format as u64);
    lemma_number_read(m.start as u64);
    lemma_number_read(m.end as u64);
    lemma_number_read(m.bytes);
    lemma_number_read(m.last_used);
    law_hex_round_trip(m.root);
    law_hex_round_trip(m.key);
    law_hex_round_trip(m.parent);
    if let Some(r) = m.role {
        assert(role_named(r.text()) == Some(r)) by {
            assert forall|o: Role| #[trigger] o.text() == r.text() implies o == r by {
                law_role_names_distinct(o, r);
            }
        }
    }
    let items = token_items(m.tokens);
    assert forall|i: int| 0 <= i < items.len() implies #[trigger] number32(items[i]) == Some(
        m.tokens[i],
    ) by {
        lemma_number_read(m.tokens[i] as u64);
    }
    assert(tokens_value(meta_json(m).at("tokens"@)) == Some(m.tokens)) by {
        assert(tokens_value(meta_json(m).at("tokens"@))->0 =~= m.tokens);
    }
    assert(meta_of(meta_json(m))->0 =~= m);
}

proof fn lemma_meta_plain(m: MetaView)
    ensures
        plain(meta_json(m), 100),
{
    lemma_header_keys();
    let all = header_members(m);
    let items = token_items(m.tokens);
    assert forall|n: u64, d: nat| #[trigger] plain(number_view(n as nat), d) by {
        assert(decimal(n as nat) == decimal(n as nat));
    }
    assert(plain(JsonView::Array(items), 99)) by {
        assert forall|i: int| 0 <= i < items.len() implies plain(#[trigger] items[i], 98) by {
            assert(plain(number_view(m.tokens[i] as u64 as nat), 98));
        }
    }
    assert(plain(number_view(m.format as u64 as nat), 99));
    assert(plain(number_view(m.start as u64 as nat), 99));
    assert(plain(number_view(m.end as u64 as nat), 99));
    assert(plain(number_view(m.bytes as nat), 99));
    assert(plain(number_view(m.last_used as nat), 99));
    assert forall|i: int| 0 <= i < all.len() implies plain((#[trigger] all[i]).value, 99) by {}
    assert forall|i: int, j: int| 0 <= i < j < all.len() implies (#[trigger] all[i]).key != (
    #[trigger] all[j]).key by {}
}

/// The header bytes: the JSON length, the JSON, zero padding to a multiple of `ALIGN`. The only
/// failure is a header that does not fit the address space.
pub fn encode_header(meta: &ObjectMeta) -> (r: Result<AlignedBuf, ObjectError>)
    ensures
        match r {
            Ok(b) => b@ == header_bytes(meta@),
            Err(e) => e == ObjectError::TooLarge && meta_bytes(meta@).len() > usize::MAX - 4 * ALIGN,
        },
{
    let j = meta_to_json(meta);
    let s = to_compact(&j);
    let json = s.as_str().as_bytes();
    let n: usize = json.len();
    if n > usize::MAX - 4 * ALIGN {
        return Err(ObjectError::TooLarge);
    }
    let total: usize = padded(8 + n);
    let mut b = AlignedBuf::new(total);
    let mut len: Vec<u8> = Vec::new();
    push_le64(&mut len, n as u64);
    b.write(0, len.as_slice());
    b.write(8, json);
    assert(b@ =~= header_bytes(meta@));
    Ok(b)
}

/// The length of the JSON part, or what is wrong with it.
pub open spec fn json_len(b: Seq<u8>) -> Result<int, ObjectError> {
    if b.len() < 8 {
        Err(ObjectError::ShortHeader)
    } else if from_le64(b) == 0 || from_le64(b) > HEADER_MAX {
        Err(ObjectError::HeaderLength { len: from_le64(b) })
    } else {
        Ok(from_le64(b) as int)
    }
}

/// Length of the JSON part from the first 8 bytes.
pub fn header_json_len(first8: &[u8]) -> (r: Result<usize, ObjectError>)
    ensures
        match json_len(first8@) {
            Ok(n) => r == Ok::<usize, ObjectError>(n as usize) && 0 < n <= HEADER_MAX,
            Err(e) => r == Err::<usize, ObjectError>(e),
        },
{
    if first8.len() < 8 {
        return Err(ObjectError::ShortHeader);
    }
    let n: u64 = read_le64(first8);
    if n == 0 || n > HEADER_MAX {
        return Err(ObjectError::HeaderLength { len: n });
    }
    Ok(n as usize)
}

/// The metadata at the start of some bytes and the offset of the body, or what is wrong.
pub open spec fn decoded(b: Seq<u8>) -> Result<(MetaView, int), ObjectError> {
    match json_len(b) {
        Err(e) => Err(e),
        Ok(n) => if b.len() < 8 + n {
            Err(ObjectError::Truncated { have: b.len() as usize, need: (8 + n) as usize })
        } else {
            match parsed(b.subrange(8, 8 + n)) {
                None => Err(ObjectError::Json),
                Some(j) => if repeats(b.subrange(8, 8 + n), j, META_FIELDS@) {
                    Err(ObjectError::Json)
                } else {
                    match meta_of(j) {
                        None => Err(ObjectError::Json),
                        Some(m) => match m.flaw() {
                            Some(e) => Err(e),
                            None => Ok((m, pad(8 + n))),
                        },
                    }
                },
            }
        },
    }
}

/// Whether `b` starts with the header of the metadata `m`, whose JSON is short enough.
pub open spec fn holds_header(b: Seq<u8>, m: MetaView) -> bool {
    &&& sized_keys(m)
    &&& meta_bytes(m).len() <= HEADER_MAX
    &&& header_bytes(m).len() <= b.len()
    &&& b.subrange(0, header_bytes(m).len() as int) == header_bytes(m)
}

/// Decode a header from the start of `bytes` (which must hold all of it): the metadata and the
/// padded header length (the body offset). A header that `encode_header` wrote is read back as
/// the metadata it was written for, or refused where that metadata is not sound.
pub fn decode_header(bytes: &[u8]) -> (r: Result<(ObjectMeta, usize), ObjectError>)
    ensures
        match decoded(bytes@) {
            Ok((m, off)) => r matches Ok((meta, o)) && meta@ == m && o == off,
            Err(e) => r matches Err(f) && f == e,
        },
        forall|m: MetaView| #[trigger]
            holds_header(bytes@, m) ==> match m.flaw() {
                None => r matches Ok((meta, o)) && meta@ == m && o == header_bytes(m).len(),
                Some(e) => r matches Err(f) && f == e,
            },
{
    let n: usize = match header_json_len(bytes) {
        Ok(n) => n,
        Err(e) => {
            proof {
                lemma_header_length(bytes@);
            }
            return Err(e);
        },
    };
    let total: usize = bytes.len();
    proof {
        lemma_header_length(bytes@);
    }
    if total < 8 + n {
        return Err(ObjectError::Truncated { have: total, need: 8 + n });
    }
    let part = slice_subrange(bytes, 8, 8 + n);
    let j = match parse(part) {
        Some(j) => j,
        None => {
            proof {
                lemma_header_parsed(bytes@, None);
            }
            return Err(ObjectError::Json);
        },
    };
    proof {
        lemma_header_parsed(bytes@, Some(j@));
    }
    let fields: [&'static str; FIELDS] = META_FIELDS;
    if repeats_member(part, &j, fields.as_slice()) {
        return Err(ObjectError::Json);
    }
    let meta = match meta_from_json(&j) {
        Some(m) => m,
        None => {
            return Err(ObjectError::Json);
        },
    };
    match meta.validate() {
        Ok(_) => Ok((meta, padded(8 + n))),
        Err(e) => Err(e),
    }
}

/// A header fills whole blocks of the alignment: the body behind it starts at a multiple of it.
pub proof fn law_header_is_aligned(m: MetaView)
    ensures
        header_bytes(m).len() % (ALIGN as nat) == 0,
        header_bytes(m).len() >= 8 + meta_bytes(m).len(),
{
    let n = 8 + meta_bytes(m).len() as int;
    let q = (n + ALIGN - 1) / (ALIGN as int);
    assert(header_bytes(m).len() == q * ALIGN);
    assert((q * 4096) % 4096 == 0);
}

/// A header that is cut off inside its JSON is refused.
pub proof fn law_cut_header_is_refused(m: MetaView, k: int)
    requires
        meta_bytes(m).len() <= u64::MAX,
        0 <= k < 8 + meta_bytes(m).len(),
    ensures
        decoded(header_bytes(m).take(k)) is Err,
{
    law_header_is_aligned(m);
    if k >= 8 {
        lemma_cut_length(le64(meta_bytes(m).len() as u64), header_bytes(m), k);
        law_le64_round_trip(meta_bytes(m).len() as u64);
    }
}

proof fn lemma_cut_length(len: Seq<u8>, h: Seq<u8>, k: int)
    requires
        len.len() == 8,
        8 <= k <= h.len(),
        forall|i: int| 0 <= i < 8 ==> h[i] == #[trigger] len[i],
    ensures
        from_le64(h.take(k)) == from_le64(len),
{
    assert forall|i: int| 0 <= i < 8 implies h.take(k)[i] == len[i] by {}
}

proof fn lemma_header_length(b: Seq<u8>)
    ensures
        forall|m: MetaView| #[trigger]
            holds_header(b, m) ==> json_len(b) == Ok::<int, ObjectError>(
                meta_bytes(m).len() as int,
            ) && b.len() >= 8 + meta_bytes(m).len() && b.subrange(8, 8 + meta_bytes(m).len() as int)
                == meta_bytes(m) && header_bytes(m).len() == pad(8 + meta_bytes(m).len() as int),
{
    assert forall|m: MetaView| #[trigger] holds_header(b, m) implies json_len(b) == Ok::<
        int,
        ObjectError,
    >(meta_bytes(m).len() as int) && b.len() >= 8 + meta_bytes(m).len() && b.subrange(
        8,
        8 + meta_bytes(m).len() as int,
    ) == meta_bytes(m) && header_bytes(m).len() == pad(8 + meta_bytes(m).len() as int) by {
        let json = meta_bytes(m);
        let h = header_bytes(m);
        let len = le64(json.len() as u64);
        law_le64_round_trip(json.len() as u64);
        assert(h.len() == pad(8 + json.len() as int));
        assert(forall|i: int| 0 <= i < 8 ==> b[i] == len[i]) by {
            assert forall|i: int| 0 <= i < 8 implies b[i] == len[i] by {
                assert(b.subrange(0, h.len() as int)[i] == h[i]);
            }
        }
        assert(from_le64(b) == from_le64(len));
        assert(b.subrange(8, 8 + json.len() as int) =~= json) by {
            assert forall|i: int| 0 <= i < json.len() implies b[8 + i] == json[i] by {
                assert(b.subrange(0, h.len() as int)[8 + i] == h[8 + i]);
            }
        }
        lemma_json_nonempty(m);
    }
}

proof fn lemma_json_nonempty(m: MetaView)
    ensures
        meta_bytes(m).len() > 0,
{
    let t = compact(meta_json(m));
    assert(t.len() >= 2);
    vstd::utf8::encode_utf8_decode_utf8(t);
    if meta_bytes(m).len() == 0 {
        assert(vstd::utf8::decode_utf8(meta_bytes(m)).len() == 0);
    }
}

proof fn lemma_header_parsed(b: Seq<u8>, r: Option<JsonView>)
    requires
        json_len(b) is Ok,
        crate::json::reads_back(b.subrange(8, 8 + json_len(b)->Ok_0), r),
    ensures
        forall|m: MetaView| #[trigger]
            holds_header(b, m) ==> r == Some(meta_json(m)) && meta_of(meta_json(m)) == Some(m)
                && b.subrange(8, 8 + json_len(b)->Ok_0) == encode_utf8(compact(meta_json(m))),
{
    lemma_header_length(b);
    assert forall|m: MetaView| #[trigger] holds_header(b, m) implies r == Some(meta_json(m))
        && meta_of(meta_json(m)) == Some(m) && b.subrange(8, 8 + json_len(b)->Ok_0) == encode_utf8(
        compact(meta_json(m)),
    ) by {
        lemma_meta_plain(m);
        lemma_meta_read_back(m);
        assert(b.subrange(8, 8 + meta_bytes(m).len() as int) == encode_utf8(compact(meta_json(m))));
    }
}

/// An object takes the space of its header, about 12 bytes a token, and of its body, each in whole
/// blocks of 4096 bytes.
pub proof fn law_footprint_is_in_whole_blocks(m: MetaView)
    ensures
        m.footprint() % 4096 == 0,
        m.footprint() >= 256 + 12 * m.tokens.len() + m.bytes,
        m.footprint() < 256 + 12 * m.tokens.len() + m.bytes + 2 * 4096,
{
}

/// An object is sound exactly where it is of this format, runs forwards, and is rows with a role and
/// a token for every position, or a snapshot of one position.
pub proof fn law_sound_objects(m: MetaView)
    requires
        m.tokens.len() <= usize::MAX,
    ensures
        m.flaw() is None <==> m.format == 1 && m.start <= m.end && match m.kind {
            Kind::Rows => m.tokens.len() == m.end - m.start && m.role is Some,
            Kind::Snapshot => m.start == m.end,
        },
{
}

/// The name of an object is its key in hexadecimal and the extension of its kind.
pub proof fn law_form_of_a_name(key: Seq<u8>)
    ensures
        name_text(key, Kind::Rows) == hex_text(key) + "."@ + "rows"@,
        name_text(key, Kind::Snapshot) == hex_text(key) + "."@ + "snap"@,
{
}

/// A header begins with the length of its JSON and is filled up with zeros.
pub proof fn law_form_of_a_header(m: MetaView, i: int)
    requires
        meta_bytes(m).len() <= u64::MAX,
    ensures
        header_bytes(m).len() >= 8 + meta_bytes(m).len(),
        header_bytes(m).len() < 8 + meta_bytes(m).len() + 4096,
        header_bytes(m).subrange(0, 8) == le64(meta_bytes(m).len() as u64),
        header_bytes(m).subrange(8, 8 + meta_bytes(m).len() as int) == meta_bytes(m),
        8 + meta_bytes(m).len() <= i < header_bytes(m).len() ==> header_bytes(m)[i] == 0,
{
    let json = meta_bytes(m);
    let h = header_bytes(m);
    assert(le64(json.len() as u64).len() == 8);
    assert(h.subrange(0, 8) =~= le64(json.len() as u64));
    assert(h.subrange(8, 8 + json.len() as int) =~= json);
}

} // verus!
