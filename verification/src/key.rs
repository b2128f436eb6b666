//! Prefix keys: a 128-bit chain hash over everything that determines the engine state at a
//! position. `keys[p]` covers positions `0..p`, so `keys[0]` is the root (model identity only).
use crate::sha256::{digest, sha256};
use crate::text::{bytes_eq, digit_value, hex_char, hex_text, hex_value, to_chars, to_hex};
use vstd::prelude::*;
use vstd::string::StringSliceAdditionalSpecFns;

verus! {

/// The address of a stored state: the first 16 bytes of a SHA-256 digest.
#[derive(Clone, Copy, Debug, Hash)]
pub struct PrefixKey(pub [u8; 16]);

impl View for PrefixKey {
    type V = Seq<u8>;

    open spec fn view(&self) -> Seq<u8> {
        self.0@
    }
}

impl PartialEq for PrefixKey {
    fn eq(&self, other: &PrefixKey) -> (r: bool) {
        bytes_eq(self.0.as_slice(), other.0.as_slice())
    }
}

impl vstd::std_specs::cmp::PartialEqSpecImpl for PrefixKey {
    open spec fn obeys_eq_spec() -> bool {
        true
    }

    open spec fn eq_spec(&self, other: &PrefixKey) -> bool {
        self@ == other@
    }
}

impl Eq for PrefixKey {

}

/// The byte that two hexadecimal digits stand for.
pub open spec fn pair_value(a: char, b: char) -> Option<u8> {
    match (hex_value(a), hex_value(b)) {
        (Some(x), Some(y)) => Some((16 * x + y) as u8),
        _ => None,
    }
}

/// The sixteen bytes that a text of 32 hexadecimal digits stands for.
pub open spec fn parse_hex(s: Seq<char>) -> Option<Seq<u8>> {
    if s.len() == 32 && forall|i: int|
        0 <= i < 16 ==> (#[trigger] pair_value(s[2 * i], s[2 * i + 1])) is Some {
        Some(Seq::new(16, |i: int| pair_value(s[2 * i], s[2 * i + 1])->0))
    } else {
        None
    }
}

/// The key bytes of some data: the first half of its SHA-256 digest.
pub open spec fn key_of(data: Seq<u8>) -> Seq<u8> {
    digest(data).subrange(0, 16)
}

fn pair(a: char, b: char) -> (r: Option<u8>)
    ensures
        r == pair_value(a, b),
{
    let x = digit_value(a);
    let y = digit_value(b);
    match (x, y) {
        (Some(p), Some(q)) => Some(16 * p + q),
        _ => None,
    }
}

impl PrefixKey {
    /// The key as 32 lower-case hexadecimal digits.
    pub fn hex(&self) -> (s: String)
        ensures
            s@ == hex_text(self@),
    {
        to_hex(self.0.as_slice())
    }

    /// The key written as hexadecimal text; none for anything else.
    pub fn parse(s: &str) -> (r: Option<PrefixKey>)
        ensures
            match parse_hex(s@) {
                Some(bytes) => r matches Some(k) && k@ == bytes,
                None => r is None,
            },
    {
        let c = to_chars(s);
        if c.len() != 32 {
            return None;
        }
        let mut k = [0u8;16];
        let mut i: usize = 0;
        while i < 16
            invariant
                i <= 16,
                c@ == s@,
                c@.len() == 32,
                forall|j: int|
                    0 <= j < i ==> #[trigger] pair_value(s@[2 * j], s@[2 * j + 1]) == Some(k[j]),
            decreases 16 - i,
        {
            match pair(c[2 * i], c[2 * i + 1]) {
                Some(v) => {
                    k[i] = v;
                },
                None => {
                    assert(pair_value(s@[2 * i], s@[2 * i + 1]) is None);
                    return None;
                },
            }
            i = i + 1;
        }
        assert(k@ =~= parse_hex(s@)->0);
        Some(PrefixKey(k))
    }

    /// The key of some data.
    pub fn of(data: &[u8]) -> (k: PrefixKey)
        ensures
            k@ == key_of(data@),
    {
        let h = sha256(data);
        let mut k = [0u8;16];
        let mut i: usize = 0;
        while i < 16
            invariant
                i <= 16,
                h@ == digest(data@),
                forall|j: int| 0 <= j < i ==> k[j] == h[j],
            decreases 16 - i,
        {
            k[i] = h[i];
            i = i + 1;
        }
        assert(k@ =~= key_of(data@));
        PrefixKey(k)
    }
}

/// The hexadecimal text of a key parses back to that key.
pub proof fn law_hex_round_trip(key: Seq<u8>)
    requires
        key.len() == 16,
    ensures
        parse_hex(hex_text(key)) == Some(key),
{
    let s = hex_text(key);
    assert forall|i: int| 0 <= i < 16 implies #[trigger] pair_value(s[2 * i], s[2 * i + 1]) == Some(
        key[i],
    ) by {
        let hi = key[i] as int / 16;
        let lo = key[i] as int % 16;
        assert(s[2 * i] == hex_char(hi));
        assert(s[2 * i + 1] == hex_char(lo)) by {
            assert((2 * i + 1) / 2 == i);
            assert((2 * i + 1) % 2 == 1);
        }
        assert(hex_value(hex_char(hi)) == Some(hi));
        assert(hex_value(hex_char(lo)) == Some(lo));
    }
    assert(parse_hex(s)->0 =~= key);
}

/// The four bytes of a 32-bit word, least significant first.
pub open spec fn le32(x: u32) -> Seq<u8> {
    seq![x as u8, (x >> 8) as u8, (x >> 16) as u8, (x >> 24) as u8]
}

/// The eight bytes of a 64-bit word, least significant first.
pub open spec fn le64(x: u64) -> Seq<u8> {
    le32(x as u32) + le32((x >> 32) as u32)
}

/// The 64-bit word that eight bytes stand for, least significant first.
pub open spec fn from_le64(b: Seq<u8>) -> u64 {
    (b[0] as u64) | ((b[1] as u64) << 8) | ((b[2] as u64) << 16) | ((b[3] as u64) << 24) | ((
    b[4] as u64) << 32) | ((b[5] as u64) << 40) | ((b[6] as u64) << 48) | ((b[7] as u64) << 56)
}

/// The bytes of a word stand for that word.
pub proof fn law_le64_round_trip(x: u64)
    ensures
        from_le64(le64(x)) == x,
{
    let lo = x as u32;
    let hi = (x >> 32) as u32;
    let b = le64(x);
    assert(b[0] == lo as u8 && b[1] == (lo >> 8) as u8 && b[2] == (lo >> 16) as u8 && b[3] == (lo
        >> 24) as u8);
    assert(b[4] == hi as u8 && b[5] == (hi >> 8) as u8 && b[6] == (hi >> 16) as u8 && b[7] == (hi
        >> 24) as u8);
    assert((x as u32 as u8 as u64) | ((((x as u32) >> 8) as u8 as u64) << 8) | ((((x as u32)
        >> 16) as u8 as u64) << 16) | ((((x as u32) >> 24) as u8 as u64) << 24) | (((((x >> 32) as u32) as u8) as u64)
        << 32) | (((((x >> 32) as u32) >> 8) as u8 as u64) << 40) | (((((x >> 32) as u32)
        >> 16) as u8 as u64) << 48) | (((((x >> 32) as u32) >> 24) as u8 as u64) << 56) == x)
        by (bit_vector);
}

pub(crate) fn read_le64(b: &[u8]) -> (x: u64)
    requires
        b@.len() >= 8,
    ensures
        x == from_le64(b@),
{
    (b[0] as u64) | ((b[1] as u64) << 8) | ((b[2] as u64) << 16) | ((b[3] as u64) << 24) | ((
    b[4] as u64) << 32) | ((b[5] as u64) << 40) | ((b[6] as u64) << 48) | ((b[7] as u64) << 56)
}

pub(crate) fn push_bytes(buf: &mut Vec<u8>, b: &[u8])
    ensures
        final(buf)@ == old(buf)@ + b@,
{
    let n: usize = b.len();
    let ghost start = buf@;
    let mut i: usize = 0;
    while i < n
        invariant
            i <= n,
            n == b@.len(),
            buf@ == start + b@.subrange(0, i as int),
        decreases n - i,
    {
        buf.push(b[i]);
        i = i + 1;
    }
    assert(b@.subrange(0, n as int) =~= b@);
}

pub(crate) fn push_le32(buf: &mut Vec<u8>, x: u32)
    ensures
        final(buf)@ == old(buf)@ + le32(x),
{
    buf.push(x as u8);
    buf.push((x >> 8) as u8);
    buf.push((x >> 16) as u8);
    buf.push((x >> 24) as u8);
    assert(buf@ =~= old(buf)@ + le32(x));
}

pub(crate) fn push_le64(buf: &mut Vec<u8>, x: u64)
    ensures
        final(buf)@ == old(buf)@ + le64(x),
{
    push_le32(buf, x as u32);
    push_le32(buf, (x >> 32) as u32);
    assert(buf@ =~= old(buf)@ + le64(x));
}

/// Each text with its length in front, one after the other.
pub open spec fn material_bytes(material: Seq<&str>) -> Seq<u8>
    decreases material.len(),
{
    if material.len() == 0 {
        Seq::empty()
    } else {
        let m = material.last();
        material_bytes(material.drop_last()) + le32(m.len() as u32) + m.spec_bytes()
    }
}

/// The root key of a store: everything about the engine that changes the bytes of the state
/// (pack hash, K/V element type, tile count, overlay packs, the state layout version).
pub fn root_key(material: &[&str]) -> (k: PrefixKey)
    ensures
        k@ == key_of(material_bytes(material@)),
{
    let mut buf: Vec<u8> = Vec::new();
    let n: usize = material.len();
    let mut i: usize = 0;
    while i < n
        invariant
            i <= n,
            n == material@.len(),
            buf@ == material_bytes(material@.subrange(0, i as int)),
        decreases n - i,
    {
        let m: &str = material[i];
        push_le32(&mut buf, m.len() as u32);
        push_bytes(&mut buf, m.as_bytes());
        assert(material@.subrange(0, i + 1).drop_last() =~= material@.subrange(0, i as int));
        i = i + 1;
    }
    assert(material@.subrange(0, n as int) =~= material@);
    PrefixKey::of(buf.as_slice())
}

/// An image of a prompt: its first row, the hash of its content, and how many rows it takes.
pub type ImageRow = (usize, u64, usize);

/// The first image at or after `i` that does not start before position `p`.
pub open spec fn skip_images(images: Seq<ImageRow>, i: int, p: int) -> int
    decreases images.len() - i,
{
    if 0 <= i < images.len() && images[i].0 < p { skip_images(images, i + 1, p) } else { i }
}

/// How many images are behind the position `p`: passed over, or folded in before it.
pub open spec fn image_cursor(images: Seq<ImageRow>, p: int) -> int
    decreases p,
{
    if p <= 0 {
        0
    } else {
        let i = skip_images(images, image_cursor(images, p - 1), p - 1);
        if 0 <= i < images.len() && images[i].0 == p - 1 { i + 1 } else { i }
    }
}

/// The content hash that is folded into the key after position `p`, if an image starts there.
pub open spec fn folded_image(images: Seq<ImageRow>, p: int) -> Option<u64> {
    let i = skip_images(images, image_cursor(images, p), p);
    if 0 <= i < images.len() && images[i].0 == p { Some(images[i].1) } else { None }
}

/// The key that follows `prev` when a token, and perhaps an image, is appended.
pub open spec fn next_key(prev: Seq<u8>, tok: u32, image: Option<u64>) -> Seq<u8> {
    match image {
        Some(h) => key_of(prev + le32(tok) + le64(h)),
        None => key_of(prev + le32(tok)),
    }
}

/// The key of positions `0..p`.
pub open spec fn chain_key(root: Seq<u8>, toks: Seq<u32>, images: Seq<ImageRow>, p: int) -> Seq<u8>
    decreases p,
{
    if p <= 0 {
        root
    } else {
        next_key(chain_key(root, toks, images, p - 1), toks[p - 1], folded_image(images, p - 1))
    }
}

proof fn lemma_skip_images(images: Seq<ImageRow>, i: int, p: int)
    requires
        0 <= i <= images.len(),
    ensures
        i <= skip_images(images, i, p) <= images.len(),
    decreases images.len() - i,
{
    if i < images.len() && images[i].0 < p {
        lemma_skip_images(images, i + 1, p);
    }
}

/// Chain keys of `toks`: `len + 1` entries, `keys[p]` = hash of the root and positions `0..p`.
/// `images` are `(first row, content hash, rows)`; an image's content is folded in at its first
/// row (its rows all carry the pad token, so the ids alone would not tell images apart).
pub fn prefix_keys(root: &PrefixKey, toks: &[u32], images: &[ImageRow]) -> (keys: Vec<PrefixKey>)
    ensures
        keys@.len() == toks@.len() + 1,
        forall|p: int|
            0 <= p <= toks@.len() ==> (#[trigger] keys@[p])@ == chain_key(root@, toks@, images@, p),
{
    let mut keys: Vec<PrefixKey> = Vec::new();
    keys.push(*root);
    let n: usize = toks.len();
    let m: usize = images.len();
    let mut img: usize = 0;
    let mut p: usize = 0;
    while p < n
        invariant
            p <= n,
            n == toks@.len(),
            m == images@.len(),
            img <= m,
            img == image_cursor(images@, p as int),
            keys@.len() == p + 1,
            forall|q: int|
                0 <= q <= p ==> (#[trigger] keys@[q])@ == chain_key(root@, toks@, images@, q),
        decreases n - p,
    {
        let prev = keys[p];
        let mut buf: Vec<u8> = Vec::new();
        push_bytes(&mut buf, prev.0.as_slice());
        push_le32(&mut buf, toks[p]);
        assert(buf@ =~= prev@ + le32(toks@[p as int]));
        let ghost start = img;
        while img < m && images[img].0 < p
            invariant
                start <= img <= m,
                m == images@.len(),
                skip_images(images@, start as int, p as int) == skip_images(
                    images@,
                    img as int,
                    p as int,
                ),
            decreases m - img,
        {
            img = img + 1;
        }
        if img < m && images[img].0 == p {
            push_le64(&mut buf, images[img].1);
            img = img + 1;
        }
        keys.push(PrefixKey::of(buf.as_slice()));
        p = p + 1;
    }
    keys
}

/// Keys depend on what comes before them only: two sequences that agree on their first `n`
/// tokens, and on the images folded in there, share the keys of positions `0..=n`.
pub proof fn law_prefix_shares_keys(
    root: Seq<u8>,
    toks1: Seq<u32>,
    images1: Seq<ImageRow>,
    toks2: Seq<u32>,
    images2: Seq<ImageRow>,
    n: int,
    p: int,
)
    requires
        0 <= p <= n,
        n <= toks1.len(),
        n <= toks2.len(),
        forall|q: int| 0 <= q < n ==> toks1[q] == toks2[q],
        forall|q: int|
            0 <= q < n ==> #[trigger] folded_image(images1, q) == folded_image(images2, q),
    ensures
        chain_key(root, toks1, images1, p) == chain_key(root, toks2, images2, p),
    decreases p,
{
    if p > 0 {
        law_prefix_shares_keys(root, toks1, images1, toks2, images2, n, p - 1);
        assert(folded_image(images1, p - 1) == folded_image(images2, p - 1));
    }
}

/// Images whose first rows increase strictly.
pub open spec fn images_in_order(images: Seq<ImageRow>) -> bool {
    forall|i: int, j: int| 0 <= i < j < images.len() ==> (#[trigger] images[i]).0 < (
    #[trigger] images[j]).0
}

proof fn lemma_cursor_counts(images: Seq<ImageRow>, p: int)
    requires
        images_in_order(images),
        p >= 0,
    ensures
        0 <= image_cursor(images, p) <= images.len(),
        forall|i: int| 0 <= i < image_cursor(images, p) ==> (#[trigger] images[i]).0 < p,
        forall|i: int| image_cursor(images, p) <= i < images.len() ==> (#[trigger] images[i]).0 >= p,
    decreases p,
{
    if p > 0 {
        lemma_cursor_counts(images, p - 1);
        let c = image_cursor(images, p - 1);
        assert(skip_images(images, c, p - 1) == c);
        assert forall|i: int| image_cursor(images, p) <= i < images.len() implies (
        #[trigger] images[i]).0 >= p by {
            if c < images.len() && i > c {
                assert(images[c].0 < images[i].0);
            }
        }
    }
}

/// With images in order, what is folded in at a position is the hash of the image that starts
/// there, and nothing where no image starts.
pub proof fn law_image_folded_at_its_first_row(images: Seq<ImageRow>, p: int)
    requires
        images_in_order(images),
        p >= 0,
    ensures
        forall|i: int|
            0 <= i < images.len() && (#[trigger] images[i]).0 == p ==> folded_image(images, p)
                == Some(images[i].1),
        (forall|i: int| 0 <= i < images.len() ==> (#[trigger] images[i]).0 != p) ==> folded_image(
            images,
            p,
        ) is None,
{
    lemma_cursor_counts(images, p);
    let c = image_cursor(images, p);
    assert(skip_images(images, c, p) == c);
    assert forall|i: int| 0 <= i < images.len() && (#[trigger] images[i]).0 == p implies folded_image(
        images,
        p,
    ) == Some(images[i].1) by {
        if c < i {
            assert(images[c].0 < images[i].0);
        }
    }
}

/// The bytes of a number, the lowest first.
pub proof fn law_le32_bytes(x: u32)
    ensures
        le32(x).len() == 4,
        le32(x)[0] == x % 256,
        le32(x)[1] == x / 0x100 % 256,
        le32(x)[2] == x / 0x1_0000 % 256,
        le32(x)[3] == x / 0x100_0000,
{
    assert(x as u8 == x % 256 && (x >> 8) as u8 == x / 0x100 % 256 && (x >> 16) as u8 == x / 0x1_0000 % 256
        && (x >> 24) as u8 == x / 0x100_0000) by (bit_vector);
}

/// The key of a position is the beginning of the digest of the key before it, the token, and the hash
/// of the image that starts there; the first is the root.
pub proof fn law_keys_are_chained(root: Seq<u8>, toks: Seq<u32>, images: Seq<ImageRow>, p: int)
    requires
        0 <= p,
    ensures
        chain_key(root, toks, images, 0) == root,
        ({
            let before = chain_key(root, toks, images, p);
            let after = chain_key(root, toks, images, p + 1);
            match folded_image(images, p) {
                None => after == digest(before + le32(toks[p])).subrange(0, 16),
                Some(h) => after == digest(before + le32(toks[p]) + le64(h)).subrange(0, 16),
            }
        }),
{
}

/// What a root is made of is taken in its order, each part with its length before it.
pub proof fn law_parts_of_a_root(material: Seq<&str>, m: &str)
    ensures
        material_bytes(material.push(m)) == material_bytes(material) + le32(m.len() as u32) + m.spec_bytes(),
        material_bytes(Seq::empty()) == Seq::<u8>::empty(),
{
    assert(material.push(m).drop_last() =~= material);
}

} // verus!
