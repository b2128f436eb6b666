//! TQ block codec layout.
//!
//! Block = 16 rows x KB k-columns: `d[16] f16 | m[16] f16 | q bytes | (5-bit) high-bit plane`.
//! 4/5-bit q: chunk j (0..KB/8) is 64 bytes = 16 rows x 4 k as dwords; low nibble k = 4j+i,
//! high nibble k = KB/2 + 4j + i. 5-bit plane: per chunk j, 64 bits (low half) then 64 bits
//! (high half), bit index r*4+i. 8-bit q: chunk j (0..KB/4) is 64 bytes, k = 4j+i.
//! w[r][k] = d[r]*q + m[r].
use vstd::prelude::*;

verus! {

pub const STRIP: usize = 16;

pub const HDR_BYTES: usize = 64;

/// How weights are quantised: bits per weight, and k-columns per block.
#[derive(Clone, Copy, Debug, PartialEq, Eq, Structural)]
pub struct Codec {
    pub bits: u8,
    pub kb: usize,
}

/// `rows` rounded up to whole strips.
pub open spec fn strips_up(rows: int) -> int {
    (rows + 15) / 16 * 16
}

impl Codec {
    /// Whether blocks of so many bits exist.
    pub open spec fn known(self) -> bool {
        self.bits == 4 || self.bits == 5 || self.bits == 8
    }

    /// Whether the columns of a block fill whole chunks.
    pub open spec fn aligned(self) -> bool {
        &&& self.known()
        &&& self.kb > 0
        &&& if self.bits == 8 { self.kb % 4 == 0 } else { self.kb % 8 == 0 }
    }

    /// The bytes of one block.
    pub open spec fn block_size(self) -> int {
        if self.bits == 8 {
            64 + 16 * self.kb
        } else if self.bits == 4 {
            64 + 16 * self.kb as int / 2
        } else {
            64 + 16 * self.kb as int / 2 + 2 * self.kb
        }
    }

    /// The bytes of a matrix: its strips of 16 rows, each of `k / kb` blocks.
    pub open spec fn matrix_size(self, rows: int, k: int) -> int {
        strips_up(rows) / 16 * (k / (self.kb as int) * self.block_size())
    }

    pub fn new(bits: u8, kb: usize) -> (c: Codec)
        ensures
            c == (Codec { bits, kb }),
    {
        Codec { bits, kb }
    }

    /// The bytes of one block.
    pub fn block_bytes(&self) -> (n: usize)
        requires
            self.known(),
            64 + 16 * self.kb <= usize::MAX,
        ensures
            n == self.block_size(),
    {
        match self.bits {
            8 => HDR_BYTES + STRIP * self.kb,
            4 => HDR_BYTES + STRIP * self.kb / 2,
            _ => HDR_BYTES + STRIP * self.kb / 2 + 2 * self.kb,
        }
    }

    /// The bytes of the q values of one block, without a high-bit plane.
    pub fn q_bytes(&self) -> (n: usize)
        requires
            16 * self.kb <= usize::MAX,
        ensures
            n == if self.bits == 8 { 16 * self.kb as int } else { 16 * self.kb as int / 2 },
    {
        match self.bits {
            8 => STRIP * self.kb,
            _ => STRIP * self.kb / 2,
        }
    }

    /// The bytes of one strip of a matrix with `k` columns.
    pub fn strip_bytes(&self, k: usize) -> (n: usize)
        requires
            self.known(),
            self.kb > 0,
            64 + 16 * self.kb <= usize::MAX,
            k as int / self.kb as int * self.block_size() <= usize::MAX,
        ensures
            n == k as int / self.kb as int * self.block_size(),
    {
        (k / self.kb) * self.block_bytes()
    }

    /// The bytes of a matrix.
    pub fn matrix_bytes(&self, rows: usize, k: usize) -> (n: usize)
        requires
            self.known(),
            self.kb > 0,
            64 + 16 * self.kb <= usize::MAX,
            rows + 15 <= usize::MAX,
            k as int / self.kb as int * self.block_size() <= usize::MAX,
            self.matrix_size(rows as int, k as int) <= usize::MAX,
        ensures
            n == self.matrix_size(rows as int, k as int),
    {
        pad_rows(rows) / STRIP * self.strip_bytes(k)
    }
}

/// `rows` rounded up to whole strips.
pub fn pad_rows(rows: usize) -> (n: usize)
    requires
        rows + 15 <= usize::MAX,
    ensures
        n == strips_up(rows as int),
{
    (rows + (STRIP - 1)) / STRIP * STRIP
}

/// Whether the q value of column `kk` stands in the high half of its byte.
pub open spec fn in_high(c: Codec, kk: int) -> bool {
    kk >= c.kb as int / 2
}

/// The column within its half.
pub open spec fn half_column(c: Codec, kk: int) -> int {
    if in_high(c, kk) { kk - c.kb as int / 2 } else { kk }
}

/// The byte of a block in which the q value of (row, column) stands.
pub open spec fn q_place(c: Codec, r: int, kk: int) -> int {
    let col = if c.bits == 8 { kk } else { half_column(c, kk) };
    64 + col / 4 * 64 + r * 4 + col % 4
}

/// The byte of a block in which the fifth bit of (row, column) stands.
pub open spec fn plane_place(c: Codec, r: int, kk: int) -> int {
    let col = half_column(c, kk);
    let bit = r * 4 + col % 4;
    64 + c.kb as int / 8 * 64 + col / 4 * 16 + (if in_high(c, kk) { 8int } else { 0int }) + bit / 8
}

/// Which bit of its byte the fifth bit of (row, column) is.
pub open spec fn plane_bit(c: Codec, r: int, kk: int) -> u8 {
    ((r * 4 + half_column(c, kk) % 4) % 8) as u8
}

/// The unsigned q value of (row, column) inside one block.
pub open spec fn q_in(blk: Seq<u8>, c: Codec, r: int, kk: int) -> u32 {
    let byte = blk[q_place(c, r, kk)];
    if c.bits == 8 {
        byte as u32
    } else {
        let low: u8 = if in_high(c, kk) { byte >> 4u8 } else { byte & 0x0f };
        if c.bits == 5 {
            let high: u8 = (blk[plane_place(c, r, kk)] >> plane_bit(c, r, kk)) & 1;
            (low as u32) | ((high as u32) << 4)
        } else {
            low as u32
        }
    }
}

/// Unsigned q value of (row r, column kk) inside one block.
pub fn block_q(blk: &[u8], c: Codec, r: usize, kk: usize) -> (q: u32)
    requires
        c.aligned(),
        r < 16,
        kk < c.kb,
        blk@.len() >= c.block_size(),
    ensures
        q == q_in(blk@, c, r as int, kk as int),
        q < 256,
{
    let total: usize = blk.len();
    proof {
        lemma_q_place(c, r as int, kk as int);
    }
    if c.bits == 8 {
        return blk[64 + (kk / 4) * 64 + r * 4 + kk % 4] as u32;
    }
    proof {
        lemma_half_column(c, kk as int);
        if c.bits == 5 {
            lemma_plane_place(c, r as int, kk as int);
        }
    }
    let half: usize = c.kb / 2;
    let high: bool = kk >= half;
    let col: usize = if high { kk - half } else { kk };
    let j: usize = col / 4;
    let i: usize = col % 4;
    let byte: u8 = blk[64 + j * 64 + r * 4 + i];
    let low: u8 = if high { byte >> 4u8 } else { byte & 0x0f };
    if c.bits == 5 {
        let bit: usize = r * 4 + i;
        let p: u8 = blk[64 + c.kb / 8 * 64 + j * 16 + (if high { 8usize } else { 0usize }) + bit / 8];
        let h: u8 = (p >> ((bit % 8) as u8)) & 1;
        let s: u8 = (bit % 8) as u8;
        assert((low as u32) | ((((p >> s) & 1) as u32) << 4) < 256) by (bit_vector);
        (low as u32) | ((h as u32) << 4)
    } else {
        low as u32
    }
}

/// How many q values there are with so many bits.
pub open spec fn q_range(bits: u8) -> int {
    if bits == 8 {
        256
    } else if bits == 5 {
        32
    } else {
        16
    }
}

proof fn lemma_nibbles(x: u8, n: u8)
    requires
        n < 16,
    ensures
        ((x & 0xf0) | n) & 0x0f == n,
        ((x & 0xf0) | n) >> 4u8 == x >> 4u8,
        ((x & 0x0f) | (n << 4u8)) >> 4u8 == n,
        ((x & 0x0f) | (n << 4u8)) & 0x0f == x & 0x0f,
{
    assert(((x & 0xf0) | n) & 0x0f == n) by (bit_vector)
        requires
            n < 16,
    ;
    assert(((x & 0xf0) | n) >> 4u8 == x >> 4u8) by (bit_vector)
        requires
            n < 16,
    ;
    assert(((x & 0x0f) | (n << 4u8)) >> 4u8 == n) by (bit_vector)
        requires
            n < 16,
    ;
    assert(((x & 0x0f) | (n << 4u8)) & 0x0f == x & 0x0f) by (bit_vector)
        requires
            n < 16,
    ;
}

proof fn lemma_one_bit(x: u8, k: u8, j: u8)
    requires
        k < 8,
        j < 8,
    ensures
        ((x | (1u8 << k)) >> k) & 1 == 1,
        ((x & !(1u8 << k)) >> k) & 1 == 0,
        j != k ==> ((x | (1u8 << k)) >> j) & 1 == (x >> j) & 1,
        j != k ==> ((x & !(1u8 << k)) >> j) & 1 == (x >> j) & 1,
{
    assert(((x | (1u8 << k)) >> k) & 1 == 1) by (bit_vector)
        requires
            k < 8,
    ;
    assert(((x & !(1u8 << k)) >> k) & 1 == 0) by (bit_vector)
        requires
            k < 8,
    ;
    assert(j != k ==> ((x | (1u8 << k)) >> j) & 1 == (x >> j) & 1) by (bit_vector)
        requires
            k < 8,
            j < 8,
    ;
    assert(j != k ==> ((x & !(1u8 << k)) >> j) & 1 == (x >> j) & 1) by (bit_vector)
        requires
            k < 8,
            j < 8,
    ;
}

proof fn lemma_q_parts(q: u32)
    ensures
        ((q & 0xf) as u8) < 16,
        (q & 0xf) as u8 as u32 == q % 16,
        ((q & 0xf) as u8 as u32) | ((1u8 as u32) << 4) == q % 16 + 16,
        ((q & 0xf) as u8 as u32) | ((0u8 as u32) << 4) == q % 16,
        (q >> 4) & 1 == 1 ==> q % 32 == q % 16 + 16,
        (q >> 4) & 1 != 1 ==> q % 32 == q % 16,
        q as u8 == q % 256,
{
    assert(((q & 0xf) as u8) < 16 && (q & 0xf) as u8 as u32 == q % 16 && ((q & 0xf) as u8 as u32) | ((
    1u8 as u32) << 4) == q % 16 + 16 && ((q & 0xf) as u8 as u32) | ((0u8 as u32) << 4) == q % 16)
        by (bit_vector);
    assert(((q >> 4) & 1 == 1 ==> q % 32 == q % 16 + 16) && ((q >> 4) & 1 != 1 ==> q % 32 == q % 16)
        && q as u8 == q % 256) by (bit_vector);
}

/// A number in mixed radix (any, 16, 4) has one representation.
proof fn lemma_radix(a: int, b: int, d: int, a2: int, b2: int, d2: int)
    requires
        0 <= b < 16,
        0 <= d < 4,
        0 <= b2 < 16,
        0 <= d2 < 4,
        a * 64 + b * 4 + d == a2 * 64 + b2 * 4 + d2,
    ensures
        a == a2,
        b == b2,
        d == d2,
{
}

/// The column of a nibble lies in a chunk of its half.
proof fn lemma_half_column(c: Codec, kk: int)
    requires
        c.aligned(),
        c.bits != 8,
        0 <= kk < c.kb,
    ensures
        0 <= half_column(c, kk) / 4 < c.kb as int / 8,
        0 <= half_column(c, kk) % 4 < 4,
        half_column(c, kk) == half_column(c, kk) / 4 * 4 + half_column(c, kk) % 4,
{
    let n = c.kb as int / 8;
    assert(c.kb == 8 * n);
}

proof fn lemma_q_place(c: Codec, r: int, kk: int)
    requires
        c.aligned(),
        0 <= r < 16,
        0 <= kk < c.kb,
    ensures
        64 <= q_place(c, r, kk) < c.block_size(),
        c.bits != 8 ==> q_place(c, r, kk) < 64 + c.kb as int / 8 * 64,
{
    if c.bits == 8 {
        let n = c.kb as int / 4;
        assert(c.kb == 4 * n);
        assert(0 <= kk / 4 < n);
    } else {
        lemma_half_column(c, kk);
        let n = c.kb as int / 8;
        assert(c.kb == 8 * n);
    }
}

proof fn lemma_plane_place(c: Codec, r: int, kk: int)
    requires
        c.aligned(),
        c.bits == 5,
        0 <= r < 16,
        0 <= kk < c.kb,
    ensures
        64 + c.kb as int / 8 * 64 <= plane_place(c, r, kk) < c.block_size(),
        plane_bit(c, r, kk) < 8,
{
    lemma_half_column(c, kk);
    let n = c.kb as int / 8;
    assert(c.kb == 8 * n);
    let bit = r * 4 + half_column(c, kk) % 4;
    assert(0 <= bit < 64);
    assert(0 <= bit / 8 < 8);
}

/// Bytes of different (row, column) pairs do not coincide, apart from the two halves of a byte.
proof fn lemma_q_places_differ(c: Codec, r: int, kk: int, r2: int, kk2: int)
    requires
        c.aligned(),
        0 <= r < 16,
        0 <= kk < c.kb,
        0 <= r2 < 16,
        0 <= kk2 < c.kb,
        q_place(c, r, kk) == q_place(c, r2, kk2),
        c.bits != 8 ==> in_high(c, kk) == in_high(c, kk2),
    ensures
        r == r2,
        kk == kk2,
{
    if c.bits == 8 {
        lemma_radix(kk / 4, r, kk % 4, kk2 / 4, r2, kk2 % 4);
    } else {
        lemma_half_column(c, kk);
        lemma_half_column(c, kk2);
        let x = half_column(c, kk);
        let y = half_column(c, kk2);
        lemma_radix(x / 4, r, x % 4, y / 4, r2, y % 4);
    }
}

/// Plane bits of different (row, column) pairs do not coincide.
proof fn lemma_plane_places_differ(c: Codec, r: int, kk: int, r2: int, kk2: int)
    requires
        c.aligned(),
        c.bits == 5,
        0 <= r < 16,
        0 <= kk < c.kb,
        0 <= r2 < 16,
        0 <= kk2 < c.kb,
        plane_place(c, r, kk) == plane_place(c, r2, kk2),
        plane_bit(c, r, kk) == plane_bit(c, r2, kk2),
    ensures
        r == r2,
        kk == kk2,
{
    lemma_half_column(c, kk);
    lemma_half_column(c, kk2);
    let x = half_column(c, kk);
    let y = half_column(c, kk2);
    let b1 = r * 4 + x % 4;
    let b2 = r2 * 4 + y % 4;
    let h1 = if in_high(c, kk) { 1int } else { 0int };
    let h2 = if in_high(c, kk2) { 1int } else { 0int };
    assert(0 <= b1 < 64 && 0 <= b2 < 64);
    assert(x / 4 * 16 + h1 * 8 + b1 / 8 == y / 4 * 16 + h2 * 8 + b2 / 8);
    assert(x / 4 == y / 4 && h1 == h2 && b1 / 8 == b2 / 8);
    assert(b1 % 8 == b2 % 8);
    assert(b1 == b2);
}

/// Whether everything in a block but the q value of (r, kk) is as before.
spec fn others_kept(b0: Seq<u8>, b1: Seq<u8>, c: Codec, r: int, kk: int) -> bool {
    &&& b1.len() == b0.len()
    &&& forall|i: int| 0 <= i < 64 ==> b1[i] == b0[i]
    &&& forall|r2: int, kk2: int|
        0 <= r2 < 16 && 0 <= kk2 < c.kb && !(r2 == r && kk2 == kk) ==> #[trigger] q_in(
            b1,
            c,
            r2,
            kk2,
        ) == q_in(b0, c, r2, kk2)
}

proof fn lemma_kept_bytes(b0: Seq<u8>, b1: Seq<u8>, c: Codec, r: int, kk: int)
    requires
        c.aligned(),
        c.bits == 8,
        0 <= r < 16,
        0 <= kk < c.kb,
        b0.len() == c.block_size(),
        b1 == b0.update(q_place(c, r, kk), b1[q_place(c, r, kk)]),
    ensures
        others_kept(b0, b1, c, r, kk),
{
    lemma_q_place(c, r, kk);
    assert forall|r2: int, kk2: int|
        0 <= r2 < 16 && 0 <= kk2 < c.kb && !(r2 == r && kk2 == kk) implies #[trigger] q_in(
        b1,
        c,
        r2,
        kk2,
    ) == q_in(b0, c, r2, kk2) by {
        lemma_q_place(c, r2, kk2);
        if q_place(c, r2, kk2) == q_place(c, r, kk) {
            lemma_q_places_differ(c, r, kk, r2, kk2);
        }
    }
}

proof fn lemma_kept_nibbles(b0: Seq<u8>, b1: Seq<u8>, c: Codec, r: int, kk: int)
    requires
        c.aligned(),
        c.bits != 8,
        0 <= r < 16,
        0 <= kk < c.kb,
        b0.len() == c.block_size(),
        b1.len() == b0.len(),
        ({
            let at = q_place(c, r, kk);
            let p = plane_place(c, r, kk);
            let k = plane_bit(c, r, kk);
            &&& forall|i: int|
                0 <= i < b0.len() && i != at && (c.bits != 5 || i != p) ==> b1[i] == b0[i]
            &&& in_high(c, kk) ==> b1[at] & 0x0f == b0[at] & 0x0f
            &&& !in_high(c, kk) ==> b1[at] >> 4u8 == b0[at] >> 4u8
            &&& c.bits == 5 ==> forall|j: u8|
                j < 8 && j != k ==> #[trigger] (b1[p] >> j) & 1 == (b0[p] >> j) & 1
        }),
    ensures
        others_kept(b0, b1, c, r, kk),
{
    let at = q_place(c, r, kk);
    lemma_q_place(c, r, kk);
    if c.bits == 5 {
        lemma_plane_place(c, r, kk);
    }
    assert forall|r2: int, kk2: int|
        0 <= r2 < 16 && 0 <= kk2 < c.kb && !(r2 == r && kk2 == kk) implies #[trigger] q_in(
        b1,
        c,
        r2,
        kk2,
    ) == q_in(b0, c, r2, kk2) by {
        lemma_q_place(c, r2, kk2);
        let at2 = q_place(c, r2, kk2);
        if at2 == at && in_high(c, kk) == in_high(c, kk2) {
            lemma_q_places_differ(c, r, kk, r2, kk2);
        }
        if c.bits == 5 {
            lemma_plane_place(c, r2, kk2);
            if plane_place(c, r2, kk2) == plane_place(c, r, kk) && plane_bit(c, r2, kk2)
                == plane_bit(c, r, kk) {
                lemma_plane_places_differ(c, r, kk, r2, kk2);
            }
        }
    }
}

/// Write the q value of (row r, column kk) into a block.
fn set_block_q(blk: &mut Vec<u8>, c: Codec, r: usize, kk: usize, q: u32)
    requires
        c.aligned(),
        r < 16,
        kk < c.kb,
        old(blk)@.len() == c.block_size(),
    ensures
        others_kept(old(blk)@, final(blk)@, c, r as int, kk as int),
        q_in(final(blk)@, c, r as int, kk as int) as int == q as int % q_range(c.bits),
{
    let total: usize = blk.len();
    let ghost b0 = blk@;
    proof {
        lemma_q_parts(q);
        lemma_q_place(c, r as int, kk as int);
    }
    if c.bits == 8 {
        let at: usize = 64 + (kk / 4) * 64 + r * 4 + kk % 4;
        blk.set(at, q as u8);
        proof {
            lemma_kept_bytes(b0, blk@, c, r as int, kk as int);
        }
        return;
    }
    proof {
        lemma_half_column(c, kk as int);
    }
    let half: usize = c.kb / 2;
    let high: bool = kk >= half;
    let col: usize = if high { kk - half } else { kk };
    let j: usize = col / 4;
    let i: usize = col % 4;
    let at: usize = 64 + j * 64 + r * 4 + i;
    let nib: u8 = (q & 0xf) as u8;
    let was: u8 = blk[at];
    proof {
        lemma_nibbles(was, nib);
    }
    if high {
        blk.set(at, (was & 0x0f) | (nib << 4u8));
    } else {
        blk.set(at, (was & 0xf0) | nib);
    }
    if c.bits == 5 {
        proof {
            lemma_plane_place(c, r as int, kk as int);
        }
        let bit: usize = r * 4 + i;
        let p: usize = 64 + c.kb / 8 * 64 + j * 16 + (if high { 8usize } else { 0usize }) + bit / 8;
        let k: u8 = (bit % 8) as u8;
        let old_byte: u8 = blk[p];
        let set: bool = (q >> 4) & 1 == 1;
        if set {
            blk.set(p, old_byte | (1u8 << k));
        } else {
            blk.set(p, old_byte & !(1u8 << k));
        }
        proof {
            lemma_one_bit(old_byte, k, k);
            assert forall|z: u8| z < 8 && z != k implies #[trigger] (blk@[p as int] >> z) & 1 == (
            b0[p as int] >> z) & 1 by {
                lemma_one_bit(old_byte, k, z);
            }
        }
    }
    proof {
        lemma_kept_nibbles(b0, blk@, c, r as int, kk as int);
    }
}

/// Whether row `r` of a block holds the values of matrix row `row`, block column `b`.
pub open spec fn row_packed(
    blk: Seq<u8>,
    c: Codec,
    k: int,
    q: Seq<u32>,
    d: Seq<u16>,
    m: Seq<u16>,
    row: int,
    b: int,
    r: int,
) -> bool {
    let nb = k / (c.kb as int);
    &&& blk[2 * r] == d[row * nb + b] as u8
    &&& blk[2 * r + 1] == (d[row * nb + b] >> 8) as u8
    &&& blk[32 + 2 * r] == m[row * nb + b] as u8
    &&& blk[32 + 2 * r + 1] == (m[row * nb + b] >> 8) as u8
    &&& forall|kk: int|
        0 <= kk < c.kb ==> #[trigger] q_in(blk, c, r, kk) as int == q[row * k + b * c.kb + kk] as int
            % q_range(c.bits)
}

/// Whether row `r` of a block is zero throughout.
pub open spec fn row_zero(blk: Seq<u8>, c: Codec, r: int) -> bool {
    &&& blk[2 * r] == 0
    &&& blk[2 * r + 1] == 0
    &&& blk[32 + 2 * r] == 0
    &&& blk[32 + 2 * r + 1] == 0
    &&& forall|kk: int| 0 <= kk < c.kb ==> #[trigger] q_in(blk, c, r, kk) == 0
}

/// Whether a block holds strip `s`, block column `b` of a matrix; rows beyond the last are zero.
pub open spec fn block_packed(
    blk: Seq<u8>,
    c: Codec,
    rows: int,
    k: int,
    q: Seq<u32>,
    d: Seq<u16>,
    m: Seq<u16>,
    s: int,
    b: int,
) -> bool {
    &&& blk.len() == c.block_size()
    &&& forall|r: int|
        0 <= r < 16 ==> if s * 16 + r < rows {
            #[trigger] row_packed(blk, c, k, q, d, m, s * 16 + r, b, r)
        } else {
            row_zero(blk, c, r)
        }
}

/// The block in which strip `s`, block column `b` stands.
pub open spec fn block_at(buf: Seq<u8>, c: Codec, nb: int, s: int, b: int) -> Seq<u8> {
    buf.subrange((s * nb + b) * c.block_size(), (s * nb + b + 1) * c.block_size())
}

proof fn lemma_zero_block(blk: Seq<u8>, c: Codec, r: int)
    requires
        c.aligned(),
        blk.len() == c.block_size(),
        forall|i: int| 0 <= i < blk.len() ==> blk[i] == 0,
        0 <= r < 16,
    ensures
        row_zero(blk, c, r),
{
    assert forall|kk: int| 0 <= kk < c.kb implies #[trigger] q_in(blk, c, r, kk) == 0 by {
        lemma_q_place(c, r, kk);
        assert(0u8 >> 4u8 == 0 && 0u8 & 0x0f == 0) by (bit_vector);
        if c.bits == 5 {
            lemma_plane_place(c, r, kk);
            let j = plane_bit(c, r, kk);
            assert((0u8 >> j) & 1 == 0) by (bit_vector)
                requires
                    j < 8,
            ;
            assert((0u32 | (0u32 << 4)) == 0) by (bit_vector);
        }
    }
}

/// The values of row `r` of a block written before stay when another row is written.
proof fn lemma_row_kept(
    b0: Seq<u8>,
    b1: Seq<u8>,
    c: Codec,
    k: int,
    q: Seq<u32>,
    d: Seq<u16>,
    m: Seq<u16>,
    row: int,
    b: int,
    r: int,
    other: int,
)
    requires
        0 <= r < 16,
        r != other,
        forall|i: int|
            0 <= i < 64 && i != 2 * other && i != 2 * other + 1 && i != 32 + 2 * other && i != 32 + 2
                * other + 1 ==> b1[i] == b0[i],
        forall|r2: int, kk: int|
            0 <= r2 < 16 && 0 <= kk < c.kb && r2 != other ==> #[trigger] q_in(b1, c, r2, kk) == q_in(
                b0,
                c,
                r2,
                kk,
            ),
        0 <= other < 16,
    ensures
        row_packed(b0, c, k, q, d, m, row, b, r) ==> row_packed(b1, c, k, q, d, m, row, b, r),
        row_zero(b0, c, r) ==> row_zero(b1, c, r),
{
}

proof fn lemma_value_index(rows: int, k: int, kb: int, row: int, b: int, kk: int)
    requires
        0 <= row < rows,
        kb > 0,
        k >= 0,
        0 <= b < k / kb,
        0 <= kk < kb,
    ensures
        0 <= row * k + b * kb + kk < rows * k,
        0 <= row * (k / kb) + b < rows * (k / kb),
        b * kb + kk < k,
        0 <= row * k,
        0 <= b * kb,
{
    assert(b * kb + kb <= (k / kb) * kb) by (nonlinear_arith)
        requires
            b + 1 <= k / kb,
            kb > 0,
    ;
    assert((k / kb) * kb <= k) by (nonlinear_arith)
        requires
            kb > 0,
            k >= 0,
    ;
    assert(row * k + k <= rows * k) by (nonlinear_arith)
        requires
            row + 1 <= rows,
            k >= 0,
    ;
    assert(row * k >= 0 && b * kb >= 0) by (nonlinear_arith)
        requires
            row >= 0,
            k >= 0,
            b >= 0,
            kb > 0,
    ;
    assert(row * (k / kb) + (k / kb) <= rows * (k / kb)) by (nonlinear_arith)
        requires
            row + 1 <= rows,
            k / kb >= 0,
    ;
    assert(row * (k / kb) >= 0) by (nonlinear_arith)
        requires
            row >= 0,
            k / kb >= 0,
    ;
}

/// Write row `r` of a block: the scales and the q values of matrix row `row`.
fn write_row(
    blk: &mut Vec<u8>,
    c: Codec,
    rows: usize,
    k: usize,
    q: &[u32],
    d: &[u16],
    m: &[u16],
    row: usize,
    b: usize,
    r: usize,
)
    requires
        c.aligned(),
        old(blk)@.len() == c.block_size(),
        r < 16,
        row < rows,
        b < k as int / c.kb as int,
        rows * k <= q@.len(),
        rows * (k as int / c.kb as int) <= d@.len(),
        rows * (k as int / c.kb as int) <= m@.len(),
    ensures
        final(blk)@.len() == c.block_size(),
        row_packed(final(blk)@, c, k as int, q@, d@, m@, row as int, b as int, r as int),
        forall|i: int|
            0 <= i < 64 && i != 2 * r && i != 2 * r + 1 && i != 32 + 2 * r && i != 32 + 2 * r + 1
                ==> final(blk)@[i] == old(blk)@[i],
        forall|r2: int, kk: int|
            0 <= r2 < 16 && 0 <= kk < c.kb && r2 != r ==> #[trigger] q_in(final(blk)@, c, r2, kk)
                == q_in(old(blk)@, c, r2, kk),
{
    let nb: usize = k / c.kb;
    let nd: usize = d.len();
    let nq: usize = q.len();
    let ghost b0 = blk@;
    proof {
        lemma_value_index(rows as int, k as int, c.kb as int, row as int, b as int, 0);
    }
    let at: usize = row * nb + b;
    let dv: u16 = d[at];
    let mv: u16 = m[at];
    blk.set(2 * r, dv as u8);
    blk.set(2 * r + 1, (dv >> 8) as u8);
    blk.set(32 + 2 * r, mv as u8);
    blk.set(32 + 2 * r + 1, (mv >> 8) as u8);
    let ghost b1 = blk@;
    assert forall|r2: int, kk: int| 0 <= r2 < 16 && 0 <= kk < c.kb implies #[trigger] q_in(
        b1,
        c,
        r2,
        kk,
    ) == q_in(b0, c, r2, kk) by {
        lemma_q_place(c, r2, kk);
        if c.bits == 5 {
            lemma_plane_place(c, r2, kk);
        }
    }
    let base: usize = row * k + b * c.kb;
    let mut kk: usize = 0;
    while kk < c.kb
        invariant
            kk <= c.kb,
            c.aligned(),
            r < 16,
            row < rows,
            b < k as int / c.kb as int,
            rows * k <= q@.len(),
            nq == q@.len(),
            base == row * k + b * c.kb,
            blk@.len() == c.block_size(),
            forall|i: int| 0 <= i < 64 ==> blk@[i] == b1[i],
            forall|x: int|
                0 <= x < kk ==> #[trigger] q_in(blk@, c, r as int, x) as int == q@[base + x] as int
                    % q_range(c.bits),
            forall|r2: int, x: int|
                0 <= r2 < 16 && 0 <= x < c.kb && r2 != r ==> #[trigger] q_in(blk@, c, r2, x) == q_in(
                    b1,
                    c,
                    r2,
                    x,
                ),
        decreases c.kb - kk,
    {
        proof {
            lemma_value_index(rows as int, k as int, c.kb as int, row as int, b as int, kk as int);
        }
        let v: u32 = q[base + kk];
        set_block_q(blk, c, r, kk, v);
        kk = kk + 1;
    }
    proof {
        let b2 = blk@;
        assert(b2[2 * r] == b1[2 * r] && b2[2 * r + 1] == b1[2 * r + 1] && b2[32 + 2 * r] == b1[32
            + 2 * r] && b2[32 + 2 * r + 1] == b1[32 + 2 * r + 1]);
        assert forall|i: int|
            0 <= i < 64 && i != 2 * r && i != 2 * r + 1 && i != 32 + 2 * r && i != 32 + 2 * r + 1 implies b2[i]
            == b0[i] by {
            assert(b2[i] == b1[i]);
            assert(b1[i] == b0[i]);
        }
    }
}

/// The block of strip `s`, block column `b`.
fn pack_block(
    rows: usize,
    k: usize,
    c: Codec,
    q: &[u32],
    d: &[u16],
    m: &[u16],
    s: usize,
    b: usize,
) -> (blk: Vec<u8>)
    requires
        c.aligned(),
        64 + 16 * c.kb <= usize::MAX,
        s * 16 + 16 <= usize::MAX,
        b < k as int / c.kb as int,
        rows * k <= q@.len(),
        rows * (k as int / c.kb as int) <= d@.len(),
        rows * (k as int / c.kb as int) <= m@.len(),
    ensures
        block_packed(blk@, c, rows as int, k as int, q@, d@, m@, s as int, b as int),
{
    let bb: usize = c.block_bytes();
    let mut blk: Vec<u8> = vec![0u8; bb];
    let mut r: usize = 0;
    proof {
        assert forall|x: int| 0 <= x < 16 implies #[trigger] row_zero(blk@, c, x) by {
            lemma_zero_block(blk@, c, x);
        }
    }
    while r < 16
        invariant
            r <= 16,
            c.aligned(),
            s * 16 + 16 <= usize::MAX,
            b < k as int / c.kb as int,
            rows * k <= q@.len(),
            rows * (k as int / c.kb as int) <= d@.len(),
            rows * (k as int / c.kb as int) <= m@.len(),
            blk@.len() == c.block_size(),
            forall|x: int|
                0 <= x < r && s * 16 + x < rows ==> #[trigger] row_packed(
                    blk@,
                    c,
                    k as int,
                    q@,
                    d@,
                    m@,
                    s * 16 + x,
                    b as int,
                    x,
                ),
            forall|x: int|
                0 <= x < 16 && (x >= r || s * 16 + x >= rows) ==> #[trigger] row_zero(blk@, c, x),
        decreases 16 - r,
    {
        let row: usize = s * 16 + r;
        if row < rows {
            let ghost before = blk@;
            write_row(&mut blk, c, rows, k, q, d, m, row, b, r);
            proof {
                assert forall|x: int| 0 <= x < r + 1 && s * 16 + x < rows implies #[trigger] row_packed(
                    blk@,
                    c,
                    k as int,
                    q@,
                    d@,
                    m@,
                    s * 16 + x,
                    b as int,
                    x,
                ) by {
                    if x < r {
                        assert(row_packed(before, c, k as int, q@, d@, m@, s * 16 + x, b as int, x));
                        lemma_row_kept(
                            before,
                            blk@,
                            c,
                            k as int,
                            q@,
                            d@,
                            m@,
                            s * 16 + x,
                            b as int,
                            x,
                            r as int,
                        );
                    }
                }
                assert forall|x: int| 0 <= x < 16 && (x >= r + 1 || s * 16 + x >= rows) implies #[trigger] row_zero(
                    blk@,
                    c,
                    x,
                ) by {
                    assert(x != r);
                    assert(row_zero(before, c, x));
                    lemma_row_kept(
                        before,
                        blk@,
                        c,
                        k as int,
                        q@,
                        d@,
                        m@,
                        0,
                        b as int,
                        x,
                        r as int,
                    );
                }
            }
        }
        r = r + 1;
    }
    blk
}

/// Reference (scalar) packer: q [rows*k] unsigned, d/m [rows*(k/kb)] f16 bits -> packed bytes.
/// Rows are zero-padded to a strip.
pub fn pack_ref(rows: usize, k: usize, c: Codec, q: &[u32], d: &[u16], m: &[u16]) -> (out: Vec<u8>)
    requires
        c.aligned(),
        64 + 16 * c.kb <= usize::MAX,
        rows + 15 <= usize::MAX,
        rows * k <= q@.len(),
        rows * (k as int / c.kb as int) <= d@.len(),
        rows * (k as int / c.kb as int) <= m@.len(),
        c.matrix_size(rows as int, k as int) <= usize::MAX,
    ensures
        out@.len() == c.matrix_size(rows as int, k as int),
        forall|s: int, b: int|
            0 <= s < strips_up(rows as int) / 16 && 0 <= b < k as int / c.kb as int
                ==> #[trigger] block_packed(
                block_at(out@, c, k as int / c.kb as int, s, b),
                c,
                rows as int,
                k as int,
                q@,
                d@,
                m@,
                s,
                b,
            ),
{
    let strips: usize = pad_rows(rows) / STRIP;
    let nb: usize = k / c.kb;
    let ghost bb = c.block_size();
    let mut out: Vec<u8> = Vec::new();
    let mut s: usize = 0;
    assert(bb >= 64);
    assert((s * nb) * bb == 0) by (nonlinear_arith)
        requires
            s == 0,
    ;
    while s < strips
        invariant
            s <= strips,
            strips == strips_up(rows as int) / 16,
            strips * 16 <= usize::MAX,
            nb == k as int / c.kb as int,
            bb == c.block_size(),
            bb >= 64,
            c.aligned(),
            64 + 16 * c.kb <= usize::MAX,
            rows * k <= q@.len(),
            rows * (k as int / c.kb as int) <= d@.len(),
            rows * (k as int / c.kb as int) <= m@.len(),
            out@.len() == (s * nb) * bb,
            forall|x: int, y: int|
                0 <= x < s && 0 <= y < nb ==> #[trigger] block_packed(
                    block_at(out@, c, nb as int, x, y),
                    c,
                    rows as int,
                    k as int,
                    q@,
                    d@,
                    m@,
                    x,
                    y,
                ),
        decreases strips - s,
    {
        let mut b: usize = 0;
        while b < nb
            invariant
                b <= nb,
                s < strips,
                strips == strips_up(rows as int) / 16,
                strips * 16 <= usize::MAX,
                nb == k as int / c.kb as int,
                bb == c.block_size(),
                bb >= 64,
                c.aligned(),
                64 + 16 * c.kb <= usize::MAX,
                rows * k <= q@.len(),
                rows * (k as int / c.kb as int) <= d@.len(),
                rows * (k as int / c.kb as int) <= m@.len(),
                out@.len() == (s * nb + b) * bb,
                forall|x: int, y: int|
                    0 <= x <= s && 0 <= y < nb && (x < s || y < b) ==> #[trigger] block_packed(
                        block_at(out@, c, nb as int, x, y),
                        c,
                        rows as int,
                        k as int,
                        q@,
                        d@,
                        m@,
                        x,
                        y,
                    ),
            decreases nb - b,
        {
            let mut blk = pack_block(rows, k, c, q, d, m, s, b);
            let ghost before = out@;
            let ghost piece = blk@;
            out.append(&mut blk);
            proof {
                let t = s * nb + b;
                assert((t + 1) * bb == t * bb + bb) by (nonlinear_arith);
                assert(out@ == before + piece);
                assert forall|x: int, y: int|
                    0 <= x <= s && 0 <= y < nb && (x < s || y < b + 1) implies #[trigger] block_packed(
                    block_at(out@, c, nb as int, x, y),
                    c,
                    rows as int,
                    k as int,
                    q@,
                    d@,
                    m@,
                    x,
                    y,
                ) by {
                    if x == s && y == b {
                        assert(block_at(out@, c, nb as int, x, y) =~= piece);
                    } else {
                        let u = x * nb + y;
                        assert(u + 1 <= t) by (nonlinear_arith)
                            requires
                                u == x * nb + y,
                                t == s * nb + b,
                                (x == s && y + 1 <= b) || (x + 1 <= s && y + 1 <= nb && b >= 0),
                                nb >= 0,
                        ;
                        assert((u + 1) * bb <= t * bb && 0 <= u * bb <= (u + 1) * bb)
                            by (nonlinear_arith)
                            requires
                                0 <= u,
                                u + 1 <= t,
                                bb >= 64,
                        {
                        }
                        assert(block_at(out@, c, nb as int, x, y) =~= block_at(
                            before,
                            c,
                            nb as int,
                            x,
                            y,
                        ));
                    }
                }
            }
            b = b + 1;
        }
        assert(s * nb + nb == (s + 1) * nb) by (nonlinear_arith);
        s = s + 1;
    }
    assert((strips * nb) * bb == strips * (nb * bb)) by (nonlinear_arith);
    out
}

/// What `pack_ref` wrote is read back: the q value of every row and column of the matrix, modulo
/// the range of the codec.
pub proof fn law_pack_reads_back(
    out: Seq<u8>,
    c: Codec,
    rows: int,
    k: int,
    q: Seq<u32>,
    d: Seq<u16>,
    m: Seq<u16>,
    row: int,
    col: int,
)
    requires
        c.aligned(),
        0 <= row < rows,
        0 <= col < k,
        k % (c.kb as int) == 0,
        forall|s: int, b: int|
            0 <= s < strips_up(rows) / 16 && 0 <= b < k / (c.kb as int) ==> #[trigger] block_packed(
                block_at(out, c, k / (c.kb as int), s, b),
                c,
                rows,
                k,
                q,
                d,
                m,
                s,
                b,
            ),
    ensures
        q_in(
            block_at(out, c, k / (c.kb as int), row / 16, col / (c.kb as int)),
            c,
            row % 16,
            col % (c.kb as int),
        ) as int == q[row * k + col] as int % q_range(c.bits),
{
    let kb = c.kb as int;
    let s = row / 16;
    let b = col / kb;
    let nb = k / kb;
    vstd::arithmetic::div_mod::lemma_fundamental_div_mod(col, kb);
    vstd::arithmetic::div_mod::lemma_fundamental_div_mod(k, kb);
    assert(0 <= b < nb) by (nonlinear_arith)
        requires
            b == col / kb,
            k == kb * nb,
            0 <= col < k,
            kb > 0,
    ;
    assert(0 <= col % kb < kb);
    let blk = block_at(out, c, nb, s, b);
    assert(block_packed(blk, c, rows, k, q, d, m, s, b));
    assert(s * 16 + row % 16 == row);
    assert(row_packed(blk, c, k, q, d, m, s * 16 + row % 16, b, row % 16));
    assert(b * c.kb + col % kb == col) by (nonlinear_arith)
        requires
            col == kb * b + col % kb,
            kb == c.kb as int,
    ;
    assert(q_in(blk, c, row % 16, col % kb) as int == q[row * k + b * c.kb + col % kb] as int
        % q_range(c.bits));
}

/// The number that two bytes hold, the low one first.
pub open spec fn le16(blk: Seq<u8>, at: int) -> int {
    blk[at] + 256 * blk[at + 1]
}

/// What `pack_ref` wrote holds the whole matrix: in the block of every row and block column the
/// scale, the minimum and every q value of that row, where the q values are in the codec's range;
/// and nothing but zeros in the rows that fill up the last strip.
pub proof fn law_pack_holds_the_matrix(
    out: Seq<u8>,
    c: Codec,
    rows: int,
    k: int,
    q: Seq<u32>,
    d: Seq<u16>,
    m: Seq<u16>,
    row: int,
    b: int,
    j: int,
)
    requires
        c.aligned(),
        0 <= row < strips_up(rows),
        0 <= b < k / (c.kb as int),
        0 <= j < c.kb,
        row < rows ==> q[row * k + b * c.kb + j] < q_range(c.bits),
        forall|s: int, b: int|
            0 <= s < strips_up(rows) / 16 && 0 <= b < k / (c.kb as int) ==> #[trigger] block_packed(
                block_at(out, c, k / (c.kb as int), s, b),
                c,
                rows,
                k,
                q,
                d,
                m,
                s,
                b,
            ),
    ensures
        ({
            let nb = k / (c.kb as int);
            let blk = block_at(out, c, nb, row / 16, b);
            let r = row % 16;
            if row < rows {
                &&& le16(blk, 2 * r) == d[row * nb + b]
                &&& le16(blk, 32 + 2 * r) == m[row * nb + b]
                &&& q_in(blk, c, r, j) == q[row * k + b * c.kb + j]
            } else {
                &&& le16(blk, 2 * r) == 0
                &&& le16(blk, 32 + 2 * r) == 0
                &&& q_in(blk, c, r, j) == 0
            }
        }),
{
    let nb = k / (c.kb as int);
    let s = row / 16;
    let r = row % 16;
    let blk = block_at(out, c, nb, s, b);
    assert(block_packed(blk, c, rows, k, q, d, m, s, b));
    assert(s * 16 + r == row);
    let here = row_packed(blk, c, k, q, d, m, s * 16 + r, b, r);
    if row < rows {
        assert(here);
        lemma_le16(d[row * nb + b]);
        lemma_le16(m[row * nb + b]);
        assert(q_in(blk, c, r, j) as int == q[row * k + b * c.kb + j] as int % q_range(c.bits));
        vstd::arithmetic::div_mod::lemma_small_mod(
            q[row * k + b * c.kb + j] as nat,
            q_range(c.bits) as nat,
        );
    } else {
        assert(row_zero(blk, c, r));
    }
}

proof fn lemma_le16(x: u16)
    ensures
        (x as u8) + 256 * ((x >> 8) as u8) == x,
{
    assert((x as u8) + 256 * ((x >> 8) as u8) == x) by (bit_vector);
}

/// A block of 8-bit weights holds each in a byte of its own: behind the 64 bytes of the header, four
/// columns of a row together, the 16 rows behind each other.
pub proof fn law_eight_bit_codes(blk: Seq<u8>, c: Codec, r: int, kk: int)
    requires
        c.aligned(),
        c.bits == 8,
        blk.len() >= c.block_size(),
        0 <= r < 16,
        0 <= kk < c.kb,
    ensures
        q_in(blk, c, r, kk) == blk[64 + kk / 4 * 64 + r * 4 + kk % 4],
{
}

/// A byte of a block of 4-bit weights holds two: its low half a column of the first half of the
/// block, its high half the column that lies half a block further on.
pub proof fn law_four_bit_codes(blk: Seq<u8>, c: Codec, r: int, kk: int)
    requires
        c.aligned(),
        c.bits == 4,
        blk.len() >= c.block_size(),
        0 <= r < 16,
        0 <= kk < c.kb as int / 2,
    ensures
        q_in(blk, c, r, kk) == blk[64 + kk / 4 * 64 + r * 4 + kk % 4] % 16,
        q_in(blk, c, r, kk + c.kb as int / 2) == blk[64 + kk / 4 * 64 + r * 4 + kk % 4] / 16,
{
    lemma_halves(blk[64 + kk / 4 * 64 + r * 4 + kk % 4]);
}

/// A block of 5-bit weights is one of 4-bit weights with a plane of fifth bits behind it. The plane
/// has 16 bytes for every four columns of a half: 64 bits, four of each row, for the first half, and
/// as many for the second.
pub proof fn law_five_bit_codes(blk: Seq<u8>, c: Codec, r: int, kk: int)
    requires
        c.aligned(),
        c.bits == 5,
        blk.len() >= c.block_size(),
        0 <= r < 16,
        0 <= kk < c.kb as int / 2,
    ensures
        ({
            let byte = blk[64 + kk / 4 * 64 + r * 4 + kk % 4];
            let plane = 64 + 8 * c.kb + kk / 4 * 16 + r / 2;
            let bit = (r % 2 * 4 + kk % 4) as u8;
            &&& q_in(blk, c, r, kk) == byte % 16 + 16 * ((blk[plane] >> bit) & 1)
            &&& q_in(blk, c, r, kk + c.kb as int / 2) == byte / 16 + 16 * ((blk[plane + 8] >> bit) & 1)
        }),
{
    let byte = blk[64 + kk / 4 * 64 + r * 4 + kk % 4];
    let plane = 64 + 8 * c.kb + kk / 4 * 16 + r / 2;
    let bit = (r % 2 * 4 + kk % 4) as u8;
    lemma_halves(byte);
    assert(c.kb as int / 8 * 64 == 8 * c.kb);
    assert((r * 4 + kk % 4) / 8 == r / 2);
    assert((r * 4 + kk % 4) % 8 == r % 2 * 4 + kk % 4);
    lemma_fifth(byte & 0x0f, (blk[plane] >> bit) & 1);
    lemma_fifth(byte >> 4u8, (blk[plane + 8] >> bit) & 1);
    lemma_bit(blk[plane], bit);
    lemma_bit(blk[plane + 8], bit);
}

proof fn lemma_halves(b: u8)
    ensures
        b & 0x0f == b % 16,
        b >> 4u8 == b / 16,
        b & 0x0f < 16,
        b >> 4u8 < 16,
{
    assert(b & 0x0f == b % 16 && b >> 4u8 == b / 16 && b & 0x0f < 16 && b >> 4u8 < 16) by (bit_vector);
}

proof fn lemma_bit(b: u8, i: u8)
    ensures
        (b >> i) & 1 <= 1,
{
    assert((b >> i) & 1 <= 1) by (bit_vector);
}

proof fn lemma_fifth(low: u8, high: u8)
    ensures
        low < 16 && high <= 1 ==> (low as u32) | ((high as u32) << 4) == low + 16 * high,
{
    assert(low < 16 && high <= 1 ==> (low as u32) | ((high as u32) << 4) == low + 16 * high)
        by (bit_vector);
}

/// Behind its header of 64 bytes a block has exactly the bits of its 16 rows of weights.
pub proof fn law_block_holds_its_bits(c: Codec)
    requires
        c.aligned(),
    ensures
        8 * (c.block_size() - 64) == 16 * c.kb * c.bits,
{
    assert(16 * c.kb * 8 == 128 * c.kb);
    assert(16 * c.kb * 4 == 64 * c.kb);
    assert(16 * c.kb * 5 == 80 * c.kb);
}

/// A matrix is as large as its blocks: one for every 16 rows begun and every block of columns.
pub proof fn law_matrix_is_made_of_blocks(c: Codec, rows: int, blocks: int)
    requires
        c.aligned(),
        rows >= 0,
        blocks >= 0,
    ensures
        c.matrix_size(0, blocks * c.kb) == 0,
        c.matrix_size(rows + 16, blocks * c.kb) == c.matrix_size(rows, blocks * c.kb) + blocks
            * c.block_size(),
        0 < rows <= 16 ==> c.matrix_size(rows, blocks * c.kb) == blocks * c.block_size(),
        rows <= strips_up(rows) < rows + 16,
        strips_up(rows) % 16 == 0,
{
    vstd::arithmetic::div_mod::lemma_div_multiples_vanish(blocks, c.kb as int);
    assert(blocks * c.kb == c.kb * blocks) by (nonlinear_arith);
    let n = strips_up(rows) / 16;
    assert(strips_up(rows + 16) / 16 == n + 1);
    let one = blocks * c.block_size();
    assert((n + 1) * one == n * one + one) by (nonlinear_arith);
    assert(0 * one == 0 && 1 * one == one) by (nonlinear_arith);
}

} // verus!
