//! SHA-256 (FIPS 180-4), stated as a recursion over message blocks and computed in place.
use vstd::prelude::*;

verus! {

/// The round constants: the fractional parts of the cube roots of the first 64 primes.
pub const K: [u32; 64] = [
    0x428a2f98, 0x71374491, 0xb5c0fbcf, 0xe9b5dba5, 0x3956c25b, 0x59f111f1, 0x923f82a4, 0xab1c5ed5,
    0xd807aa98, 0x12835b01, 0x243185be, 0x550c7dc3, 0x72be5d74, 0x80deb1fe, 0x9bdc06a7, 0xc19bf174,
    0xe49b69c1, 0xefbe4786, 0x0fc19dc6, 0x240ca1cc, 0x2de92c6f, 0x4a7484aa, 0x5cb0a9dc, 0x76f988da,
    0x983e5152, 0xa831c66d, 0xb00327c8, 0xbf597fc7, 0xc6e00bf3, 0xd5a79147, 0x06ca6351, 0x14292967,
    0x27b70a85, 0x2e1b2138, 0x4d2c6dfc, 0x53380d13, 0x650a7354, 0x766a0abb, 0x81c2c92e, 0x92722c85,
    0xa2bfe8a1, 0xa81a664b, 0xc24b8b70, 0xc76c51a3, 0xd192e819, 0xd6990624, 0xf40e3585, 0x106aa070,
    0x19a4c116, 0x1e376c08, 0x2748774c, 0x34b0bcb5, 0x391c0cb3, 0x4ed8aa4a, 0x5b9cca4f, 0x682e6ff3,
    0x748f82ee, 0x78a5636f, 0x84c87814, 0x8cc70208, 0x90befffa, 0xa4506ceb, 0xbef9a3f7, 0xc67178f2,
];

/// The eight working words of the hash.
#[derive(Clone, Copy)]
pub struct Words {
    pub a: u32,
    pub b: u32,
    pub c: u32,
    pub d: u32,
    pub e: u32,
    pub f: u32,
    pub g: u32,
    pub h: u32,
}

impl Words {
    /// Word `i` of the eight.
    pub open spec fn word(self, i: int) -> u32 {
        if i == 0 { self.a } else if i == 1 { self.b } else if i == 2 { self.c } else if i == 3 {
            self.d
        } else if i == 4 { self.e } else if i == 5 { self.f } else if i == 6 { self.g } else { self.h }
    }
}

/// The initial hash value: the fractional parts of the square roots of the first eight primes.
pub open spec fn init() -> Words {
    Words {
        a: 0x6a09e667,
        b: 0xbb67ae85,
        c: 0x3c6ef372,
        d: 0xa54ff53a,
        e: 0x510e527f,
        f: 0x9b05688c,
        g: 0x1f83d9ab,
        h: 0x5be0cd19,
    }
}

pub open spec fn rotr(x: u32, n: u32) -> u32 {
    (x >> n) | (x << (32 - n) as u32)
}

/// Big-endian word made of four bytes.
pub open spec fn be32(b0: u8, b1: u8, b2: u8, b3: u8) -> u32 {
    ((b0 as u32) << 24) | ((b1 as u32) << 16) | ((b2 as u32) << 8) | (b3 as u32)
}

/// Byte `i` (0 = most significant) of a 32-bit word.
pub open spec fn byte32(w: u32, i: int) -> u8 {
    if i == 0 { (w >> 24) as u8 } else if i == 1 { (w >> 16) as u8 } else if i == 2 {
        (w >> 8) as u8
    } else { w as u8 }
}

/// Byte `i` (0 = most significant) of a 64-bit word.
pub open spec fn byte64(w: u64, i: int) -> u8 {
    if i < 4 { byte32((w >> 32) as u32, i) } else { byte32(w as u32, i - 4) }
}

pub open spec fn small0(x: u32) -> u32 {
    rotr(x, 7) ^ rotr(x, 18) ^ (x >> 3)
}

pub open spec fn small1(x: u32) -> u32 {
    rotr(x, 17) ^ rotr(x, 19) ^ (x >> 10)
}

/// Word `i` of the message schedule of one 64-byte block.
pub open spec fn schedule(block: Seq<u8>, i: int) -> u32
    decreases i,
{
    if i < 16 {
        be32(block[4 * i], block[4 * i + 1], block[4 * i + 2], block[4 * i + 3])
    } else {
        schedule(block, i - 16).wrapping_add(small0(schedule(block, i - 15))).wrapping_add(
            schedule(block, i - 7),
        ).wrapping_add(small1(schedule(block, i - 2)))
    }
}

/// One round of the compression function with round constant `k` and schedule word `w`.
pub open spec fn round(s: Words, k: u32, w: u32) -> Words {
    let s1 = rotr(s.e, 6) ^ rotr(s.e, 11) ^ rotr(s.e, 25);
    let ch = (s.e & s.f) ^ (!s.e & s.g);
    let t1 = s.h.wrapping_add(s1).wrapping_add(ch).wrapping_add(k).wrapping_add(w);
    let s0 = rotr(s.a, 2) ^ rotr(s.a, 13) ^ rotr(s.a, 22);
    let maj = (s.a & s.b) ^ (s.a & s.c) ^ (s.b & s.c);
    let t2 = s0.wrapping_add(maj);
    Words {
        a: t1.wrapping_add(t2),
        b: s.a,
        c: s.b,
        d: s.c,
        e: s.d.wrapping_add(t1),
        f: s.e,
        g: s.f,
        h: s.g,
    }
}

/// The first `n` rounds on a block.
pub open spec fn rounds(s: Words, block: Seq<u8>, n: int) -> Words
    decreases n,
{
    if n <= 0 {
        s
    } else {
        round(rounds(s, block, n - 1), K[n - 1], schedule(block, n - 1))
    }
}

pub open spec fn sum(x: Words, y: Words) -> Words {
    Words {
        a: x.a.wrapping_add(y.a),
        b: x.b.wrapping_add(y.b),
        c: x.c.wrapping_add(y.c),
        d: x.d.wrapping_add(y.d),
        e: x.e.wrapping_add(y.e),
        f: x.f.wrapping_add(y.f),
        g: x.g.wrapping_add(y.g),
        h: x.h.wrapping_add(y.h),
    }
}

/// The hash value after the first `n` 64-byte blocks of a padded message.
pub open spec fn chain(msg: Seq<u8>, n: int) -> Words
    decreases n,
{
    if n <= 0 {
        init()
    } else {
        let prev = chain(msg, n - 1);
        sum(prev, rounds(prev, msg.subrange(64 * (n - 1), 64 * n), 64))
    }
}

/// The message, `0x80`, zeros up to 56 modulo 64, and the bit length as a big-endian word.
pub open spec fn padding(data: Seq<u8>) -> Seq<u8> {
    let zeros = (55 - data.len()) % 64;
    let bits = ((data.len() * 8) % 0x1_0000_0000_0000_0000) as u64;
    data.push(0x80) + Seq::new(zeros as nat, |i: int| 0u8) + Seq::new(8, |i: int| byte64(bits, i))
}

/// The SHA-256 digest of `data`, 32 bytes.
pub open spec fn digest(data: Seq<u8>) -> Seq<u8> {
    let msg = padding(data);
    let h = chain(msg, msg.len() as int / 64);
    Seq::new(32, |i: int| byte32(h.word(i / 4), i % 4))
}

fn rotate(x: u32, n: u32) -> (r: u32)
    requires
        0 < n < 32,
    ensures
        r == rotr(x, n),
{
    (x >> n) | (x << (32 - n))
}

fn expand(msg: &[u8], at: usize) -> (w: [u32; 64])
    requires
        at + 64 <= msg@.len(),
    ensures
        forall|j: int| 0 <= j < 64 ==> w[j] == schedule(msg@.subrange(at as int, at + 64), j),
{
    let ghost block = msg@.subrange(at as int, at + 64);
    let mut w = [0u32;64];
    let n: usize = msg.len();
    let mut i: usize = 0;
    while i < 16
        invariant
            i <= 16,
            at + 64 <= n,
            n == msg@.len(),
            block == msg@.subrange(at as int, at + 64),
            forall|j: int| 0 <= j < i ==> w[j] == schedule(block, j),
        decreases 16 - i,
    {
        let p: usize = at + 4 * i;
        w[i] = ((msg[p] as u32) << 24) | ((msg[p + 1] as u32) << 16) | ((msg[p + 2] as u32) << 8) | (
        msg[p + 3] as u32);
        i = i + 1;
    }
    while i < 64
        invariant
            16 <= i <= 64,
            forall|j: int| 0 <= j < i ==> w[j] == schedule(block, j),
        decreases 64 - i,
    {
        let x: u32 = w[i - 15];
        let y: u32 = w[i - 2];
        let s0: u32 = rotate(x, 7) ^ rotate(x, 18) ^ (x >> 3);
        let s1: u32 = rotate(y, 17) ^ rotate(y, 19) ^ (y >> 10);
        let v: u32 = w[i - 16].wrapping_add(s0).wrapping_add(w[i - 7]).wrapping_add(s1);
        assert(v == schedule(block, i as int)) by {
            assert(w[i - 16] == schedule(block, i - 16));
            assert(w[i - 15] == schedule(block, i - 15));
            assert(w[i - 7] == schedule(block, i - 7));
            assert(w[i - 2] == schedule(block, i - 2));
        }
        w[i] = v;
        i = i + 1;
    }
    w
}

fn step(s: Words, k: u32, w: u32) -> (r: Words)
    ensures
        r == round(s, k, w),
{
    let s1: u32 = rotate(s.e, 6) ^ rotate(s.e, 11) ^ rotate(s.e, 25);
    let ch: u32 = (s.e & s.f) ^ (!s.e & s.g);
    let t1: u32 = s.h.wrapping_add(s1).wrapping_add(ch).wrapping_add(k).wrapping_add(w);
    let s0: u32 = rotate(s.a, 2) ^ rotate(s.a, 13) ^ rotate(s.a, 22);
    let maj: u32 = (s.a & s.b) ^ (s.a & s.c) ^ (s.b & s.c);
    let t2: u32 = s0.wrapping_add(maj);
    Words {
        a: t1.wrapping_add(t2),
        b: s.a,
        c: s.b,
        d: s.c,
        e: s.d.wrapping_add(t1),
        f: s.e,
        g: s.f,
        h: s.g,
    }
}

fn compress(h: Words, msg: &[u8], at: usize) -> (r: Words)
    requires
        at + 64 <= msg@.len(),
    ensures
        r == sum(h, rounds(h, msg@.subrange(at as int, at + 64), 64)),
{
    let ghost block = msg@.subrange(at as int, at + 64);
    let w = expand(msg, at);
    let mut s = h;
    let mut i: usize = 0;
    while i < 64
        invariant
            i <= 64,
            forall|j: int| 0 <= j < 64 ==> w[j] == schedule(block, j),
            s == rounds(h, block, i as int),
        decreases 64 - i,
    {
        s = step(s, K[i], w[i]);
        i = i + 1;
    }
    Words {
        a: h.a.wrapping_add(s.a),
        b: h.b.wrapping_add(s.b),
        c: h.c.wrapping_add(s.c),
        d: h.d.wrapping_add(s.d),
        e: h.e.wrapping_add(s.e),
        f: h.f.wrapping_add(s.f),
        g: h.g.wrapping_add(s.g),
        h: h.h.wrapping_add(s.h),
    }
}

fn word_at(h: &Words, i: usize) -> (w: u32)
    requires
        i < 8,
    ensures
        w == h.word(i as int),
{
    if i == 0 { h.a } else if i == 1 { h.b } else if i == 2 { h.c } else if i == 3 { h.d } else if i
        == 4 { h.e } else if i == 5 { h.f } else if i == 6 { h.g } else { h.h }
}

fn byte_of(w: u32, i: usize) -> (b: u8)
    requires
        i < 4,
    ensures
        b == byte32(w, i as int),
{
    if i == 0 { (w >> 24) as u8 } else if i == 1 { (w >> 16) as u8 } else if i == 2 {
        (w >> 8) as u8
    } else { w as u8 }
}

/// How many zero bytes the padding of an `n`-byte message takes.
fn zero_count(n: usize) -> (z: usize)
    ensures
        z == (55 - n) % 64,
        z < 64,
        (n + 1 + z + 8) % 64 == 0,
{
    let r: usize = n % 64;
    if r <= 55 { 55 - r } else { 119 - r }
}

fn padded_message(data: &[u8]) -> (msg: Vec<u8>)
    ensures
        msg@ == padding(data@),
        msg@.len() % 64 == 0,
{
    let mut msg: Vec<u8> = Vec::new();
    let n: usize = data.len();
    let mut i: usize = 0;
    while i < n
        invariant
            i <= n,
            n == data@.len(),
            msg@ == data@.subrange(0, i as int),
        decreases n - i,
    {
        msg.push(data[i]);
        i = i + 1;
    }
    let bits: u64 = (n as u64).wrapping_mul(8);
    assert(bits == (n * 8) % 0x1_0000_0000_0000_0000);
    assert(msg@ == data@);
    msg.push(0x80);
    let ghost head = data@.push(0x80);
    let zeros: usize = zero_count(n);
    let mut z: usize = 0;
    while z < zeros
        invariant
            z <= zeros,
            msg@ == head + Seq::new(z as nat, |i: int| 0u8),
        decreases zeros - z,
    {
        msg.push(0);
        z = z + 1;
    }
    let ghost tail = Seq::new(8, |i: int| byte64(bits, i));
    let ghost body = msg@;
    let hi: u32 = (bits >> 32) as u32;
    let lo: u32 = bits as u32;
    let mut j: usize = 0;
    while j < 8
        invariant
            j <= 8,
            hi == (bits >> 32) as u32,
            lo == bits as u32,
            tail == Seq::new(8, |i: int| byte64(bits, i)),
            msg@ == body + tail.subrange(0, j as int),
        decreases 8 - j,
    {
        let b: u8 = if j < 4 { byte_of(hi, j) } else { byte_of(lo, j - 4) };
        msg.push(b);
        j = j + 1;
    }
    assert(tail.subrange(0, 8) =~= tail);
    assert(msg@ =~= padding(data@));
    msg
}

/// The SHA-256 digest of `data`.
pub fn sha256(data: &[u8]) -> (out: [u8; 32])
    ensures
        out@ == digest(data@),
{
    let msg = padded_message(data);
    let mut h = Words {
        a: 0x6a09e667,
        b: 0xbb67ae85,
        c: 0x3c6ef372,
        d: 0xa54ff53a,
        e: 0x510e527f,
        f: 0x9b05688c,
        g: 0x1f83d9ab,
        h: 0x5be0cd19,
    };
    let total: usize = msg.len();
    let blocks: usize = total / 64;
    let mut b: usize = 0;
    while b < blocks
        invariant
            b <= blocks,
            blocks * 64 <= total,
            total == msg@.len(),
            h == chain(msg@, b as int),
        decreases blocks - b,
    {
        h = compress(h, msg.as_slice(), b * 64);
        b = b + 1;
    }
    let mut out = [0u8;32];
    let mut i: usize = 0;
    while i < 32
        invariant
            i <= 32,
            forall|j: int| 0 <= j < i ==> out[j] == byte32(h.word(j / 4), j % 4),
        decreases 32 - i,
    {
        let w: u32 = word_at(&h, i / 4);
        out[i] = byte_of(w, i % 4);
        i = i + 1;
    }
    out
}

} // verus!
