//! Rows of four-bit codes: blocks of 32 values, each a half-precision scale and 16 bytes whose low
//! halves are the first 16 values and whose high halves the others.
use vstd::prelude::*;

verus! {

/// What the codes stand for.
pub const KVALUES: [i8; 16] = [-127, -104, -83, -65, -49, -35, -22, -10, 1, 13, 25, 38, 53, 69, 89, 113];

pub const BLOCK_BYTES: usize = 18;

/// The code of value `i` of a row.
pub open spec fn code(src: Seq<u8>, i: int) -> u8 {
    let byte = src[i / 32 * 18 + 2 + i % 16];
    if i % 32 < 16 { byte % 16 } else { byte / 16 }
}

/// The values of a row of `n` elements before they are scaled; a part of a block at the end is left out.
pub fn row_values(src: &[u8], n: usize) -> (v: Vec<i8>)
    requires
        n / 32 * 18 <= src@.len(),
    ensures
        v@.len() == n / 32 * 32,
        forall|i: int| 0 <= i < v@.len() ==> #[trigger] v@[i] == KVALUES@[code(src@, i) as int],
{
    let table: [i8; 16] = KVALUES;
    let total: usize = n / 32 * 32;
    let mut v: Vec<i8> = Vec::new();
    let mut i: usize = 0;
    while i < total
        invariant
            table@ == KVALUES@,
            total == n / 32 * 32,
            n / 32 * 18 <= src@.len(),
            i <= total,
            v@.len() == i,
            forall|j: int| 0 <= j < i ==> #[trigger] v@[j] == KVALUES@[code(src@, j) as int],
        decreases total - i,
    {
        let byte: u8 = src[i / 32 * 18 + 2 + i % 16];
        let q: u8 = if i % 32 < 16 { byte % 16 } else { byte / 16 };
        v.push(table[q as usize]);
        i = i + 1;
    }
    v
}

/// The bits of the scale of block `b`.
pub fn block_scale(src: &[u8], b: usize) -> (bits: u16)
    requires
        b * 18 + 2 <= src@.len(),
    ensures
        bits == src@[b * 18] + 256 * src@[b * 18 + 1],
{
    let size: usize = src.len();
    assert(b * 18 + 2 <= size);
    let lo: u16 = src[b * 18] as u16;
    let hi: u16 = src[b * 18 + 1] as u16;
    lo + 256 * hi
}

/// The first 16 values of a block are the low halves of its 16 bytes of codes, the other 16 the high
/// halves; a block is 18 bytes, of which the first two are the scale.
pub proof fn law_codes_of_a_block(src: Seq<u8>, b: int, i: int)
    requires
        0 <= b,
        0 <= i < 16,
    ensures
        code(src, 32 * b + i) == src[18 * b + 2 + i] % 16,
        code(src, 32 * b + 16 + i) == src[18 * b + 2 + i] / 16,
{
    let x = 32 * b + i;
    let y = 32 * b + 16 + i;
    assert(x / 32 == b && x % 32 == i && y / 32 == b && y % 32 == 16 + i);
    assert(x == 16 * (2 * b) + i && y == 16 * (2 * b + 1) + i);
    vstd::arithmetic::div_mod::lemma_fundamental_div_mod_converse(x, 16, 2 * b, i);
    vstd::arithmetic::div_mod::lemma_fundamental_div_mod_converse(y, 16, 2 * b + 1, i);
}

/// What the codes stand for grows with the code, from -127 to 113.
pub proof fn law_code_values(q: int)
    requires
        0 <= q < 16,
    ensures
        q < 15 ==> KVALUES@[q] < KVALUES@[q + 1],
        KVALUES@ =~= seq![
            -127i8, -104i8, -83i8, -65i8, -49i8, -35i8, -22i8, -10i8, 1i8, 13i8, 25i8, 38i8, 53i8, 69i8, 89i8, 113i8,
        ],
{
}

} // verus!
