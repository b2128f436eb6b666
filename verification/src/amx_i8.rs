//! Products of packed weights with quantised activations in tiles of bytes: the weights of a block
//! are laid out as a tile, whose product with a row of activations is the exact sum of the block.
use crate::codec::{block_q, q_in, Codec, STRIP};
use crate::gemv::dot;
use vstd::prelude::*;

verus! {

/// Rows of activations per tile.
pub const MAX_ROWS: usize = 16;

/// Where a tile holds the weight of (row `r`, column `kk`): four columns of one row stand together,
/// the 16 rows behind each other.
pub open spec fn tile_place(r: int, kk: int) -> int {
    kk / 4 * 64 + r * 4 + kk % 4
}

/// The row of the weight that stands at a place of a tile.
pub open spec fn row_at(at: int) -> int {
    at % 64 / 4
}

/// The column of the weight that stands at a place of a tile.
pub open spec fn column_at(at: int) -> int {
    at / 64 * 4 + at % 4
}

/// Expand the weights of a block to a tile.
pub fn expand_block(blk: &[u8], c: Codec) -> (tile: Vec<u8>)
    requires
        c.aligned(),
        blk@.len() >= c.block_size(),
        16 * c.kb <= usize::MAX,
    ensures
        tile@.len() == 16 * c.kb,
        forall|r: int, kk: int|
            0 <= r < 16 && 0 <= kk < c.kb ==> #[trigger] tile@[tile_place(r, kk)] == q_in(
                blk@,
                c,
                r,
                kk,
            ),
{
    let n: usize = 16 * c.kb;
    let mut tile: Vec<u8> = Vec::new();
    let mut at: usize = 0;
    while at < n
        invariant
            c.aligned(),
            blk@.len() >= c.block_size(),
            n == 16 * c.kb,
            at <= n,
            tile@.len() == at,
            forall|i: int|
                0 <= i < at ==> #[trigger] tile@[i] == q_in(blk@, c, row_at(i), column_at(i)),
        decreases n - at,
    {
        let r: usize = at % 64 / 4;
        let kk: usize = at / 64 * 4 + at % 4;
        let q: u32 = block_q(blk, c, r, kk);
        tile.push(q as u8);
        at = at + 1;
    }
    assert forall|r: int, kk: int| 0 <= r < 16 && 0 <= kk < c.kb implies #[trigger] tile@[tile_place(
        r,
        kk,
    )] == q_in(blk@, c, r, kk) by {
        law_tile_places_are_distinct(r, kk, c.kb as int);
    }
    tile
}

/// Every weight of a block has a place of its own in the tile, and the place tells the weight.
pub proof fn law_tile_places_are_distinct(r: int, kk: int, kb: int)
    requires
        0 <= r < 16,
        0 <= kk < kb,
        kb % 4 == 0,
    ensures
        0 <= tile_place(r, kk) < 16 * kb,
        row_at(tile_place(r, kk)) == r,
        column_at(tile_place(r, kk)) == kk,
{
}

/// The sum over the first `n` columns of a tile: the weights of row `r` times the activations.
pub open spec fn tile_dot(tile: Seq<u8>, r: int, x: Seq<i8>, n: int) -> int
    decreases n,
{
    if n <= 0 { 0 } else { tile_dot(tile, r, x, n - 1) + tile[tile_place(r, n - 1)] * x[n - 1] }
}

/// The products of a tile of `kb` columns with a row of activations.
pub fn tile_dots(tile: &[u8], kb: usize, x: &[i8]) -> (d: Vec<i32>)
    requires
        kb % 4 == 0,
        kb <= 0x1_0000,
        tile@.len() == 16 * kb,
        x@.len() >= kb,
    ensures
        d@.len() == 16,
        forall|r: int| 0 <= r < 16 ==> #[trigger] d@[r] == tile_dot(tile@, r, x@, kb as int),
{
    let mut d: Vec<i32> = Vec::new();
    let mut r: usize = 0;
    while r < STRIP
        invariant
            kb % 4 == 0,
            kb <= 0x1_0000,
            tile@.len() == 16 * kb,
            x@.len() >= kb,
            r <= 16,
            d@.len() == r,
            forall|i: int| 0 <= i < r ==> #[trigger] d@[i] == tile_dot(tile@, i, x@, kb as int),
        decreases 16 - r,
    {
        let mut sum: i32 = 0;
        let mut kk: usize = 0;
        while kk < kb
            invariant
                kb % 4 == 0,
                kb <= 0x1_0000,
                tile@.len() == 16 * kb,
                x@.len() >= kb,
                r < 16,
                kk <= kb,
                sum == tile_dot(tile@, r as int, x@, kk as int),
                -32640 * kk <= sum <= 32640 * kk,
            decreases kb - kk,
        {
            proof {
                law_tile_places_are_distinct(r as int, kk as int, kb as int);
            }
            let q: u8 = tile[kk / 4 * 64 + r * 4 + kk % 4];
            let v: i8 = x[kk];
            assert(-32640 <= q * v <= 32640) by (nonlinear_arith)
                requires
                    0 <= q <= 255,
                    -128 <= v <= 127,
            ;
            sum = sum + (q as i32) * (v as i32);
            kk = kk + 1;
        }
        d.push(sum);
        r = r + 1;
    }
    d
}

/// The product of an expanded block is the sum of the block, to the bit.
pub proof fn law_tile_product_is_the_block_sum(
    blk: Seq<u8>,
    c: Codec,
    tile: Seq<u8>,
    r: int,
    x: Seq<i8>,
    n: int,
)
    requires
        c.aligned(),
        0 <= r < 16,
        0 <= n <= c.kb,
        forall|i: int, kk: int|
            0 <= i < 16 && 0 <= kk < c.kb ==> #[trigger] tile[tile_place(i, kk)] == q_in(blk, c, i, kk),
    ensures
        tile_dot(tile, r, x, n) == dot(blk, c, r, x, n),
    decreases n,
{
    if n > 0 {
        law_tile_product_is_the_block_sum(blk, c, tile, r, x, n - 1);
        assert(tile[tile_place(r, n - 1)] == q_in(blk, c, r, n - 1));
    }
}

/// The layout of a tile: for every four columns, the 16 rows behind each other with four bytes each.
pub proof fn law_tile_layout(j: int, r: int, i: int)
    requires
        0 <= j,
        0 <= r < 16,
        0 <= i < 4,
    ensures
        tile_place(r, 4 * j + i) == 64 * j + 4 * r + i,
{
}

} // verus!
