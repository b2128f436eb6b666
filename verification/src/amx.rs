//! Tiles of a matrix product: how rows and strips are cut into tiles, when the tile configuration
//! changes, and where unpacked weights stand. The products themselves are the caller's.
use vstd::prelude::*;

verus! {

/// Storage unit of tile buffers: 64 bytes.
#[derive(Clone, Copy, Debug)]
pub struct Line(pub [u16; 32]);

/// Rows of a tile.
pub const TILE_ROWS: usize = 16;

/// Unpacked size of a strip that is `k` deep, in lines.
pub fn strip_lines(k: usize) -> (n: usize)
    ensures
        n == k / 2,
{
    k / 2
}

/// The tile configuration that is loaded: the rows of the two row blocks, none at first.
#[derive(Clone, Copy, Debug, Default, PartialEq, Eq, Structural)]
pub struct TileRows(pub usize, pub usize);

/// One step of a product: up to two strips against up to two row blocks of 16.
#[derive(Clone, Copy, Debug, PartialEq, Eq, Structural)]
pub struct TileStep {
    pub strip: usize,
    /// One or two strips.
    pub strips: usize,
    pub row: usize,
    pub tiles: TileRows,
    /// Whether the configuration has to be loaded before the step.
    pub reload: bool,
}

/// How many groups of `size` hold `n`.
pub open spec fn groups(n: int, size: int) -> int {
    (n + size - 1) / size
}

/// The smaller number.
pub open spec fn least(a: int, b: int) -> int {
    if a < b { a } else { b }
}

/// How the rows from `row` on are cut: 16 into the first block, up to 16 more into the second.
pub open spec fn row_split(row: int, m: int) -> TileRows {
    let rows = least(m - row, 32);
    TileRows(least(rows, 16) as usize, (if rows > 16 { rows - 16 } else { 0 }) as usize)
}

/// Step `i` of a product of `n_strips` strips and `m` rows, but for the reload: strips in twos, and
/// for each two of them all rows.
pub open spec fn step_at(n_strips: int, m: int, i: int) -> (int, int, int, TileRows) {
    let per = groups(m, 32);
    let p = i / per;
    let q = i % per;
    (2 * p, least(n_strips - 2 * p, 2), 32 * q, row_split(32 * q, m))
}

/// The configuration that is loaded before step `i`.
pub open spec fn loaded(n_strips: int, m: int, i: int, first: TileRows) -> TileRows {
    if i <= 0 { first } else { step_at(n_strips, m, i - 1).3 }
}

/// Whether a step is the planned one.
pub open spec fn planned(s: TileStep, n_strips: int, m: int, i: int, first: TileRows) -> bool {
    &&& s.strip == step_at(n_strips, m, i).0
    &&& s.strips == step_at(n_strips, m, i).1
    &&& s.row == step_at(n_strips, m, i).2
    &&& s.tiles == step_at(n_strips, m, i).3
    &&& s.reload == (loaded(n_strips, m, i, first) != s.tiles)
}

proof fn lemma_groups(n: int, size: int)
    requires
        n >= 0,
        size > 0,
    ensures
        groups(n, size) >= 0,
        n <= groups(n, size) * size < n + size,
        n > 0 ==> groups(n, size) >= 1,
{
    vstd::arithmetic::div_mod::lemma_fundamental_div_mod(n + size - 1, size);
    vstd::arithmetic::div_mod::lemma_mod_bound(n + size - 1, size);
    vstd::arithmetic::div_mod::lemma_div_pos_is_pos(n + size - 1, size);
    vstd::arithmetic::mul::lemma_mul_is_commutative(size, groups(n, size));
    let g = groups(n, size);
    if n > 0 && g < 1 {
        assert(g * size <= 0) by (nonlinear_arith)
            requires
                g <= 0,
                size > 0,
        ;
    }
}

/// The steps of a product of `n_strips` strips and `m` rows, with the configuration `first` loaded,
/// and the configuration that is loaded after them.
pub fn tile_plan(n_strips: usize, m: usize, first: TileRows) -> (r: (Vec<TileStep>, TileRows))
    requires
        n_strips + 1 <= usize::MAX,
        m + 31 <= usize::MAX,
    ensures
        r.0@.len() == if m == 0 { 0 } else { groups(n_strips as int, 2) * groups(m as int, 32) },
        forall|i: int|
            0 <= i < r.0@.len() ==> planned(#[trigger] r.0@[i], n_strips as int, m as int, i, first),
        r.1 == loaded(n_strips as int, m as int, r.0@.len() as int, first),
{
    let mut steps: Vec<TileStep> = Vec::new();
    let mut cfg: TileRows = first;
    if m == 0 {
        return (steps, cfg);
    }
    let ghost per = groups(m as int, 32);
    proof {
        lemma_groups(m as int, 32);
        lemma_groups(n_strips as int, 2);
        assert(0 * per == 0) by (nonlinear_arith);
    }
    let mut sp: usize = 0;
    let ghost mut p: int = 0;
    while sp < n_strips
        invariant
            n_strips + 1 <= usize::MAX,
            m + 31 <= usize::MAX,
            m > 0,
            per == groups(m as int, 32),
            per >= 1,
            m <= per * 32 < m + 32,
            n_strips <= groups(n_strips as int, 2) * 2 < n_strips + 2,
            0 <= p <= groups(n_strips as int, 2),
            sp == 2 * p || (sp == n_strips && p == groups(n_strips as int, 2)),
            sp <= n_strips,
            sp < n_strips ==> sp == 2 * p,
            sp == n_strips ==> p == groups(n_strips as int, 2),
            steps@.len() == p * per,
            forall|i: int|
                0 <= i < steps@.len() ==> planned(#[trigger] steps@[i], n_strips as int, m as int, i, first),
            cfg == loaded(n_strips as int, m as int, steps@.len() as int, first),
        decreases n_strips - sp,
    {
        let strips: usize = if n_strips - sp < 2 { n_strips - sp } else { 2 };
        let mut r0: usize = 0;
        let ghost mut q: int = 0;
        while r0 < m
            invariant
                n_strips + 1 <= usize::MAX,
                m + 31 <= usize::MAX,
                m > 0,
                sp < n_strips,
                sp == 2 * p,
                0 <= p,
                strips == least(n_strips - 2 * p, 2),
                per == groups(m as int, 32),
                per >= 1,
                m <= per * 32 < m + 32,
                0 <= q <= per,
                r0 <= m,
                r0 < m ==> r0 == 32 * q,
                r0 == m ==> q == per,
                steps@.len() == p * per + q,
                forall|i: int|
                    0 <= i < steps@.len() ==> planned(#[trigger] steps@[i], n_strips as int, m as int, i, first),
                cfg == loaded(n_strips as int, m as int, steps@.len() as int, first),
            decreases m - r0,
        {
            let rows: usize = if m - r0 < 32 { m - r0 } else { 32 };
            let tiles: TileRows = if rows > TILE_ROWS {
                TileRows(TILE_ROWS, rows - TILE_ROWS)
            } else {
                TileRows(rows, 0)
            };
            let reload: bool = cfg != tiles;
            proof {
                let i = p * per + q;
                vstd::arithmetic::div_mod::lemma_fundamental_div_mod_converse(i, per, p, q);
                assert(step_at(n_strips as int, m as int, i) == (
                    2 * p,
                    least(n_strips - 2 * p, 2),
                    32 * q,
                    row_split(32 * q, m as int),
                ));
                assert(tiles == row_split(32 * q, m as int));
            }
            let step: TileStep = TileStep { strip: sp, strips, row: r0, tiles, reload };
            steps.push(step);
            cfg = tiles;
            r0 = r0 + rows;
            proof {
                q = q + 1;
            }
        }
        proof {
            assert((p + 1) * per == p * per + per) by (nonlinear_arith);
            p = p + 1;
        }
        sp = sp + strips;
    }
    (steps, cfg)
}

/// Whether a step covers a row of a strip.
pub open spec fn covers(n_strips: int, m: int, i: int, strip: int, row: int) -> bool {
    let s = step_at(n_strips, m, i);
    s.0 <= strip < s.0 + s.1 && s.2 <= row < s.2 + s.3.0 + s.3.1
}

/// Every row of every strip is covered by one step of the plan, and by no other.
pub proof fn law_plan_covers_everything_once(n_strips: int, m: int, strip: int, row: int, i: int)
    requires
        0 <= strip < n_strips,
        0 <= row < m <= usize::MAX,
        0 <= i < groups(n_strips, 2) * groups(m, 32),
    ensures
        0 <= strip / 2 * groups(m, 32) + row / 32 < groups(n_strips, 2) * groups(m, 32),
        covers(n_strips, m, i, strip, row) <==> i == strip / 2 * groups(m, 32) + row / 32,
{
    let per = groups(m, 32);
    let all = groups(n_strips, 2);
    lemma_groups(m, 32);
    lemma_groups(n_strips, 2);
    let p = strip / 2;
    let q = row / 32;
    assert(q < per);
    assert(p < all);
    assert(0 <= p * per && p * per + q < all * per) by (nonlinear_arith)
        requires
            0 <= p < all,
            0 <= q < per,
    ;
    let j = p * per + q;
    vstd::arithmetic::div_mod::lemma_fundamental_div_mod_converse(j, per, p, q);
    vstd::arithmetic::div_mod::lemma_fundamental_div_mod(i, per);
    vstd::arithmetic::div_mod::lemma_mod_bound(i, per);
    vstd::arithmetic::div_mod::lemma_div_pos_is_pos(i, per);
    vstd::arithmetic::mul::lemma_mul_is_commutative(per, i / per);
    if covers(n_strips, m, i, strip, row) {
        assert(i / per == p);
        assert(i % per == q);
    }
}

/// The rows that each of the eight tiles is configured with: results and rows of either block, and
/// two strips. No tile has none.
pub fn tile_rows(t: TileRows) -> (r: [u8; 8])
    requires
        t.0 <= 16,
        t.1 <= 16,
    ensures
        r@ == {
            let a = if t.0 == 0 { 1u8 } else { t.0 as u8 };
            let b = if t.1 == 0 { 1u8 } else { t.1 as u8 };
            seq![a, a, b, b, a, b, 16u8, 16u8]
        },
{
    let a: u8 = if t.0 == 0 { 1 } else { t.0 as u8 };
    let b: u8 = if t.1 == 0 { 1 } else { t.1 as u8 };
    let r: [u8; 8] = [a, a, b, b, a, b, 16, 16];
    assert(r@ =~= seq![a, a, b, b, a, b, 16u8, 16u8]);
    r
}

/// Where the weight of (row `n`, column `k`) stands in an unpacked strip: pairs of columns, in each
/// the rows one behind another.
pub open spec fn place_of(n: int, k: int) -> int {
    k / 2 * 32 + n * 2 + k % 2
}

/// Where the weight of (row `n`, column `k`) stands in an unpacked strip.
pub fn unpacked_place(n: usize, k: usize) -> (at: usize)
    requires
        n < 16,
        16 * k + 32 <= usize::MAX,
    ensures
        at == place_of(n as int, k as int),
{
    k / 2 * 32 + n * 2 + k % 2
}

/// Every weight has a place of its own within the lines of its strip.
pub proof fn law_unpacked_places_are_distinct(n1: int, k1: int, n2: int, k2: int, k: int)
    requires
        0 <= n1 < 16,
        0 <= n2 < 16,
        0 <= k1 < k,
        0 <= k2 < k,
        k % 2 == 0,
    ensures
        0 <= place_of(n1, k1) < k / 2 * 32,
        place_of(n1, k1) == place_of(n2, k2) ==> n1 == n2 && k1 == k2,
{
}

/// The layout of an unpacked strip: for every two columns, the 16 rows behind each other with two
/// weights each.
pub proof fn law_unpacked_layout(j: int, n: int, i: int)
    requires
        0 <= j,
        0 <= n < 16,
        0 <= i < 2,
    ensures
        place_of(n, 2 * j + i) == 32 * j + 2 * n + i,
{
}

/// A step takes two strips and 32 rows where there are as many, the rows 16 to a tile, the first tile
/// filled before the second.
pub proof fn law_steps_are_full_where_they_can_be(n_strips: int, m: int, i: int)
    requires
        0 < m <= usize::MAX,
        0 <= i < groups(n_strips, 2) * groups(m, 32),
        n_strips > 0,
    ensures
        ({
            let s = step_at(n_strips, m, i);
            &&& 1 <= s.1 <= 2
            &&& s.0 + s.1 <= n_strips
            &&& s.1 == 2 || s.0 + 1 == n_strips
            &&& s.3.0 + s.3.1 == 32 || s.2 + s.3.0 + s.3.1 == m
            &&& 1 <= s.3.0 <= 16 && s.3.1 <= 16
            &&& s.3.1 > 0 ==> s.3.0 == 16
        }),
{
    let per = groups(m, 32);
    let p = i / per;
    let q = i % per;
    vstd::arithmetic::div_mod::lemma_fundamental_div_mod(i, per);
    vstd::arithmetic::div_mod::lemma_mod_bound(i, per);
    assert(0 <= p < groups(n_strips, 2)) by (nonlinear_arith)
        requires
            i == per * p + q,
            0 <= q < per,
            0 <= i < groups(n_strips, 2) * per,
    ;
    assert(32 * q < m);
}

} // verus!
