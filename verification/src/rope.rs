//! Rotary positions: which entries of a head are rotated together, and by which position. The
//! rotation itself is the caller's.
use vstd::prelude::*;

verus! {

/// Which of the three components of a position turns pair `i`: the components take turns as long as
/// each has pairs left, and the first takes the rest.
pub open spec fn component_of(i: int, sections: Seq<usize>) -> int {
    if i < 3 * sections[i % 3] { i % 3 } else { 0 }
}

/// The component that turns pair `i`.
pub fn component(i: usize, sections: [usize; 3]) -> (c: usize)
    ensures
        c == component_of(i as int, sections@),
        c < 3,
{
    let c: usize = i % 3;
    if (i as u128) < 3 * (sections[c] as u128) { c } else { 0 }
}

/// The position that turns pair `i` of a token at a (time, height, width) position.
pub fn pair_position(i: usize, sections: [usize; 3], pos: [u32; 3]) -> (p: u32)
    ensures
        p == pos@[component_of(i as int, sections@)],
{
    pos[component(i, sections)]
}

/// Where the three components are the same, it does not matter which of them turns a pair.
pub proof fn law_equal_components_turn_alike(i: int, sections: Seq<usize>, pos: Seq<u32>, p: u32)
    requires
        i >= 0,
        pos == seq![p, p, p],
    ensures
        pos[component_of(i, sections)] == p,
{
}

/// The two entries that are rotated together as pair `i`.
pub fn pair_entries(i: usize, n_rot: usize) -> (r: (usize, usize))
    requires
        i < n_rot / 2,
    ensures
        r.0 == i,
        r.1 == i + n_rot / 2,
        r.0 < r.1 < n_rot,
{
    (i, i + n_rot / 2)
}

/// No entry is rotated twice.
pub proof fn law_pairs_are_disjoint(i: int, j: int, half: int)
    requires
        0 <= i < half,
        0 <= j < half,
        i != j,
    ensures
        i + half != j && i != j + half && i + half != j + half,
{
}

/// A pair is turned by the component of its place among three, as far as that component's section
/// reaches, and by the first component beyond.
pub proof fn law_components_take_turns(k: int, c: int, sections: Seq<usize>)
    requires
        0 <= k,
        0 <= c < 3,
    ensures
        k < sections[c] ==> component_of(3 * k + c, sections) == c,
        k >= sections[c] ==> component_of(3 * k + c, sections) == 0,
{
}

} // verus!
