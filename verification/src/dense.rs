//! Row-major addressing of a dense three-dimensional array stored in one flat vector.

use vstd::prelude::*;

verus! {

/// Position of element `(i0, i1, i2)` in a row-major array whose two inner
/// dimensions are `d1` and `d2`.
pub open spec fn flat_index(d1: int, d2: int, i0: int, i1: int, i2: int) -> int {
    (i0 * d1 + i1) * d2 + i2
}

/// Every in-range triple is addressed inside the `d0 * d1 * d2` elements.
pub proof fn lemma_flat_index_in_range(d0: int, d1: int, d2: int, i0: int, i1: int, i2: int)
    requires
        0 <= i0 < d0,
        0 <= i1 < d1,
        0 <= i2 < d2,
    ensures
        0 <= flat_index(d1, d2, i0, i1, i2) < d0 * d1 * d2,
        0 <= i0 * d1 + i1 < d0 * d1,
{
    assert(0 <= i0 * d1 && i0 * d1 + d1 <= d0 * d1) by (nonlinear_arith)
        requires
            0 <= i0 < d0,
            0 < d1,
    ;
    let row = i0 * d1 + i1;
    assert(0 <= row * d2 && row * d2 + d2 <= (d0 * d1) * d2) by (nonlinear_arith)
        requires
            0 <= row < d0 * d1,
            0 < d2,
    ;
}

/// Distinct in-range triples are addressed at distinct positions.
pub proof fn lemma_flat_index_injective(
    d1: int,
    d2: int,
    i0: int,
    i1: int,
    i2: int,
    j0: int,
    j1: int,
    j2: int,
)
    requires
        0 <= i0,
        0 <= j0,
        0 <= i1 < d1,
        0 <= j1 < d1,
        0 <= i2 < d2,
        0 <= j2 < d2,
        flat_index(d1, d2, i0, i1, i2) == flat_index(d1, d2, j0, j1, j2),
    ensures
        i0 == j0,
        i1 == j1,
        i2 == j2,
{
    let ri = i0 * d1 + i1;
    let rj = j0 * d1 + j1;
    assert(ri == rj) by (nonlinear_arith)
        requires
            ri * d2 + i2 == rj * d2 + j2,
            0 <= i2 < d2,
            0 <= j2 < d2,
    ;
    assert(i0 == j0) by (nonlinear_arith)
        requires
            i0 * d1 + i1 == j0 * d1 + j1,
            0 <= i1 < d1,
            0 <= j1 < d1,
    ;
}

/// Number of elements of a `d0 * d1 * d2` array, or `None` when that number
/// does not fit in a `usize`.
pub fn volume(d0: usize, d1: usize, d2: usize) -> (total: Option<usize>)
    ensures
        d0 * d1 * d2 <= usize::MAX ==> total == Some((d0 * d1 * d2) as usize),
        d0 * d1 * d2 > usize::MAX ==> total.is_none(),
{
    if d0 == 0 || d1 == 0 || d2 == 0 {
        assert(d0 * d1 * d2 == 0) by (nonlinear_arith)
            requires
                d0 == 0 || d1 == 0 || d2 == 0,
        ;
        return Some(0);
    }
    match d0.checked_mul(d1) {
        Some(plane) => plane.checked_mul(d2),
        None => {
            assert(d0 * d1 * d2 >= d0 * d1) by (nonlinear_arith)
                requires
                    d0 * d1 >= 0,
                    d2 >= 1,
            ;
            None
        },
    }
}

/// Computes `flat_index` for an in-range triple of an array that fits in memory.
pub fn offset(d0: usize, d1: usize, d2: usize, i0: usize, i1: usize, i2: usize) -> (at: usize)
    requires
        i0 < d0,
        i1 < d1,
        i2 < d2,
        d0 * d1 * d2 <= usize::MAX,
    ensures
        at == flat_index(d1 as int, d2 as int, i0 as int, i1 as int, i2 as int),
        at < d0 * d1 * d2,
{
    proof {
        lemma_flat_index_in_range(
            d0 as int,
            d1 as int,
            d2 as int,
            i0 as int,
            i1 as int,
            i2 as int,
        );
        assert(d0 * d1 <= d0 * d1 * d2) by (nonlinear_arith)
            requires
                d0 * d1 >= 0,
                d2 >= 1,
        ;
        assert(0 <= i0 * d1 <= i0 * d1 + i1) by (nonlinear_arith)
            requires
                i0 >= 0,
                d1 >= 0,
                i1 >= 0,
        ;
        let row = i0 * d1 + i1;
        assert(0 <= row * d2 <= row * d2 + i2) by (nonlinear_arith)
            requires
                row >= 0,
                d2 >= 0,
                i2 >= 0,
        ;
    }
    (i0 * d1 + i1) * d2 + i2
}

} // verus!
