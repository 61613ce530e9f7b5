use vstd::prelude::*;

verus! {

/// A side whose square fits in a `usize` also fits in an `isize`.
pub proof fn lemma_side_fits(n: int)
    requires
        0 <= n,
        n * n <= usize::MAX,
    ensures
        n <= isize::MAX,
{
    if n > isize::MAX {
        assert(n * n >= n * 2) by (nonlinear_arith)
            requires
                n >= 2,
        ;
    }
}

/// Two sides whose squares fit in a `usize` add up to no more than
/// `isize::MAX`.
pub proof fn lemma_sides_add_up(n: int, m: int)
    requires
        0 <= n,
        0 <= m,
        n * n <= usize::MAX,
        m * m <= usize::MAX,
    ensures
        n + m <= isize::MAX,
{
    lemma_double_fits(n);
    lemma_double_fits(m);
}

proof fn lemma_double_fits(n: int)
    requires
        0 <= n,
        n * n <= usize::MAX,
    ensures
        2 * n <= isize::MAX / 2 + 2,
{
    if n >= 8 {
        assert(n * n >= 8 * n) by (nonlinear_arith)
            requires
                n >= 8,
        ;
    }
}

} // verus!
