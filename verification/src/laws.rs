//! The library's laws, stated over the spec vocabulary that the operation
//! contracts use and proved once and for all: whoever composes the
//! operations gets these facts from the contracts alone.

use vstd::prelude::*;
use crate::matrix::{
    Matrix, np2, is_pow2, prod_at, is_product_of, is_sum_of, is_diff_of, is_pad_of, is_trim_of,
    are_quadrants_of, is_join_of, same_matrix, check_spec, round_to_unit,
};
use crate::algebra::lemma_np2_of_pow2;
use crate::sums::lemma_sum_zero;
use crate::matrix::mul_term;

verus! {

/// The two multiplication algorithms agree: any two matrices that satisfy
/// the product contract for the same operands pass the rounded
/// equivalence check against each other.
pub proof fn law_algorithms_agree(a: Matrix, b: Matrix, std_res: Matrix, str_res: Matrix)
    requires
        a.sz() == b.sz(),
        is_product_of(std_res, a, b),
        is_product_of(str_res, a, b),
    ensures
        check_spec(std_res, str_res),
{
    assert forall|i: int, j: int|
        0 <= i < std_res.sz() && 0 <= j < std_res.sz() implies round_to_unit(
        #[trigger] std_res.at(i, j),
    ) == round_to_unit(str_res.at(i, j)) by {
        assert(std_res.at(i, j) == prod_at(a, b, i, j));
        assert(str_res.at(i, j) == prod_at(a, b, i, j));
    }
}

/// Padding is idempotent on power-of-two side lengths: a matrix whose
/// side length is already a power of two pads to its own size.
pub proof fn law_pad_keeps_pow2_size(m: Matrix, p: Matrix)
    requires
        is_pad_of(p, m),
        is_pow2(m.sz()),
    ensures
        p.sz() == m.sz(),
{
    lemma_np2_of_pow2(m.sz());
}

/// Trimming a padded matrix back to the original side length reconstructs
/// the original exactly.
pub proof fn law_pad_trim_round_trip(m: Matrix, p: Matrix, t: Matrix)
    requires
        is_pad_of(p, m),
        is_trim_of(t, p, m.sz()),
    ensures
        same_matrix(t, m),
{
    assert forall|i: int, j: int|
        0 <= i < t.sz() && 0 <= j < t.sz() implies #[trigger] t.at(i, j) == m.at(i, j) by {
        assert(t.at(i, j) == p.at(i, j));
        crate::algebra::lemma_np2_ge(m.sz());
    }
}

/// Splitting a matrix of even side length into quadrants and joining the
/// same four quadrants reconstructs the original exactly.
pub proof fn law_split_join_round_trip(
    m: Matrix,
    q1: Matrix,
    q2: Matrix,
    q3: Matrix,
    q4: Matrix,
    r: Matrix,
)
    requires
        m.sz() % 2 == 0,
        are_quadrants_of(q1, q2, q3, q4, m),
        is_join_of(r, q1, q2, q3, q4),
    ensures
        same_matrix(r, m),
{
    let h = (m.sz() / 2) as int;
    vstd::arithmetic::div_mod::lemma_fundamental_div_mod(m.sz() as int, 2);
    assert(m.sz() == 2 * h);
    assert forall|i: int, j: int|
        0 <= i < r.sz() && 0 <= j < r.sz() implies #[trigger] r.at(i, j) == m.at(i, j) by {
        if i < h && j < h {
            assert(q1.at(i, j) == r.at(i, j));
            assert(q1.at(i, j) == m.at(i, j));
        } else if i < h {
            assert(q2.at(i, j - h) == r.at(i, (j - h) + h));
            assert(q2.at(i, j - h) == m.at(i, (j - h) + h));
        } else if j < h {
            assert(q3.at(i - h, j) == r.at((i - h) + h, j));
            assert(q3.at(i - h, j) == m.at((i - h) + h, j));
        } else {
            assert(q4.at(i - h, j - h) == r.at((i - h) + h, (j - h) + h));
            assert(q4.at(i - h, j - h) == m.at((i - h) + h, (j - h) + h));
        }
    }
}

/// Adding `b` and then subtracting `b` again reconstructs the first
/// operand exactly: addition and subtraction lose nothing.
pub proof fn law_add_subtract_round_trip(a: Matrix, b: Matrix, s: Matrix, d: Matrix)
    requires
        b.sz() == a.sz(),
        is_sum_of(s, a, b),
        is_diff_of(d, s, b),
    ensures
        same_matrix(d, a),
{
    assert forall|i: int, j: int|
        0 <= i < d.sz() && 0 <= j < d.sz() implies #[trigger] d.at(i, j) == a.at(i, j) by {
        assert(d.at(i, j) == s.at(i, j) - b.at(i, j));
        assert(s.at(i, j) == a.at(i, j) + b.at(i, j));
    }
}

/// Multiplying by an all-zero matrix of matching size gives an all-zero
/// matrix, on either side; both algorithms promise `prod_at`, so both are
/// covered.
pub proof fn law_zero_annihilates(a: Matrix, z: Matrix, i: int, j: int)
    requires
        z.sz() == a.sz(),
        forall|r: int, c: int| 0 <= r < z.sz() && 0 <= c < z.sz() ==> #[trigger] z.at(r, c) == 0,
        0 <= i < a.sz(),
        0 <= j < a.sz(),
    ensures
        prod_at(a, z, i, j) == 0,
        prod_at(z, a, i, j) == 0,
{
    let f = mul_term(a, z, i, j);
    let g = mul_term(z, a, i, j);
    assert forall|k: int| 0 <= k < a.sz() implies #[trigger] f(k) == 0 by {
        assert(z.at(k, j) == 0);
        assert(a.at(i, k) * 0 == 0) by (nonlinear_arith);
    }
    assert forall|k: int| 0 <= k < a.sz() implies #[trigger] g(k) == 0 by {
        assert(z.at(i, k) == 0);
        assert(0 * a.at(k, j) == 0) by (nonlinear_arith);
    }
    lemma_sum_zero(f, a.sz());
    lemma_sum_zero(g, z.sz());
}

} // verus!
