//! Square-matrix multiplication two ways — the classical cubic algorithm and
//! Strassen's divide-and-conquer scheme — over fixed-point integer elements,
//! with proofs that both return the mathematical matrix product.

use vstd::prelude::*;

pub mod algebra;
pub mod laws;
pub mod matrix;
pub mod sums;

use crate::matrix::{Matrix, multiply, strassen, check, prod_at, round_to_unit};

verus! {

/// Runs the doubling size sweep the surrounding tool uses: for each side
/// length 3, 6 and 12, multiplies two random matrices with both algorithms
/// and confirms that the rounded equivalence check accepts the two
/// results; the agreement is guaranteed by the multiplication contracts.
pub fn do_test() {
    let mut size: usize = 3;
    while size < 20
        invariant
            size == 3 || size == 6 || size == 12 || size == 24,
        decreases 24 - size,
    {
        let a = Matrix::random(size);
        let b = Matrix::random(size);
        let res_a = multiply(&a, &b);
        let res_b = strassen(&a, &b);
        let ok = check(&res_a, &res_b);
        proof {
            assert forall|i: int, j: int|
                0 <= i < res_a.sz() && 0 <= j < res_a.sz() implies round_to_unit(
                #[trigger] res_a.at(i, j),
            ) == round_to_unit(res_b.at(i, j)) by {
                assert(res_a.at(i, j) == prod_at(a, b, i, j));
                assert(res_b.at(i, j) == prod_at(a, b, i, j));
            }
        }
        assert(ok);
        size *= 2;
    }
}

} // verus!
