//! Proof support for the matrix contracts: row-major index arithmetic,
//! facts about the next-power-of-two function, bounds on dot products, and
//! the linearity and splitting lemmas that carry Strassen's seven-product
//! identity.

use vstd::prelude::*;
use crate::sums::{
    sum_upto, lemma_sum_congruent, lemma_sum_add, lemma_sum_sub, lemma_sum_split, lemma_sum_zero,
    lemma_sum_bound,
};
use crate::matrix::{
    Matrix, np2, is_pow2, prod_at, mul_term, is_sum_of, is_diff_of, is_product_of,
    are_quadrants_of, is_pad_of,
};

verus! {

/// A row-major offset lies inside its own row.
pub proof fn lemma_rm_index(i: int, j: int, n: int)
    by (nonlinear_arith)
    requires
        0 <= i,
        0 <= j < n,
    ensures
        i * n <= i * n + j < (i + 1) * n,
{
}

/// Multiplication by a non-negative factor keeps order.
pub proof fn lemma_mul_le(a: int, b: int, n: int)
    by (nonlinear_arith)
    requires
        a <= b,
        0 <= n,
    ensures
        a * n <= b * n,
{
}

/// Distinct positions in an `n` by `n` grid have distinct row-major
/// offsets.
pub proof fn lemma_rm_index_distinct(r: int, c: int, i: int, j: int, n: int)
    by (nonlinear_arith)
    requires
        0 <= r < n,
        0 <= c < n,
        0 <= i < n,
        0 <= j < n,
        !(r == i && c == j),
    ensures
        r * n + c != i * n + j,
{
}

/// A flat index below `n * n` decomposes into a row below `n` and a column
/// below `n`.
pub proof fn lemma_flat_div(k: int, n: int)
    requires
        0 < n,
        0 <= k < n * n,
    ensures
        0 <= k / n < n,
        0 <= k % n < n,
        k == (k / n) * n + (k % n),
{
    vstd::arithmetic::div_mod::lemma_fundamental_div_mod(k, n);
    vstd::arithmetic::div_mod::lemma_mod_pos_bound(k, n);
    assert(k == (k / n) * n + (k % n)) by (nonlinear_arith)
        requires
            k == n * (k / n) + (k % n),
    ;
    assert(0 <= k / n < n) by (nonlinear_arith)
        requires
            0 < n,
            0 <= k < n * n,
            k == n * (k / n) + (k % n),
            0 <= k % n < n,
    ;
}

/// Dividing a row-major offset by the row length recovers the row and the
/// column.
pub proof fn lemma_rm_div(i: int, j: int, n: int)
    requires
        0 <= i,
        0 <= j < n,
    ensures
        (i * n + j) / n == i,
        (i * n + j) % n == j,
{
    vstd::arithmetic::div_mod::lemma_fundamental_div_mod_converse(i * n + j, n, i, j);
}

/// The next power of two is at least 1 and at least `n`.
pub proof fn lemma_np2_ge(n: nat)
    ensures
        np2(n) >= n,
        np2(n) >= 1,
    decreases n,
{
    if n > 1 {
        lemma_np2_ge(((n + 1) / 2) as nat);
    }
}

/// The next power of two is a power of two.
pub proof fn lemma_np2_pow2(n: nat)
    ensures
        is_pow2(np2(n)),
    decreases n,
{
    if n > 1 {
        lemma_np2_pow2(((n + 1) / 2) as nat);
    }
}

/// `np2(n)` is the least power of two at or above `n`: any power of two
/// `q >= n` is at least `np2(n)`.
pub proof fn lemma_np2_min(n: nat, q: nat)
    requires
        is_pow2(q),
        q >= n,
    ensures
        np2(n) <= q,
    decreases n,
{
    if n > 1 {
        lemma_np2_min(((n + 1) / 2) as nat, q / 2);
    }
}

/// On a power of two, `np2` gives its argument back.
pub proof fn lemma_np2_of_pow2(n: nat)
    requires
        is_pow2(n),
    ensures
        np2(n) == n,
{
    lemma_np2_ge(n);
    lemma_np2_min(n, n);
}

/// A dot product of elements bounded by `c` is bounded by `sz * c * c`.
pub proof fn lemma_prod_bound(a: Matrix, b: Matrix, c: int, i: int, j: int)
    requires
        a.sz() == b.sz(),
        a.bounded(c),
        b.bounded(c),
        0 <= c,
        0 <= i < a.sz(),
        0 <= j < a.sz(),
    ensures
        -(a.sz() * (c * c)) <= prod_at(a, b, i, j) <= a.sz() * (c * c),
{
    let f = mul_term(a, b, i, j);
    let n = a.sz();
    assert forall|k: int| 0 <= k < n implies -(c * c) <= #[trigger] f(k) <= c * c by {
        assert(-(c * c) <= a.at(i, k) * b.at(k, j) <= c * c) by (nonlinear_arith)
            requires
                -c <= a.at(i, k) <= c,
                -c <= b.at(k, j) <= c,
        ;
    }
    lemma_sum_bound(f, n, c * c);
}

/// A bound on the elements still holds at any larger bound.
pub proof fn lemma_bounded_widen(m: Matrix, c: int, d: int)
    requires
        m.bounded(c),
        c <= d,
    ensures
        m.bounded(d),
{
    assert forall|i: int, j: int|
        0 <= i < m.sz() && 0 <= j < m.sz() implies -d <= #[trigger] m.at(i, j) <= d by {
        assert(-c <= m.at(i, j) <= c);
    }
}

/// The quadrants of a matrix inherit its element bound.
pub proof fn lemma_quadrants_bounded(
    q1: Matrix,
    q2: Matrix,
    q3: Matrix,
    q4: Matrix,
    m: Matrix,
    c: int,
)
    requires
        are_quadrants_of(q1, q2, q3, q4, m),
        m.bounded(c),
    ensures
        q1.bounded(c),
        q2.bounded(c),
        q3.bounded(c),
        q4.bounded(c),
{
    let h = m.sz() / 2;
    assert forall|i: int, j: int|
        0 <= i < h && 0 <= j < h implies -c <= #[trigger] q1.at(i, j) <= c by {
        assert(q1.at(i, j) == m.at(i, j));
    }
    assert forall|i: int, j: int|
        0 <= i < h && 0 <= j < h implies -c <= #[trigger] q2.at(i, j) <= c by {
        assert(q2.at(i, j) == m.at(i, j + h));
    }
    assert forall|i: int, j: int|
        0 <= i < h && 0 <= j < h implies -c <= #[trigger] q3.at(i, j) <= c by {
        assert(q3.at(i, j) == m.at(i + h, j));
    }
    assert forall|i: int, j: int|
        0 <= i < h && 0 <= j < h implies -c <= #[trigger] q4.at(i, j) <= c by {
        assert(q4.at(i, j) == m.at(i + h, j + h));
    }
}

/// An elementwise sum of matrices bounded by `c` is bounded by `2 * c`.
pub proof fn lemma_sum_bounded(s: Matrix, x: Matrix, y: Matrix, c: int)
    requires
        is_sum_of(s, x, y),
        y.sz() == x.sz(),
        x.bounded(c),
        y.bounded(c),
    ensures
        s.bounded(2 * c),
{
    assert forall|i: int, j: int|
        0 <= i < s.sz() && 0 <= j < s.sz() implies -(2 * c) <= #[trigger] s.at(i, j) <= 2 * c by {
        assert(s.at(i, j) == x.at(i, j) + y.at(i, j));
        assert(-c <= x.at(i, j) <= c);
        assert(-c <= y.at(i, j) <= c);
    }
}

/// An elementwise difference of matrices bounded by `c` is bounded by
/// `2 * c`.
pub proof fn lemma_diff_bounded(d: Matrix, x: Matrix, y: Matrix, c: int)
    requires
        is_diff_of(d, x, y),
        y.sz() == x.sz(),
        x.bounded(c),
        y.bounded(c),
    ensures
        d.bounded(2 * c),
{
    assert forall|i: int, j: int|
        0 <= i < d.sz() && 0 <= j < d.sz() implies -(2 * c) <= #[trigger] d.at(i, j) <= 2 * c by {
        assert(d.at(i, j) == x.at(i, j) - y.at(i, j));
        assert(-c <= x.at(i, j) <= c);
        assert(-c <= y.at(i, j) <= c);
    }
}

/// A matrix product of factors bounded by `c` is bounded elementwise by
/// `sz * c * c`.
pub proof fn lemma_product_bounded(r: Matrix, x: Matrix, y: Matrix, c: int)
    requires
        is_product_of(r, x, y),
        x.sz() == y.sz(),
        x.bounded(c),
        y.bounded(c),
        0 <= c,
    ensures
        r.bounded(x.sz() * (c * c)),
{
    let b = x.sz() * (c * c);
    assert forall|i: int, j: int|
        0 <= i < r.sz() && 0 <= j < r.sz() implies -b <= #[trigger] r.at(i, j) <= b by {
        assert(r.at(i, j) == prod_at(x, y, i, j));
        lemma_prod_bound(x, y, c, i, j);
    }
}

/// Splitting the left factor of a dot product: if `s` is the elementwise
/// sum of `x` and `y`, a dot product against `s` is the sum of the dot
/// products against `x` and `y`.
pub proof fn lemma_prod_sum_left(s: Matrix, x: Matrix, y: Matrix, b: Matrix, i: int, j: int)
    requires
        is_sum_of(s, x, y),
        y.sz() == x.sz(),
        s.sz() == b.sz(),
        0 <= i < s.sz(),
    ensures
        prod_at(s, b, i, j) == prod_at(x, b, i, j) + prod_at(y, b, i, j),
{
    let fs = mul_term(s, b, i, j);
    let fx = mul_term(x, b, i, j);
    let fy = mul_term(y, b, i, j);
    let n = s.sz();
    assert forall|k: int| 0 <= k < n implies #[trigger] fs(k) == fx(k) + fy(k) by {
        assert(s.at(i, k) == x.at(i, k) + y.at(i, k));
        assert((x.at(i, k) + y.at(i, k)) * b.at(k, j) == x.at(i, k) * b.at(k, j) + y.at(i, k)
            * b.at(k, j)) by (nonlinear_arith);
    }
    lemma_sum_add(fs, fx, fy, n);
}

/// Splitting the left factor of a dot product over a difference.
pub proof fn lemma_prod_diff_left(d: Matrix, x: Matrix, y: Matrix, b: Matrix, i: int, j: int)
    requires
        is_diff_of(d, x, y),
        y.sz() == x.sz(),
        d.sz() == b.sz(),
        0 <= i < d.sz(),
    ensures
        prod_at(d, b, i, j) == prod_at(x, b, i, j) - prod_at(y, b, i, j),
{
    let fd = mul_term(d, b, i, j);
    let fx = mul_term(x, b, i, j);
    let fy = mul_term(y, b, i, j);
    let n = d.sz();
    assert forall|k: int| 0 <= k < n implies #[trigger] fd(k) == fx(k) - fy(k) by {
        assert(d.at(i, k) == x.at(i, k) - y.at(i, k));
        assert((x.at(i, k) - y.at(i, k)) * b.at(k, j) == x.at(i, k) * b.at(k, j) - y.at(i, k)
            * b.at(k, j)) by (nonlinear_arith);
    }
    lemma_sum_sub(fd, fx, fy, n);
}

/// Splitting the right factor of a dot product over a sum.
pub proof fn lemma_prod_sum_right(a: Matrix, s: Matrix, x: Matrix, y: Matrix, i: int, j: int)
    requires
        is_sum_of(s, x, y),
        a.sz() == s.sz(),
        0 <= j < s.sz(),
    ensures
        prod_at(a, s, i, j) == prod_at(a, x, i, j) + prod_at(a, y, i, j),
{
    let fs = mul_term(a, s, i, j);
    let fx = mul_term(a, x, i, j);
    let fy = mul_term(a, y, i, j);
    let n = a.sz();
    assert forall|k: int| 0 <= k < n implies #[trigger] fs(k) == fx(k) + fy(k) by {
        assert(s.at(k, j) == x.at(k, j) + y.at(k, j));
        assert(a.at(i, k) * (x.at(k, j) + y.at(k, j)) == a.at(i, k) * x.at(k, j) + a.at(i, k)
            * y.at(k, j)) by (nonlinear_arith);
    }
    lemma_sum_add(fs, fx, fy, n);
}

/// Splitting the right factor of a dot product over a difference.
pub proof fn lemma_prod_diff_right(a: Matrix, d: Matrix, x: Matrix, y: Matrix, i: int, j: int)
    requires
        is_diff_of(d, x, y),
        a.sz() == d.sz(),
        0 <= j < d.sz(),
    ensures
        prod_at(a, d, i, j) == prod_at(a, x, i, j) - prod_at(a, y, i, j),
{
    let fd = mul_term(a, d, i, j);
    let fx = mul_term(a, x, i, j);
    let fy = mul_term(a, y, i, j);
    let n = a.sz();
    assert forall|k: int| 0 <= k < n implies #[trigger] fd(k) == fx(k) - fy(k) by {
        assert(d.at(k, j) == x.at(k, j) - y.at(k, j));
        assert(a.at(i, k) * (x.at(k, j) - y.at(k, j)) == a.at(i, k) * x.at(k, j) - a.at(i, k)
            * y.at(k, j)) by (nonlinear_arith);
    }
    lemma_sum_sub(fd, fx, fy, n);
}

/// Block decomposition of a matrix product: an entry of the product of two
/// even-sized matrices is the sum of two quadrant dot products, picked by
/// which quadrant of the result the entry lies in.
pub proof fn lemma_prod_split(
    a: Matrix,
    b: Matrix,
    a1: Matrix,
    a2: Matrix,
    a3: Matrix,
    a4: Matrix,
    b1: Matrix,
    b2: Matrix,
    b3: Matrix,
    b4: Matrix,
    i: int,
    j: int,
)
    requires
        a.sz() == b.sz(),
        a.sz() % 2 == 0,
        are_quadrants_of(a1, a2, a3, a4, a),
        are_quadrants_of(b1, b2, b3, b4, b),
        0 <= i < a.sz(),
        0 <= j < a.sz(),
    ensures
        ({
            let h = (a.sz() / 2) as int;
            prod_at(a, b, i, j) == if i < h && j < h {
                prod_at(a1, b1, i, j) + prod_at(a2, b3, i, j)
            } else if i < h {
                prod_at(a1, b2, i, j - h) + prod_at(a2, b4, i, j - h)
            } else if j < h {
                prod_at(a3, b1, i - h, j) + prod_at(a4, b3, i - h, j)
            } else {
                prod_at(a3, b2, i - h, j - h) + prod_at(a4, b4, i - h, j - h)
            }
        }),
{
    let n = a.sz();
    let h = (n / 2) as nat;
    vstd::arithmetic::div_mod::lemma_fundamental_div_mod(n as int, 2);
    assert(n == h + h);
    let f = mul_term(a, b, i, j);
    if i < h && j < h {
        let head = mul_term(a1, b1, i, j);
        let tail = mul_term(a2, b3, i, j);
        assert forall|k: int| 0 <= k < h implies #[trigger] tail(k) == f(k + h) by {
            assert(a2.at(i, k) == a.at(i, k + h));
            assert(b3.at(k, j) == b.at(k + h, j));
        }
        assert forall|k: int| 0 <= k < h implies #[trigger] f(k) == head(k) by {
            assert(a1.at(i, k) == a.at(i, k));
            assert(b1.at(k, j) == b.at(k, j));
        }
        lemma_sum_split(f, tail, h, h);
        lemma_sum_congruent(f, head, h);
    } else if i < h {
        let head = mul_term(a1, b2, i, j - h);
        let tail = mul_term(a2, b4, i, j - h);
        assert forall|k: int| 0 <= k < h implies #[trigger] tail(k) == f(k + h) by {
            assert(a2.at(i, k) == a.at(i, k + h));
            assert(b4.at(k, j - h) == b.at(k + h, (j - h) + h));
        }
        assert forall|k: int| 0 <= k < h implies #[trigger] f(k) == head(k) by {
            assert(a1.at(i, k) == a.at(i, k));
            assert(b2.at(k, j - h) == b.at(k, (j - h) + h));
        }
        lemma_sum_split(f, tail, h, h);
        lemma_sum_congruent(f, head, h);
    } else if j < h {
        let head = mul_term(a3, b1, i - h, j);
        let tail = mul_term(a4, b3, i - h, j);
        assert forall|k: int| 0 <= k < h implies #[trigger] tail(k) == f(k + h) by {
            assert(a4.at(i - h, k) == a.at((i - h) + h, k + h));
            assert(b3.at(k, j) == b.at(k + h, j));
        }
        assert forall|k: int| 0 <= k < h implies #[trigger] f(k) == head(k) by {
            assert(a3.at(i - h, k) == a.at((i - h) + h, k));
            assert(b1.at(k, j) == b.at(k, j));
        }
        lemma_sum_split(f, tail, h, h);
        lemma_sum_congruent(f, head, h);
    } else {
        let head = mul_term(a3, b2, i - h, j - h);
        let tail = mul_term(a4, b4, i - h, j - h);
        assert forall|k: int| 0 <= k < h implies #[trigger] tail(k) == f(k + h) by {
            assert(a4.at(i - h, k) == a.at((i - h) + h, k + h));
            assert(b4.at(k, j - h) == b.at(k + h, (j - h) + h));
        }
        assert forall|k: int| 0 <= k < h implies #[trigger] f(k) == head(k) by {
            assert(a3.at(i - h, k) == a.at((i - h) + h, k));
            assert(b2.at(k, j - h) == b.at(k, (j - h) + h));
        }
        lemma_sum_split(f, tail, h, h);
        lemma_sum_congruent(f, head, h);
    }
}

/// Zero padding both factors does not change the product inside the
/// original region: the padded columns of the left factor are zero, so the
/// extra dot-product terms vanish.
pub proof fn lemma_pad_product(pa: Matrix, pb: Matrix, a: Matrix, b: Matrix, i: int, j: int)
    requires
        is_pad_of(pa, a),
        is_pad_of(pb, b),
        a.sz() == b.sz(),
        0 <= i < a.sz(),
        0 <= j < a.sz(),
    ensures
        prod_at(pa, pb, i, j) == prod_at(a, b, i, j),
{
    let n = a.sz();
    let p = pa.sz();
    lemma_np2_ge(n);
    let m = (p - n) as nat;
    let f = mul_term(pa, pb, i, j);
    let head = mul_term(a, b, i, j);
    let tail = (|k: int| 0);
    assert forall|k: int| 0 <= k < m implies #[trigger] tail(k) == f(k + n) by {
        assert(pa.at(i, k + n) == 0);
        assert(0 * pb.at(k + n, j) == 0) by (nonlinear_arith);
    }
    assert forall|k: int| 0 <= k < n implies #[trigger] f(k) == head(k) by {
        assert(pa.at(i, k) == a.at(i, k));
        assert(pb.at(k, j) == b.at(k, j));
    }
    lemma_sum_split(f, tail, n, m);
    lemma_sum_congruent(f, head, n);
    lemma_sum_zero(tail, m);
}

/// Strassen's seven-product identity, read at one position of the result:
/// with the ten operand sums and differences and the seven products formed
/// as the algorithm forms them, the four combinations of products equal
/// the four quadrant entries of the true product.
pub proof fn lemma_strassen_quadrants(
    a1: Matrix,
    a2: Matrix,
    a3: Matrix,
    a4: Matrix,
    b1: Matrix,
    b2: Matrix,
    b3: Matrix,
    b4: Matrix,
    sa14: Matrix,
    sb14: Matrix,
    sa34: Matrix,
    db24: Matrix,
    db31: Matrix,
    sa12: Matrix,
    da31: Matrix,
    sb12: Matrix,
    da24: Matrix,
    sb34: Matrix,
    m1: Matrix,
    m2: Matrix,
    m3: Matrix,
    m4: Matrix,
    m5: Matrix,
    m6: Matrix,
    m7: Matrix,
    i: int,
    j: int,
)
    requires
        a2.sz() == a1.sz(),
        a3.sz() == a1.sz(),
        a4.sz() == a1.sz(),
        b1.sz() == a1.sz(),
        b2.sz() == a1.sz(),
        b3.sz() == a1.sz(),
        b4.sz() == a1.sz(),
        is_sum_of(sa14, a1, a4),
        is_sum_of(sb14, b1, b4),
        is_sum_of(sa34, a3, a4),
        is_diff_of(db24, b2, b4),
        is_diff_of(db31, b3, b1),
        is_sum_of(sa12, a1, a2),
        is_diff_of(da31, a3, a1),
        is_sum_of(sb12, b1, b2),
        is_diff_of(da24, a2, a4),
        is_sum_of(sb34, b3, b4),
        is_product_of(m1, sa14, sb14),
        is_product_of(m2, sa34, b1),
        is_product_of(m3, a1, db24),
        is_product_of(m4, a4, db31),
        is_product_of(m5, sa12, b4),
        is_product_of(m6, da31, sb12),
        is_product_of(m7, da24, sb34),
        0 <= i < a1.sz(),
        0 <= j < a1.sz(),
    ensures
        m1.at(i, j) + m4.at(i, j) - m5.at(i, j) + m7.at(i, j) == prod_at(a1, b1, i, j) + prod_at(
            a2,
            b3,
            i,
            j,
        ),
        m3.at(i, j) + m5.at(i, j) == prod_at(a1, b2, i, j) + prod_at(a2, b4, i, j),
        m2.at(i, j) + m4.at(i, j) == prod_at(a3, b1, i, j) + prod_at(a4, b3, i, j),
        m1.at(i, j) - m2.at(i, j) + m3.at(i, j) + m6.at(i, j) == prod_at(a3, b2, i, j) + prod_at(
            a4,
            b4,
            i,
            j,
        ),
{
    assert(m1.at(i, j) == prod_at(sa14, sb14, i, j));
    lemma_prod_sum_left(sa14, a1, a4, sb14, i, j);
    lemma_prod_sum_right(a1, sb14, b1, b4, i, j);
    lemma_prod_sum_right(a4, sb14, b1, b4, i, j);
    assert(m2.at(i, j) == prod_at(sa34, b1, i, j));
    lemma_prod_sum_left(sa34, a3, a4, b1, i, j);
    assert(m3.at(i, j) == prod_at(a1, db24, i, j));
    lemma_prod_diff_right(a1, db24, b2, b4, i, j);
    assert(m4.at(i, j) == prod_at(a4, db31, i, j));
    lemma_prod_diff_right(a4, db31, b3, b1, i, j);
    assert(m5.at(i, j) == prod_at(sa12, b4, i, j));
    lemma_prod_sum_left(sa12, a1, a2, b4, i, j);
    assert(m6.at(i, j) == prod_at(da31, sb12, i, j));
    lemma_prod_diff_left(da31, a3, a1, sb12, i, j);
    lemma_prod_sum_right(a3, sb12, b1, b2, i, j);
    lemma_prod_sum_right(a1, sb12, b1, b2, i, j);
    assert(m7.at(i, j) == prod_at(da24, sb34, i, j));
    lemma_prod_diff_left(da24, a2, a4, sb34, i, j);
    lemma_prod_sum_right(a2, sb34, b3, b4, i, j);
    lemma_prod_sum_right(a4, sb34, b3, b4, i, j);
}

} // verus!
