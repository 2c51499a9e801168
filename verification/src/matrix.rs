//! Square matrices of fixed-point integer elements, stored row-major in a
//! flat buffer, with elementwise addition and subtraction, quadrant
//! decomposition and recomposition, zero padding to a power-of-two side
//! length, trimming, the classical cubic multiplication, Strassen's
//! divide-and-conquer multiplication, and a rounded equivalence check.
//!
//! Elements are `i64` values read as fixed-point numbers with `FIXED_SCALE`
//! steps per unit. Every operation's contract states the exact elements of
//! its result; both multiplication algorithms are proved to return the
//! mathematical matrix product `sum over k of a[i][k] * b[k][j]`.

use vstd::prelude::*;
use crate::sums::sum_upto;
use crate::algebra::{
    lemma_rm_index, lemma_mul_le, lemma_rm_index_distinct, lemma_flat_div, lemma_rm_div,
    lemma_np2_ge, lemma_np2_min, lemma_np2_pow2, lemma_bounded_widen, lemma_quadrants_bounded,
    lemma_sum_bounded, lemma_diff_bounded, lemma_product_bounded, lemma_prod_split,
    lemma_strassen_quadrants, lemma_pad_product,
};
use rand::Rng;

verus! {

/// Largest side length the multiplication entry points accept; together
/// with the element bounds below it keeps every intermediate value of both
/// algorithms inside `i64`.
pub const MAX_SIZE: usize = 1024;

/// Largest element magnitude `strassen` accepts (2^20). Strassen's
/// recursion forms sums of sums of quadrants, so its intermediates outgrow
/// the inputs; this bound keeps them all inside `i64` for any admitted size.
pub const STRASSEN_MAX_ELEM: i64 = 1048576;

/// Largest element magnitude `multiply` accepts (2^26): a dot product of
/// `MAX_SIZE` products of two such elements still fits in `i64`.
pub const MULTIPLY_MAX_ELEM: i64 = 67108864;

/// Fixed-point resolution: an element counts this many steps per unit of
/// value, so `random` draws elements from `[0, FIXED_SCALE)`, standing for
/// values in `[0, 1)`.
pub const FIXED_SCALE: i64 = 1000000;

/// Rounding grain of `check`: elements are compared after rounding to the
/// nearest multiple of `CHECK_UNIT`, i.e. to three decimal digits of value
/// at the `FIXED_SCALE` resolution.
pub const CHECK_UNIT: i64 = 1000;

/// A square matrix: `size * size` elements in row-major order.
pub struct Matrix {
    matrix: Vec<i64>,
    size: usize,
}

impl Matrix {
    /// Side length.
    pub closed spec fn sz(self) -> nat {
        self.size as nat
    }

    /// The element in row `i`, column `j`, as a mathematical integer.
    pub closed spec fn at(self, i: int, j: int) -> int {
        self.matrix@[i * (self.size as int) + j] as int
    }

    /// The backing buffer holds exactly `size * size` elements.
    pub closed spec fn wf(self) -> bool {
        self.matrix@.len() == self.size * self.size
    }

    /// Every element has magnitude at most `b`.
    pub open spec fn bounded(self, b: int) -> bool {
        forall|i: int, j: int|
            0 <= i < self.sz() && 0 <= j < self.sz() ==> -b <= #[trigger] self.at(i, j) <= b
    }
}

/// The `k`-th term of the dot product of row `i` of `a` with column `j` of
/// `b`.
pub open spec fn mul_term(a: Matrix, b: Matrix, i: int, j: int) -> spec_fn(int) -> int {
    |k: int| a.at(i, k) * b.at(k, j)
}

/// Entry `(i, j)` of the mathematical product of `a` and `b`:
/// `sum over k in [0, a.sz()) of a[i][k] * b[k][j]`.
pub open spec fn prod_at(a: Matrix, b: Matrix, i: int, j: int) -> int {
    sum_upto(mul_term(a, b, i, j), a.sz())
}

/// `r` is the matrix product of `a` and `b`.
pub open spec fn is_product_of(r: Matrix, a: Matrix, b: Matrix) -> bool {
    &&& r.sz() == a.sz()
    &&& forall|i: int, j: int|
        0 <= i < r.sz() && 0 <= j < r.sz() ==> #[trigger] r.at(i, j) == prod_at(a, b, i, j)
}

/// `s` is the elementwise sum of `a` and `b`.
pub open spec fn is_sum_of(s: Matrix, a: Matrix, b: Matrix) -> bool {
    &&& s.sz() == a.sz()
    &&& forall|i: int, j: int|
        0 <= i < s.sz() && 0 <= j < s.sz() ==> #[trigger] s.at(i, j) == a.at(i, j) + b.at(i, j)
}

/// `d` is the elementwise difference of `a` and `b`.
pub open spec fn is_diff_of(d: Matrix, a: Matrix, b: Matrix) -> bool {
    &&& d.sz() == a.sz()
    &&& forall|i: int, j: int|
        0 <= i < d.sz() && 0 <= j < d.sz() ==> #[trigger] d.at(i, j) == a.at(i, j) - b.at(i, j)
}

/// `p` is `m` zero-padded to the next power-of-two side length: its
/// top-left block is `m` and everything else is zero.
pub open spec fn is_pad_of(p: Matrix, m: Matrix) -> bool {
    &&& p.sz() == np2(m.sz())
    &&& forall|i: int, j: int|
        0 <= i < p.sz() && 0 <= j < p.sz() ==> #[trigger] p.at(i, j) == (
            if i < m.sz() && j < m.sz() {
                m.at(i, j)
            } else {
                0
            })
}

/// `t` is the top-left `n` by `n` block of `m`.
pub open spec fn is_trim_of(t: Matrix, m: Matrix, n: nat) -> bool {
    &&& t.sz() == n
    &&& forall|i: int, j: int| 0 <= i < n && 0 <= j < n ==> #[trigger] t.at(i, j) == m.at(i, j)
}

/// `q1, q2, q3, q4` are the top-left, top-right, bottom-left and
/// bottom-right quadrants of `m`.
pub open spec fn are_quadrants_of(q1: Matrix, q2: Matrix, q3: Matrix, q4: Matrix, m: Matrix) -> bool {
    let h = m.sz() / 2;
    &&& q1.sz() == h
    &&& q2.sz() == h
    &&& q3.sz() == h
    &&& q4.sz() == h
    &&& forall|i: int, j: int|
        0 <= i < h && 0 <= j < h ==> #[trigger] q1.at(i, j) == m.at(i, j)
    &&& forall|i: int, j: int|
        0 <= i < h && 0 <= j < h ==> #[trigger] q2.at(i, j) == m.at(i, j + h)
    &&& forall|i: int, j: int|
        0 <= i < h && 0 <= j < h ==> #[trigger] q3.at(i, j) == m.at(i + h, j)
    &&& forall|i: int, j: int|
        0 <= i < h && 0 <= j < h ==> #[trigger] q4.at(i, j) == m.at(i + h, j + h)
}

/// `r` has twice the side length of the equal-sized `q1, q2, q3, q4` and
/// carries them as its top-left, top-right, bottom-left and bottom-right
/// quadrants.
pub open spec fn is_join_of(r: Matrix, q1: Matrix, q2: Matrix, q3: Matrix, q4: Matrix) -> bool {
    let h = q1.sz() as int;
    &&& r.sz() == 2 * h
    &&& forall|i: int, j: int|
        0 <= i < h && 0 <= j < h ==> #[trigger] q1.at(i, j) == r.at(i, j)
    &&& forall|i: int, j: int|
        0 <= i < h && 0 <= j < h ==> #[trigger] q2.at(i, j) == r.at(i, j + h)
    &&& forall|i: int, j: int|
        0 <= i < h && 0 <= j < h ==> #[trigger] q3.at(i, j) == r.at(i + h, j)
    &&& forall|i: int, j: int|
        0 <= i < h && 0 <= j < h ==> #[trigger] q4.at(i, j) == r.at(i + h, j + h)
}

/// `x` and `y` have the same side length and the same elements.
pub open spec fn same_matrix(x: Matrix, y: Matrix) -> bool {
    &&& x.sz() == y.sz()
    &&& forall|i: int, j: int|
        0 <= i < x.sz() && 0 <= j < x.sz() ==> #[trigger] x.at(i, j) == y.at(i, j)
}

/// `n` is a power of two.
pub open spec fn is_pow2(n: nat) -> bool
    decreases n,
{
    if n == 0 {
        false
    } else if n == 1 {
        true
    } else {
        n % 2 == 0 && is_pow2(n / 2)
    }
}

/// The least power of two that is at least `n` (and at least 1).
pub open spec fn np2(n: nat) -> nat
    decreases n,
{
    if n <= 1 {
        1
    } else {
        2 * np2(((n + 1) / 2) as nat)
    }
}

/// `x` rounded to the nearest multiple of `CHECK_UNIT`, counted in such
/// multiples, ties away from zero.
pub open spec fn round_to_unit(x: int) -> int {
    if x >= 0 {
        (x + CHECK_UNIT / 2) / (CHECK_UNIT as int)
    } else {
        -((-x + CHECK_UNIT / 2) / (CHECK_UNIT as int))
    }
}

/// What `check` decides: equal side lengths, and every pair of
/// corresponding elements equal after rounding to `CHECK_UNIT`.
pub open spec fn check_spec(a: Matrix, b: Matrix) -> bool {
    &&& a.sz() == b.sz()
    &&& forall|i: int, j: int|
        0 <= i < a.sz() && 0 <= j < a.sz() ==> round_to_unit(#[trigger] a.at(i, j))
            == round_to_unit(b.at(i, j))
}

impl Matrix {
    /// A `size` by `size` matrix of zeros.
    pub fn new(size: usize) -> (res: Matrix)
        requires
            size * size <= usize::MAX,
        ensures
            res.wf(),
            res.sz() == size,
            forall|i: int, j: int| 0 <= i < size && 0 <= j < size ==> #[trigger] res.at(i, j) == 0,
    {
        let n = size * size;
        let v: Vec<i64> = vec![0i64; n];
        let res = Matrix { matrix: v, size };
        proof {
            assert forall|i: int, j: int|
                0 <= i < size && 0 <= j < size implies #[trigger] res.at(i, j) == 0 by {
                lemma_rm_index(i, j, size as int);
                lemma_mul_le(i + 1, size as int, size as int);
            }
        }
        res
    }

    /// A `size` by `size` matrix whose elements are drawn uniformly from
    /// `[0, FIXED_SCALE)`, standing for values in `[0, 1)`.
    ///
    /// Relies on rand's `thread_rng`, `Rng::sample_iter` and
    /// `Uniform::from(low..high)`: an endless stream of independent values
    /// drawn uniformly from `[low, high)`. Each draw is random, so the
    /// contract states only the range and the shape of the result.
    #[verifier::external_body]
    pub fn random(size: usize) -> (res: Matrix)
        requires
            size <= MAX_SIZE,
        ensures
            res.wf(),
            res.sz() == size,
            forall|i: int, j: int|
                0 <= i < size && 0 <= j < size ==> 0 <= #[trigger] res.at(i, j) < FIXED_SCALE,
    {
        let dist = rand::distributions::Uniform::from(0i64..FIXED_SCALE);
        let v: Vec<i64> = rand::thread_rng().sample_iter(dist).take(size * size).collect();
        Matrix { matrix: v, size }
    }

    /// A matrix that uses `elements` verbatim as its row-major backing
    /// values; the caller guarantees the length is exactly `size * size`.
    pub fn from_vec(elements: Vec<i64>, size: usize) -> (res: Matrix)
        requires
            elements@.len() == size * size,
        ensures
            res.wf(),
            res.sz() == size,
            forall|i: int, j: int|
                0 <= i < size && 0 <= j < size ==> #[trigger] res.at(i, j) == elements@[i * size
                    + j],
    {
        Matrix { matrix: elements, size }
    }

    /// The element in row `i`, column `j`.
    pub fn get(&self, i: usize, j: usize) -> (r: i64)
        requires
            self.wf(),
            i < self.sz(),
            j < self.sz(),
        ensures
            r as int == self.at(i as int, j as int),
    {
        let len = self.matrix.len();
        proof {
            lemma_rm_index(i as int, j as int, self.size as int);
            lemma_mul_le(i as int + 1, self.size as int, self.size as int);
            assert(i * self.size + j < len);
        }
        self.matrix[i * self.size + j]
    }

    /// Replaces the element in row `i`, column `j` by `val`; every other
    /// element and the side length stay as they were.
    pub fn set(&mut self, i: usize, j: usize, val: i64)
        requires
            old(self).wf(),
            i < old(self).sz(),
            j < old(self).sz(),
        ensures
            final(self).wf(),
            final(self).sz() == old(self).sz(),
            final(self).at(i as int, j as int) == val,
            forall|r: int, c: int|
                0 <= r < old(self).sz() && 0 <= c < old(self).sz() && !(r == i && c == j)
                    ==> #[trigger] final(self).at(r, c) == old(self).at(r, c),
    {
        let len = self.matrix.len();
        proof {
            lemma_rm_index(i as int, j as int, self.size as int);
            lemma_mul_le(i as int + 1, self.size as int, self.size as int);
            assert(i * self.size + j < len);
        }
        let idx = i * self.size + j;
        self.matrix[idx] = val;
        proof {
            assert forall|r: int, c: int|
                0 <= r < old(self).sz() && 0 <= c < old(self).sz() && !(r == i && c == j) implies #[trigger] self.at(
                r,
                c,
            ) == old(self).at(r, c) by {
                lemma_rm_index(r, c, self.size as int);
                lemma_mul_le(r + 1, self.size as int, self.size as int);
                lemma_rm_index_distinct(r, c, i as int, j as int, self.size as int);
            }
        }
    }
    /// `self` zero-padded up to the next power-of-two side length: the
    /// top-left block is `self`, the rest is zero.
    pub fn pad(&self) -> (res: Matrix)
        requires
            self.wf(),
            self.sz() <= MAX_SIZE,
        ensures
            res.wf(),
            is_pad_of(res, *self),
    {
        let p = next_pow2(self.size);
        proof {
            lemma_np2_ge(self.size as nat);
            assert(p as int * p as int <= 1048576) by (nonlinear_arith)
                requires
                    0 <= p as int <= 1024,
            ;
        }
        let total = p * p;
        let mut v: Vec<i64> = Vec::new();
        let mut k: usize = 0;
        while k < total
            invariant
                self.wf(),
                self.sz() <= p,
                p as nat == np2(self.sz()),
                total == p * p,
                k <= total,
                v@.len() == k,
                forall|t: int|
                    0 <= t < k ==> #[trigger] v@[t] == (
                    if t / (p as int) < self.sz() && t % (p as int) < self.sz() {
                        self.at(t / (p as int), t % (p as int))
                    } else {
                        0
                    }),
            decreases total - k,
        {
            proof {
                lemma_flat_div(k as int, p as int);
            }
            let r = k / p;
            let c = k % p;
            if r < self.size && c < self.size {
                let e = self.get(r, c);
                v.push(e);
            } else {
                v.push(0i64);
            }
            k += 1;
        }
        let res = Matrix::from_vec(v, p);
        proof {
            assert forall|i: int, j: int|
                0 <= i < res.sz() && 0 <= j < res.sz() implies #[trigger] res.at(i, j) == (
            if i < self.sz() && j < self.sz() {
                self.at(i, j)
            } else {
                0
            }) by {
                lemma_rm_index(i, j, p as int);
                lemma_mul_le(i + 1, p as int, p as int);
                lemma_rm_div(i, j, p as int);
            }
        }
        res
    }

    /// The top-left `new_size` by `new_size` block of `self`.
    pub fn get_trimmed(&self, new_size: usize) -> (res: Matrix)
        requires
            self.wf(),
            new_size as nat <= self.sz(),
        ensures
            res.wf(),
            is_trim_of(res, *self, new_size as nat),
    {
        let buflen = self.matrix.len();
        proof {
            assert(new_size as int * new_size as int <= self.sz() * self.sz())
                by (nonlinear_arith)
                requires
                    0 <= new_size as int <= self.sz(),
            ;
        }
        let n = new_size;
        let total = n * n;
        let mut v: Vec<i64> = Vec::new();
        let mut k: usize = 0;
        while k < total
            invariant
                self.wf(),
                n as nat <= self.sz(),
                total == n * n,
                k <= total,
                v@.len() == k,
                forall|t: int|
                    0 <= t < k ==> #[trigger] v@[t] == self.at(t / (n as int), t % (n as int)),
            decreases total - k,
        {
            proof {
                lemma_flat_div(k as int, n as int);
            }
            let r = k / n;
            let c = k % n;
            let e = self.get(r, c);
            v.push(e);
            k += 1;
        }
        let res = Matrix::from_vec(v, n);
        proof {
            assert forall|i: int, j: int|
                0 <= i < n && 0 <= j < n implies #[trigger] res.at(i, j) == self.at(i, j) by {
                lemma_rm_index(i, j, n as int);
                lemma_mul_le(i + 1, n as int, n as int);
                lemma_rm_div(i, j, n as int);
            }
        }
        res
    }

    /// The four quadrants of `self`, each of half the side length, in the
    /// order top-left, top-right, bottom-left, bottom-right.
    pub fn get_submatrices(&self) -> (res: (Matrix, Matrix, Matrix, Matrix))
        requires
            self.wf(),
            self.sz() % 2 == 0,
        ensures
            res.0.wf(),
            res.1.wf(),
            res.2.wf(),
            res.3.wf(),
            are_quadrants_of(res.0, res.1, res.2, res.3, *self),
    {
        let h = self.size / 2;
        let buflen = self.matrix.len();
        proof {
            vstd::arithmetic::div_mod::lemma_fundamental_div_mod(self.size as int, 2);
            assert(2 * h == self.sz());
            assert(h as int * h as int <= self.sz() * self.sz()) by (nonlinear_arith)
                requires
                    0 <= h as int,
                    h as int <= self.sz(),
            ;
        }
        let total = h * h;
        let mut v1: Vec<i64> = Vec::new();
        let mut v2: Vec<i64> = Vec::new();
        let mut v3: Vec<i64> = Vec::new();
        let mut v4: Vec<i64> = Vec::new();
        let mut k: usize = 0;
        while k < total
            invariant
                self.wf(),
                2 * h == self.sz(),
                total == h * h,
                k <= total,
                v1@.len() == k,
                v2@.len() == k,
                v3@.len() == k,
                v4@.len() == k,
                forall|t: int|
                    0 <= t < k ==> #[trigger] v1@[t] == self.at(t / (h as int), t % (h as int)),
                forall|t: int|
                    0 <= t < k ==> #[trigger] v2@[t] == self.at(
                        t / (h as int),
                        t % (h as int) + h,
                    ),
                forall|t: int|
                    0 <= t < k ==> #[trigger] v3@[t] == self.at(
                        t / (h as int) + h,
                        t % (h as int),
                    ),
                forall|t: int|
                    0 <= t < k ==> #[trigger] v4@[t] == self.at(
                        t / (h as int) + h,
                        t % (h as int) + h,
                    ),
            decreases total - k,
        {
            proof {
                lemma_flat_div(k as int, h as int);
            }
            let r = k / h;
            let c = k % h;
            let e1 = self.get(r, c);
            let e2 = self.get(r, c + h);
            let e3 = self.get(r + h, c);
            let e4 = self.get(r + h, c + h);
            v1.push(e1);
            v2.push(e2);
            v3.push(e3);
            v4.push(e4);
            k += 1;
        }
        let q1 = Matrix::from_vec(v1, h);
        let q2 = Matrix::from_vec(v2, h);
        let q3 = Matrix::from_vec(v3, h);
        let q4 = Matrix::from_vec(v4, h);
        proof {
            assert forall|i: int, j: int| 0 <= i < h && 0 <= j < h implies #[trigger] q1.at(i, j)
                == self.at(i, j) by {
                lemma_rm_index(i, j, h as int);
                lemma_mul_le(i + 1, h as int, h as int);
                lemma_rm_div(i, j, h as int);
            }
            assert forall|i: int, j: int| 0 <= i < h && 0 <= j < h implies #[trigger] q2.at(i, j)
                == self.at(i, j + h) by {
                lemma_rm_index(i, j, h as int);
                lemma_mul_le(i + 1, h as int, h as int);
                lemma_rm_div(i, j, h as int);
            }
            assert forall|i: int, j: int| 0 <= i < h && 0 <= j < h implies #[trigger] q3.at(i, j)
                == self.at(i + h, j) by {
                lemma_rm_index(i, j, h as int);
                lemma_mul_le(i + 1, h as int, h as int);
                lemma_rm_div(i, j, h as int);
            }
            assert forall|i: int, j: int| 0 <= i < h && 0 <= j < h implies #[trigger] q4.at(i, j)
                == self.at(i + h, j + h) by {
                lemma_rm_index(i, j, h as int);
                lemma_mul_le(i + 1, h as int, h as int);
                lemma_rm_div(i, j, h as int);
            }
        }
        (q1, q2, q3, q4)
    }

    /// One matrix of double the side length carrying the equal-sized
    /// `c1, c2, c3, c4` as its top-left, top-right, bottom-left and
    /// bottom-right quadrants. Takes ownership of the four quadrants.
    pub fn from_submatrices(c1: Matrix, c2: Matrix, c3: Matrix, c4: Matrix) -> (res: Matrix)
        requires
            c1.wf(),
            c2.wf(),
            c3.wf(),
            c4.wf(),
            c2.sz() == c1.sz(),
            c3.sz() == c1.sz(),
            c4.sz() == c1.sz(),
            4 * c1.sz() * c1.sz() <= usize::MAX,
        ensures
            res.wf(),
            is_join_of(res, c1, c2, c3, c4),
    {
        let h = c1.size;
        proof {
            assert(2 * (h as int) <= usize::MAX && 2 * (h as int) * (2 * (h as int)) == 4 * (
            h as int) * (h as int)) by (nonlinear_arith)
                requires
                    0 <= h as int,
                    4 * (h as int) * (h as int) <= usize::MAX,
            ;
        }
        let size = 2 * h;
        let total = size * size;
        let mut v: Vec<i64> = Vec::new();
        let mut k: usize = 0;
        while k < total
            invariant
                c1.wf(),
                c2.wf(),
                c3.wf(),
                c4.wf(),
                c1.sz() == h,
                c2.sz() == h,
                c3.sz() == h,
                c4.sz() == h,
                size == 2 * h,
                total == size * size,
                k <= total,
                v@.len() == k,
                forall|t: int|
                    0 <= t < k ==> #[trigger] v@[t] == quad_val(
                        c1,
                        c2,
                        c3,
                        c4,
                        h as int,
                        t / (size as int),
                        t % (size as int),
                    ),
            decreases total - k,
        {
            proof {
                lemma_flat_div(k as int, size as int);
            }
            let r = k / size;
            let c = k % size;
            let e = if r < h {
                if c < h {
                    c1.get(r, c)
                } else {
                    c2.get(r, c - h)
                }
            } else {
                if c < h {
                    c3.get(r - h, c)
                } else {
                    c4.get(r - h, c - h)
                }
            };
            v.push(e);
            k += 1;
        }
        let res = Matrix::from_vec(v, size);
        proof {
            let hh = h as int;
            let ss = size as int;
            assert forall|i: int, j: int| 0 <= i < hh && 0 <= j < hh implies #[trigger] c1.at(i, j)
                == res.at(i, j) by {
                lemma_rm_index(i, j, ss);
                lemma_mul_le(i + 1, ss, ss);
                lemma_rm_div(i, j, ss);
            }
            assert forall|i: int, j: int| 0 <= i < hh && 0 <= j < hh implies #[trigger] c2.at(i, j)
                == res.at(i, j + hh) by {
                lemma_rm_index(i, j + hh, ss);
                lemma_mul_le(i + 1, ss, ss);
                lemma_rm_div(i, j + hh, ss);
            }
            assert forall|i: int, j: int| 0 <= i < hh && 0 <= j < hh implies #[trigger] c3.at(i, j)
                == res.at(i + hh, j) by {
                lemma_rm_index(i + hh, j, ss);
                lemma_mul_le(i + hh + 1, ss, ss);
                lemma_rm_div(i + hh, j, ss);
            }
            assert forall|i: int, j: int| 0 <= i < hh && 0 <= j < hh implies #[trigger] c4.at(i, j)
                == res.at(i + hh, j + hh) by {
                lemma_rm_index(i + hh, j + hh, ss);
                lemma_mul_le(i + hh + 1, ss, ss);
                lemma_rm_div(i + hh, j + hh, ss);
            }
        }
        res
    }
}

/// Which quadrant element a row-major position of the joined matrix reads.
spec fn quad_val(q1: Matrix, q2: Matrix, q3: Matrix, q4: Matrix, h: int, r: int, c: int) -> int {
    if r < h {
        if c < h {
            q1.at(r, c)
        } else {
            q2.at(r, c - h)
        }
    } else {
        if c < h {
            q3.at(r - h, c)
        } else {
            q4.at(r - h, c - h)
        }
    }
}

/// The least power of two at or above `n`, computed as `np2` states it.
fn next_pow2(n: usize) -> (r: usize)
    requires
        n <= MAX_SIZE,
    ensures
        r as nat == np2(n as nat),
        r <= MAX_SIZE,
    decreases n,
{
    if n <= 1 {
        1
    } else {
        let half = (n + 1) / 2;
        let sub = next_pow2(half);
        proof {
            reveal_with_fuel(is_pow2, 11);
            assert(is_pow2(512nat));
            lemma_np2_min(half as nat, 512nat);
        }
        2 * sub
    }
}

/// The classical cubic multiplication: entry `(i, j)` of the result is the
/// dot product of row `i` of `m1` with column `j` of `m2`.
pub fn multiply(m1: &Matrix, m2: &Matrix) -> (res: Matrix)
    requires
        m1.wf(),
        m2.wf(),
        m1.sz() == m2.sz(),
        m1.sz() <= MAX_SIZE,
        m1.bounded(MULTIPLY_MAX_ELEM as int),
        m2.bounded(MULTIPLY_MAX_ELEM as int),
    ensures
        res.wf(),
        is_product_of(res, *m1, *m2),
{
    let n = m1.size;
    let ghost lim2: int = MULTIPLY_MAX_ELEM as int * MULTIPLY_MAX_ELEM as int;
    proof {
        assert(n as int * n as int <= 1048576 && lim2 == 0x10000000000000 && n as int * lim2
            <= 0x4000000000000000) by (nonlinear_arith)
            requires
                0 <= n as int <= 1024,
                lim2 == MULTIPLY_MAX_ELEM as int * MULTIPLY_MAX_ELEM as int,
        ;
    }
    let total = n * n;
    let mut v: Vec<i64> = Vec::new();
    let mut i: usize = 0;
    while i < n
        invariant
            m1.wf(),
            m2.wf(),
            m1.sz() == n,
            m2.sz() == n,
            m1.bounded(MULTIPLY_MAX_ELEM as int),
            m2.bounded(MULTIPLY_MAX_ELEM as int),
            lim2 == MULTIPLY_MAX_ELEM as int * MULTIPLY_MAX_ELEM as int,
            n as int * lim2 <= 0x4000000000000000,
            i <= n,
            v@.len() == i * n,
            forall|t: int|
                0 <= t < v@.len() ==> #[trigger] v@[t] as int == prod_at(
                    *m1,
                    *m2,
                    t / (n as int),
                    t % (n as int),
                ),
        decreases n - i,
    {
        let mut j: usize = 0;
        while j < n
            invariant
                m1.wf(),
                m2.wf(),
                m1.sz() == n,
                m2.sz() == n,
                m1.bounded(MULTIPLY_MAX_ELEM as int),
                m2.bounded(MULTIPLY_MAX_ELEM as int),
                lim2 == MULTIPLY_MAX_ELEM as int * MULTIPLY_MAX_ELEM as int,
                n as int * lim2 <= 0x4000000000000000,
                i < n,
                j <= n,
                v@.len() == i * n + j,
                forall|t: int|
                    0 <= t < v@.len() ==> #[trigger] v@[t] as int == prod_at(
                        *m1,
                        *m2,
                        t / (n as int),
                        t % (n as int),
                    ),
            decreases n - j,
        {
            let mut s: i64 = 0;
            let mut k: usize = 0;
            while k < n
                invariant
                    m1.wf(),
                    m2.wf(),
                    m1.sz() == n,
                    m2.sz() == n,
                    m1.bounded(MULTIPLY_MAX_ELEM as int),
                    m2.bounded(MULTIPLY_MAX_ELEM as int),
                    lim2 == MULTIPLY_MAX_ELEM as int * MULTIPLY_MAX_ELEM as int,
                    n as int * lim2 <= 0x4000000000000000,
                    i < n,
                    j < n,
                    k <= n,
                    s as int == sum_upto(mul_term(*m1, *m2, i as int, j as int), k as nat),
                    -(k as int * lim2) <= s as int <= k as int * lim2,
                decreases n - k,
            {
                let e1 = m1.get(i, k);
                let e2 = m2.get(k, j);
                proof {
                    assert(-lim2 <= e1 as int * e2 as int <= lim2) by (nonlinear_arith)
                        requires
                            -MULTIPLY_MAX_ELEM as int <= e1 as int <= MULTIPLY_MAX_ELEM as int,
                            -MULTIPLY_MAX_ELEM as int <= e2 as int <= MULTIPLY_MAX_ELEM as int,
                            lim2 == MULTIPLY_MAX_ELEM as int * MULTIPLY_MAX_ELEM as int,
                    ;
                    lemma_mul_le(k as int + 1, n as int, lim2);
                    assert((k as int + 1) * lim2 == k as int * lim2 + lim2) by (nonlinear_arith);
                }
                s = s + e1 * e2;
                k += 1;
            }
            proof {
                lemma_rm_index(i as int, j as int, n as int);
                lemma_rm_div(i as int, j as int, n as int);
            }
            v.push(s);
            j += 1;
        }
        proof {
            assert((i as int + 1) * n as int == i as int * n as int + n as int)
                by (nonlinear_arith);
        }
        i += 1;
    }
    let res = Matrix::from_vec(v, n);
    proof {
        assert forall|i: int, j: int| 0 <= i < n && 0 <= j < n implies #[trigger] res.at(i, j)
            == prod_at(*m1, *m2, i, j) by {
            lemma_rm_index(i, j, n as int);
            lemma_mul_le(i + 1, n as int, n as int);
            lemma_rm_div(i, j, n as int);
        }
    }
    res
}

/// Strassen multiplication: pads both operands to the next power-of-two
/// side length, runs the recursive seven-product scheme, and trims the
/// result back; a side length below 2 is answered directly, as padding
/// cannot raise it to the recursive core's base case.
#[verifier::rlimit(60)]
pub fn strassen(matrix_a: &Matrix, matrix_b: &Matrix) -> (res: Matrix)
    requires
        matrix_a.wf(),
        matrix_b.wf(),
        matrix_a.sz() == matrix_b.sz(),
        matrix_a.sz() <= MAX_SIZE,
        matrix_a.bounded(STRASSEN_MAX_ELEM as int),
        matrix_b.bounded(STRASSEN_MAX_ELEM as int),
    ensures
        res.wf(),
        is_product_of(res, *matrix_a, *matrix_b),
{
    let size = matrix_a.size;
    if size == 0 {
        return Matrix::new(0);
    }
    if size == 1 {
        let ea = matrix_a.get(0, 0);
        let eb = matrix_b.get(0, 0);
        proof {
            assert(-0x10000000000 <= ea as int * eb as int <= 0x10000000000) by (nonlinear_arith)
                requires
                    -1048576 <= ea as int <= 1048576,
                    -1048576 <= eb as int <= 1048576,
            ;
        }
        let v = ea * eb;
        assert(1 * 1 <= usize::MAX);
        let mut res = Matrix::new(size);
        res.set(0, 0, v);
        proof {
            let f = mul_term(*matrix_a, *matrix_b, 0, 0);
            assert(sum_upto(f, 1) == sum_upto(f, 0) + f(0));
            assert(res.at(0, 0) == prod_at(*matrix_a, *matrix_b, 0, 0));
        }
        return res;
    }
    let m1 = matrix_a.pad();
    let m2 = matrix_b.pad();
    proof {
        lemma_np2_ge(size as nat);
        lemma_np2_pow2(size as nat);
        reveal_with_fuel(is_pow2, 12);
        assert(is_pow2(1024nat));
        lemma_np2_min(size as nat, 1024nat);
        let lim: int = STRASSEN_MAX_ELEM as int;
        assert forall|i: int, j: int|
            0 <= i < m1.sz() && 0 <= j < m1.sz() implies -lim <= #[trigger] m1.at(i, j)
            <= lim by {
            if i < matrix_a.sz() && j < matrix_a.sz() {
                assert(m1.at(i, j) == matrix_a.at(i, j));
            } else {
                assert(m1.at(i, j) == 0);
            }
        }
        assert forall|i: int, j: int|
            0 <= i < m2.sz() && 0 <= j < m2.sz() implies -lim <= #[trigger] m2.at(i, j)
            <= lim by {
            if i < matrix_b.sz() && j < matrix_b.sz() {
                assert(m2.at(i, j) == matrix_b.at(i, j));
            } else {
                assert(m2.at(i, j) == 0);
            }
        }
        assert(4 * (m1.sz() as int) * (m1.sz() as int) * lim * lim <= i64::MAX)
            by (nonlinear_arith)
            requires
                0 <= m1.sz() as int <= 1024,
                lim == 1048576,
        ;
    }
    let res_untrimmed = strassen_mult(&m1, &m2, Ghost(STRASSEN_MAX_ELEM as int));
    let res = res_untrimmed.get_trimmed(size);
    proof {
        assert forall|i: int, j: int|
            0 <= i < size && 0 <= j < size implies #[trigger] res.at(i, j) == prod_at(
            *matrix_a,
            *matrix_b,
            i,
            j,
        ) by {
            assert(res.at(i, j) == res_untrimmed.at(i, j));
            assert(res_untrimmed.at(i, j) == prod_at(m1, m2, i, j));
            lemma_pad_product(m1, m2, *matrix_a, *matrix_b, i, j);
        }
    }
    res
}

/// Strassen's recursive core, on operands of one power-of-two side length
/// of at least 2. The ghost bound `lim` dominates every operand element;
/// the budget `4 * sz * sz * lim * lim <= i64::MAX` is invariant down the
/// recursion (the size halves, the bound doubles) and keeps every
/// intermediate value within `i64`.
#[verifier::rlimit(80)]
fn strassen_mult(a: &Matrix, b: &Matrix, Ghost(lim): Ghost<int>) -> (res: Matrix)
    requires
        a.wf(),
        b.wf(),
        a.sz() == b.sz(),
        is_pow2(a.sz()),
        a.sz() >= 2,
        0 <= lim,
        a.bounded(lim),
        b.bounded(lim),
        4 * a.sz() * a.sz() * lim * lim <= i64::MAX,
    ensures
        res.wf(),
        is_product_of(res, *a, *b),
    decreases a.sz(),
{
    if a.size == 2 {
        let base_len = a.matrix.len();
        assert(a.size * a.size <= usize::MAX);
        let a1 = a.get(0, 0);
        let a2 = a.get(0, 1);
        let a3 = a.get(1, 0);
        let a4 = a.get(1, 1);
        let b1 = b.get(0, 0);
        let b2 = b.get(0, 1);
        let b3 = b.get(1, 0);
        let b4 = b.get(1, 1);
        proof {
            assert(2 * lim <= i64::MAX && 0 <= lim * lim && 4 * (lim * lim) <= i64::MAX && 16 * (
            lim * lim) <= i64::MAX) by (nonlinear_arith)
                requires
                    0 <= lim,
                    a.sz() == 2,
                    4 * a.sz() * a.sz() * lim * lim <= i64::MAX,
            ;
            assert(-(4 * (lim * lim)) <= (a1 as int + a4 as int) * (b1 as int + b4 as int) <= 4 * (
            lim * lim) && -(4 * (lim * lim)) <= (a3 as int + a4 as int) * b1 as int <= 4 * (lim
                * lim) && -(4 * (lim * lim)) <= a1 as int * (b2 as int - b4 as int) <= 4 * (lim
                * lim) && -(4 * (lim * lim)) <= a4 as int * (b3 as int - b1 as int) <= 4 * (lim
                * lim) && -(4 * (lim * lim)) <= (a1 as int + a2 as int) * b4 as int <= 4 * (lim
                * lim) && -(4 * (lim * lim)) <= (a3 as int - a1 as int) * (b1 as int + b2 as int)
                <= 4 * (lim * lim) && -(4 * (lim * lim)) <= (a2 as int - a4 as int) * (b3 as int
                + b4 as int) <= 4 * (lim * lim)) by (nonlinear_arith)
                requires
                    0 <= lim,
                    -lim <= a1 as int <= lim,
                    -lim <= a2 as int <= lim,
                    -lim <= a3 as int <= lim,
                    -lim <= a4 as int <= lim,
                    -lim <= b1 as int <= lim,
                    -lim <= b2 as int <= lim,
                    -lim <= b3 as int <= lim,
                    -lim <= b4 as int <= lim,
            ;
        }
        let p1 = (a1 + a4) * (b1 + b4);
        let p2 = (a3 + a4) * b1;
        let p3 = a1 * (b2 - b4);
        let p4 = a4 * (b3 - b1);
        let p5 = (a1 + a2) * b4;
        let p6 = (a3 - a1) * (b1 + b2);
        let p7 = (a2 - a4) * (b3 + b4);
        let c11 = p1 + p4 - p5 + p7;
        let c12 = p3 + p5;
        let c21 = p2 + p4;
        let c22 = p1 - p2 + p3 + p6;
        let mut res = Matrix::new(a.size);
        res.set(0, 0, c11);
        res.set(0, 1, c12);
        res.set(1, 0, c21);
        res.set(1, 1, c22);
        proof {
            assert(c11 as int == a1 as int * b1 as int + a2 as int * b3 as int)
                by (nonlinear_arith)
                requires
                    c11 as int == (a1 as int + a4 as int) * (b1 as int + b4 as int) + a4 as int * (
                    b3 as int - b1 as int) - (a1 as int + a2 as int) * b4 as int + (a2 as int
                        - a4 as int) * (b3 as int + b4 as int),
            ;
            assert(c12 as int == a1 as int * b2 as int + a2 as int * b4 as int)
                by (nonlinear_arith)
                requires
                    c12 as int == a1 as int * (b2 as int - b4 as int) + (a1 as int + a2 as int)
                        * b4 as int,
            ;
            assert(c21 as int == a3 as int * b1 as int + a4 as int * b3 as int)
                by (nonlinear_arith)
                requires
                    c21 as int == (a3 as int + a4 as int) * b1 as int + a4 as int * (b3 as int
                        - b1 as int),
            ;
            assert(c22 as int == a3 as int * b2 as int + a4 as int * b4 as int)
                by (nonlinear_arith)
                requires
                    c22 as int == (a1 as int + a4 as int) * (b1 as int + b4 as int) - (a3 as int
                        + a4 as int) * b1 as int + a1 as int * (b2 as int - b4 as int) + (a3 as int
                        - a1 as int) * (b1 as int + b2 as int),
            ;
            assert forall|i: int, j: int|
                0 <= i < 2 && 0 <= j < 2 implies #[trigger] res.at(i, j) == prod_at(
                *a,
                *b,
                i,
                j,
            ) by {
                let f = mul_term(*a, *b, i, j);
                assert(sum_upto(f, 2) == sum_upto(f, 1) + f(1));
                assert(sum_upto(f, 1) == sum_upto(f, 0) + f(0));
                assert(prod_at(*a, *b, i, j) == a.at(i, 0) * b.at(0, j) + a.at(i, 1) * b.at(1, j));
            }
        }
        return res;
    }
    let h = a.size / 2;
    let buflen = a.matrix.len();
    let (qa1, qa2, qa3, qa4) = a.get_submatrices();
    let (qb1, qb2, qb3, qb4) = b.get_submatrices();
    let ghost s = a.sz() as int;
    let ghost hh = h as int;
    proof {
        vstd::arithmetic::div_mod::lemma_fundamental_div_mod(s, 2);
        assert(s == 2 * hh);
        assert(s == a.sz() && 4 * a.sz() * a.sz() * lim * lim == 4 * s * s * lim * lim);
        assert(2 * lim <= i64::MAX && 4 * hh * hh * (2 * lim) * (2 * lim) == 4 * s * s * lim * lim
            && 8 * (hh * ((2 * lim) * (2 * lim))) <= i64::MAX) by (nonlinear_arith)
            requires
                0 <= lim,
                s == 2 * hh,
                2 <= hh,
                4 <= s,
                4 * s * s * lim * lim <= i64::MAX,
        ;
        lemma_quadrants_bounded(qa1, qa2, qa3, qa4, *a, lim);
        lemma_quadrants_bounded(qb1, qb2, qb3, qb4, *b, lim);
    }
    let sa14 = crate::matrix::add(&qa1, &qa4);
    let sb14 = crate::matrix::add(&qb1, &qb4);
    let sa34 = crate::matrix::add(&qa3, &qa4);
    let db24 = crate::matrix::subtract(&qb2, &qb4);
    let db31 = crate::matrix::subtract(&qb3, &qb1);
    let sa12 = crate::matrix::add(&qa1, &qa2);
    let da31 = crate::matrix::subtract(&qa3, &qa1);
    let sb12 = crate::matrix::add(&qb1, &qb2);
    let da24 = crate::matrix::subtract(&qa2, &qa4);
    let sb34 = crate::matrix::add(&qb3, &qb4);
    proof {
        lemma_sum_bounded(sa14, qa1, qa4, lim);
        lemma_sum_bounded(sb14, qb1, qb4, lim);
        lemma_sum_bounded(sa34, qa3, qa4, lim);
        lemma_diff_bounded(db24, qb2, qb4, lim);
        lemma_diff_bounded(db31, qb3, qb1, lim);
        lemma_sum_bounded(sa12, qa1, qa2, lim);
        lemma_diff_bounded(da31, qa3, qa1, lim);
        lemma_sum_bounded(sb12, qb1, qb2, lim);
        lemma_diff_bounded(da24, qa2, qa4, lim);
        lemma_sum_bounded(sb34, qb3, qb4, lim);
        lemma_bounded_widen(qb1, lim, 2 * lim);
        lemma_bounded_widen(qb4, lim, 2 * lim);
        lemma_bounded_widen(qa1, lim, 2 * lim);
        lemma_bounded_widen(qa4, lim, 2 * lim);
    }
    let m1 = strassen_mult(&sa14, &sb14, Ghost(2 * lim));
    let m2 = strassen_mult(&sa34, &qb1, Ghost(2 * lim));
    let m3 = strassen_mult(&qa1, &db24, Ghost(2 * lim));
    let m4 = strassen_mult(&qa4, &db31, Ghost(2 * lim));
    let m5 = strassen_mult(&sa12, &qb4, Ghost(2 * lim));
    let m6 = strassen_mult(&da31, &sb12, Ghost(2 * lim));
    let m7 = strassen_mult(&da24, &sb34, Ghost(2 * lim));
    let ghost bm: int = hh * ((2 * lim) * (2 * lim));
    proof {
        lemma_product_bounded(m1, sa14, sb14, 2 * lim);
        lemma_product_bounded(m2, sa34, qb1, 2 * lim);
        lemma_product_bounded(m3, qa1, db24, 2 * lim);
        lemma_product_bounded(m4, qa4, db31, 2 * lim);
        lemma_product_bounded(m5, sa12, qb4, 2 * lim);
        lemma_product_bounded(m6, da31, sb12, 2 * lim);
        lemma_product_bounded(m7, da24, sb34, 2 * lim);
        assert(0 <= bm) by (nonlinear_arith)
            requires
                bm == hh * ((2 * lim) * (2 * lim)),
                0 <= hh,
                0 <= lim,
        ;
        lemma_bounded_widen(m1, bm, 4 * bm);
        lemma_bounded_widen(m2, bm, 4 * bm);
        lemma_bounded_widen(m3, bm, 4 * bm);
        lemma_bounded_widen(m4, bm, 4 * bm);
        lemma_bounded_widen(m5, bm, 4 * bm);
        lemma_bounded_widen(m6, bm, 4 * bm);
        lemma_bounded_widen(m7, bm, 4 * bm);
    }
    let u1 = crate::matrix::add(&m1, &m4);
    let w1 = crate::matrix::subtract(&u1, &m5);
    let c1 = crate::matrix::add(&w1, &m7);
    let c2 = crate::matrix::add(&m3, &m5);
    let c3 = crate::matrix::add(&m2, &m4);
    let u4 = crate::matrix::subtract(&m1, &m2);
    let w4 = crate::matrix::add(&u4, &m3);
    let c4 = crate::matrix::add(&w4, &m6);
    proof {
        lemma_sum_bounded(u1, m1, m4, bm);
        lemma_diff_bounded(w1, u1, m5, 2 * bm);
        lemma_bounded_widen(u1, 2 * bm, 4 * bm);
        lemma_bounded_widen(m5, bm, 2 * bm);
        lemma_diff_bounded(u4, m1, m2, bm);
        lemma_sum_bounded(w4, u4, m3, 2 * bm);
        lemma_bounded_widen(m3, bm, 2 * bm);
        assert(buflen == s * s);
        assert(4 * (hh as int) * (hh as int) <= usize::MAX) by (nonlinear_arith)
            requires
                s == 2 * hh,
                0 <= hh,
                s * s <= usize::MAX,
        ;
    }
    let res = Matrix::from_submatrices(c1, c2, c3, c4);
    proof {
        assert forall|i: int, j: int|
            0 <= i < a.sz() && 0 <= j < a.sz() implies #[trigger] res.at(i, j) == prod_at(
            *a,
            *b,
            i,
            j,
        ) by {
            lemma_prod_split(*a, *b, qa1, qa2, qa3, qa4, qb1, qb2, qb3, qb4, i, j);
            if i < hh && j < hh {
                lemma_strassen_quadrants(
                    qa1, qa2, qa3, qa4, qb1, qb2, qb3, qb4,
                    sa14, sb14, sa34, db24, db31, sa12, da31, sb12, da24, sb34,
                    m1, m2, m3, m4, m5, m6, m7,
                    i, j,
                );
                assert(c1.at(i, j) == res.at(i, j));
                assert(c1.at(i, j) == w1.at(i, j) + m7.at(i, j));
                assert(w1.at(i, j) == u1.at(i, j) - m5.at(i, j));
                assert(u1.at(i, j) == m1.at(i, j) + m4.at(i, j));
            } else if i < hh {
                lemma_strassen_quadrants(
                    qa1, qa2, qa3, qa4, qb1, qb2, qb3, qb4,
                    sa14, sb14, sa34, db24, db31, sa12, da31, sb12, da24, sb34,
                    m1, m2, m3, m4, m5, m6, m7,
                    i, j - hh,
                );
                assert(c2.at(i, j - hh) == res.at(i, j));
                assert(c2.at(i, j - hh) == m3.at(i, j - hh) + m5.at(i, j - hh));
            } else if j < hh {
                lemma_strassen_quadrants(
                    qa1, qa2, qa3, qa4, qb1, qb2, qb3, qb4,
                    sa14, sb14, sa34, db24, db31, sa12, da31, sb12, da24, sb34,
                    m1, m2, m3, m4, m5, m6, m7,
                    i - hh, j,
                );
                assert(c3.at(i - hh, j) == res.at(i, j));
                assert(c3.at(i - hh, j) == m2.at(i - hh, j) + m4.at(i - hh, j));
            } else {
                lemma_strassen_quadrants(
                    qa1, qa2, qa3, qa4, qb1, qb2, qb3, qb4,
                    sa14, sb14, sa34, db24, db31, sa12, da31, sb12, da24, sb34,
                    m1, m2, m3, m4, m5, m6, m7,
                    i - hh, j - hh,
                );
                assert(c4.at(i - hh, j - hh) == res.at(i, j));
                assert(c4.at(i - hh, j - hh) == w4.at(i - hh, j - hh) + m6.at(i - hh, j - hh));
                assert(w4.at(i - hh, j - hh) == u4.at(i - hh, j - hh) + m3.at(i - hh, j - hh));
                assert(u4.at(i - hh, j - hh) == m1.at(i - hh, j - hh) - m2.at(i - hh, j - hh));
            }
        }
    }
    res
}

/// `x` rounded to the nearest multiple of `CHECK_UNIT`, counted in such
/// multiples, ties away from zero.
fn round_element(x: i64) -> (r: i64)
    ensures
        r as int == round_to_unit(x as int),
{
    let unit: u64 = 1000;
    let half: u64 = 500;
    if x >= 0 {
        let q = ((x as u64) + half) / unit;
        proof {
            assert(q <= x as u64 + half);
        }
        q as i64
    } else {
        let mag = -(x as i128);
        let magu = mag as u64;
        let q = (magu + half) / unit;
        proof {
            assert(q <= magu + half);
        }
        -(q as i64)
    }
}

/// Whether `matrix_a` and `matrix_b` have the same side length and every
/// pair of corresponding elements equal after rounding to `CHECK_UNIT`; a
/// size mismatch alone already decides the answer.
pub fn check(matrix_a: &Matrix, matrix_b: &Matrix) -> (r: bool)
    requires
        matrix_a.wf(),
        matrix_b.wf(),
    ensures
        r == check_spec(*matrix_a, *matrix_b),
{
    if matrix_a.size != matrix_b.size {
        return false;
    }
    let n = matrix_a.size;
    let mut i: usize = 0;
    while i < n
        invariant
            matrix_a.wf(),
            matrix_b.wf(),
            matrix_a.sz() == n,
            matrix_b.sz() == n,
            i <= n,
            forall|r_: int, c_: int|
                0 <= r_ < i && 0 <= c_ < n ==> round_to_unit(#[trigger] matrix_a.at(r_, c_))
                    == round_to_unit(matrix_b.at(r_, c_)),
        decreases n - i,
    {
        let mut j: usize = 0;
        while j < n
            invariant
                matrix_a.wf(),
                matrix_b.wf(),
                matrix_a.sz() == n,
                matrix_b.sz() == n,
                i < n,
                j <= n,
                forall|r_: int, c_: int|
                    0 <= r_ < i && 0 <= c_ < n ==> round_to_unit(#[trigger] matrix_a.at(r_, c_))
                        == round_to_unit(matrix_b.at(r_, c_)),
                forall|c_: int|
                    0 <= c_ < j ==> round_to_unit(#[trigger] matrix_a.at(i as int, c_))
                        == round_to_unit(matrix_b.at(i as int, c_)),
            decreases n - j,
        {
            let ea = matrix_a.get(i, j);
            let eb = matrix_b.get(i, j);
            if round_element(ea) != round_element(eb) {
                return false;
            }
            j += 1;
        }
        i += 1;
    }
    true
}

/// The elementwise sum of two equal-sized matrices.
pub fn add(m1: &Matrix, m2: &Matrix) -> (res: Matrix)
    requires
        m1.wf(),
        m2.wf(),
        m1.sz() == m2.sz(),
        forall|i: int, j: int|
            0 <= i < m1.sz() && 0 <= j < m1.sz() ==> i64::MIN <= #[trigger] m1.at(i, j) + m2.at(
                i,
                j,
            ) <= i64::MAX,
    ensures
        res.wf(),
        is_sum_of(res, *m1, *m2),
{
    let n = m1.size;
    let total = m1.matrix.len();
    let mut v: Vec<i64> = Vec::new();
    let mut k: usize = 0;
    while k < total
        invariant
            m1.wf(),
            m2.wf(),
            m1.sz() == n,
            m2.sz() == n,
            total == n * n,
            k <= total,
            v@.len() == k,
            forall|i: int, j: int|
                0 <= i < n && 0 <= j < n ==> i64::MIN <= #[trigger] m1.at(i, j) + m2.at(i, j)
                    <= i64::MAX,
            forall|t: int|
                0 <= t < k ==> #[trigger] v@[t] as int == m1.at(t / (n as int), t % (n as int))
                    + m2.at(t / (n as int), t % (n as int)),
        decreases total - k,
    {
        proof {
            assert(0 < n) by (nonlinear_arith)
                requires
                    0 <= k as int,
                    (k as int) < (n as int) * (n as int),
            ;
            lemma_flat_div(k as int, n as int);
        }
        let r = k / n;
        let c = k % n;
        let e = m1.get(r, c) + m2.get(r, c);
        v.push(e);
        k += 1;
    }
    let res = Matrix::from_vec(v, n);
    proof {
        assert forall|i: int, j: int| 0 <= i < n && 0 <= j < n implies #[trigger] res.at(i, j)
            == m1.at(i, j) + m2.at(i, j) by {
            lemma_rm_index(i, j, n as int);
            lemma_mul_le(i + 1, n as int, n as int);
            lemma_rm_div(i, j, n as int);
        }
    }
    res
}

/// The elementwise difference of two equal-sized matrices.
pub fn subtract(m1: &Matrix, m2: &Matrix) -> (res: Matrix)
    requires
        m1.wf(),
        m2.wf(),
        m1.sz() == m2.sz(),
        forall|i: int, j: int|
            0 <= i < m1.sz() && 0 <= j < m1.sz() ==> i64::MIN <= #[trigger] m1.at(i, j) - m2.at(
                i,
                j,
            ) <= i64::MAX,
    ensures
        res.wf(),
        is_diff_of(res, *m1, *m2),
{
    let n = m1.size;
    let total = m1.matrix.len();
    let mut v: Vec<i64> = Vec::new();
    let mut k: usize = 0;
    while k < total
        invariant
            m1.wf(),
            m2.wf(),
            m1.sz() == n,
            m2.sz() == n,
            total == n * n,
            k <= total,
            v@.len() == k,
            forall|i: int, j: int|
                0 <= i < n && 0 <= j < n ==> i64::MIN <= #[trigger] m1.at(i, j) - m2.at(i, j)
                    <= i64::MAX,
            forall|t: int|
                0 <= t < k ==> #[trigger] v@[t] as int == m1.at(t / (n as int), t % (n as int))
                    - m2.at(t / (n as int), t % (n as int)),
        decreases total - k,
    {
        proof {
            assert(0 < n) by (nonlinear_arith)
                requires
                    0 <= k as int,
                    (k as int) < (n as int) * (n as int),
            ;
            lemma_flat_div(k as int, n as int);
        }
        let r = k / n;
        let c = k % n;
        let e = m1.get(r, c) - m2.get(r, c);
        v.push(e);
        k += 1;
    }
    let res = Matrix::from_vec(v, n);
    proof {
        assert forall|i: int, j: int| 0 <= i < n && 0 <= j < n implies #[trigger] res.at(i, j)
            == m1.at(i, j) - m2.at(i, j) by {
            lemma_rm_index(i, j, n as int);
            lemma_mul_le(i + 1, n as int, n as int);
            lemma_rm_div(i, j, n as int);
        }
    }
    res
}

} // verus!
