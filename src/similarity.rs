//! Cosine similarity over term-count vectors, kept exact: a similarity is
//! held as its dot product and squared norms, and two similarities are
//! compared by cross-multiplying their squared cosines.

use vstd::prelude::*;

verus! {

/// `2^64`.
pub const HALF_BASE: u128 = 0x1_0000_0000_0000_0000;

/// Multiplies two 128-bit values into a (high, low) pair of 128-bit words.
pub fn mul_wide(x: u128, y: u128) -> (r: (u128, u128))
    ensures
        r.0 * 0x1_0000_0000_0000_0000_0000_0000_0000_0000int + r.1 == x * y,
{
    let x1 = x / HALF_BASE;
    let x0 = x % HALF_BASE;
    let y1 = y / HALF_BASE;
    let y0 = y % HALF_BASE;
    assert(x0 * y0 < 0x1_0000_0000_0000_0000_0000_0000_0000_0000int) by (nonlinear_arith)
        requires
            x0 < 0x1_0000_0000_0000_0000int,
            y0 < 0x1_0000_0000_0000_0000int,
    ;
    assert(x0 * y1 < 0x1_0000_0000_0000_0000_0000_0000_0000_0000int) by (nonlinear_arith)
        requires
            x0 < 0x1_0000_0000_0000_0000int,
            y1 < 0x1_0000_0000_0000_0000int,
    ;
    assert(x1 * y0 < 0x1_0000_0000_0000_0000_0000_0000_0000_0000int) by (nonlinear_arith)
        requires
            x1 < 0x1_0000_0000_0000_0000int,
            y0 < 0x1_0000_0000_0000_0000int,
    ;
    assert(x1 * y1 < 0x1_0000_0000_0000_0000_0000_0000_0000_0000int) by (nonlinear_arith)
        requires
            x1 < 0x1_0000_0000_0000_0000int,
            y1 < 0x1_0000_0000_0000_0000int,
    ;
    let p00 = x0 * y0;
    let p01 = x0 * y1;
    let p10 = x1 * y0;
    let p11 = x1 * y1;
    let mid = p00 / HALF_BASE + p01 % HALF_BASE + p10 % HALF_BASE;
    let lo = p00 % HALF_BASE + (mid % HALF_BASE) * HALF_BASE;
    let ghost hi_int: int = p11 + p01 / HALF_BASE + p10 / HALF_BASE + mid / HALF_BASE;
    assert(x * y == p11 * 0x1_0000_0000_0000_0000_0000_0000_0000_0000int + (p01 + p10)
        * 0x1_0000_0000_0000_0000int + p00) by (nonlinear_arith)
        requires
            x == x1 * 0x1_0000_0000_0000_0000int + x0,
            y == y1 * 0x1_0000_0000_0000_0000int + y0,
            p00 == x0 * y0,
            p01 == x0 * y1,
            p10 == x1 * y0,
            p11 == x1 * y1,
    ;
    assert(hi_int * 0x1_0000_0000_0000_0000_0000_0000_0000_0000int + lo == x * y);
    assert(x * y < 0x1_0000_0000_0000_0000_0000_0000_0000_0000int
        * 0x1_0000_0000_0000_0000_0000_0000_0000_0000int) by (nonlinear_arith)
        requires
            x < 0x1_0000_0000_0000_0000_0000_0000_0000_0000int,
            y < 0x1_0000_0000_0000_0000_0000_0000_0000_0000int,
    ;
    assert(hi_int < 0x1_0000_0000_0000_0000_0000_0000_0000_0000int) by (nonlinear_arith)
        requires
            hi_int * 0x1_0000_0000_0000_0000_0000_0000_0000_0000int + lo == x * y,
            lo >= 0,
            x * y < 0x1_0000_0000_0000_0000_0000_0000_0000_0000int
                * 0x1_0000_0000_0000_0000_0000_0000_0000_0000int,
    ;
    let hi = p11 + p01 / HALF_BASE + p10 / HALF_BASE + mid / HALF_BASE;
    (hi, lo)
}

/// Whether `x * y < z * w`.
pub fn product_lt(x: u128, y: u128, z: u128, w: u128) -> (r: bool)
    ensures
        r == (x * y < z * w),
{
    let (h1, l1) = mul_wide(x, y);
    let (h2, l2) = mul_wide(z, w);
    h1 < h2 || (h1 == h2 && l1 < l2)
}

/// The dot product of two equally long count vectors.
pub open spec fn dot(a: Seq<u32>, b: Seq<u32>) -> int
    decreases a.len(),
{
    if a.len() == 0 || b.len() == 0 {
        0
    } else {
        dot(a.drop_last(), b.drop_last()) + a.last() * b.last()
    }
}

/// The squared Euclidean norm.
pub open spec fn norm_sq(a: Seq<u32>) -> int {
    dot(a, a)
}

/// The cosine similarity of two vectors, as `dot / sqrt(norm_sq_a * norm_sq_b)`;
/// it is zero where either norm is zero.
#[derive(Debug, Clone, Copy, PartialEq, Eq)]
pub struct Similarity {
    pub dot: u64,
    pub norm_sq_a: u64,
    pub norm_sq_b: u64,
}

/// The numerator of the squared cosine.
pub open spec fn cos_sq_num(s: Similarity) -> int {
    if s.norm_sq_a * s.norm_sq_b == 0 {
        0
    } else {
        s.dot * s.dot
    }
}

/// The denominator of the squared cosine.
pub open spec fn cos_sq_den(s: Similarity) -> int {
    if s.norm_sq_a * s.norm_sq_b == 0 {
        1
    } else {
        s.norm_sq_a * s.norm_sq_b
    }
}

/// `s` is less similar than `t`. Cosines here are never negative, so their
/// order is the order of their squares.
pub open spec fn less_similar(s: Similarity, t: Similarity) -> bool {
    cos_sq_num(s) * cos_sq_den(t) < cos_sq_num(t) * cos_sq_den(s)
}

/// The similarity is strictly greater than `n / d`.
pub open spec fn above_ratio(s: Similarity, n: int, d: int) -> bool {
    n * n * cos_sq_den(s) < d * d * cos_sq_num(s)
}

/// The similarity is exactly one.
pub open spec fn is_unit(s: Similarity) -> bool {
    cos_sq_num(s) == cos_sq_den(s)
}

/// The similarity of `a` and `b`.
pub open spec fn cosine(a: Seq<u32>, b: Seq<u32>) -> Similarity {
    Similarity { dot: dot(a, b) as u64, norm_sq_a: norm_sq(a) as u64, norm_sq_b: norm_sq(b) as u64 }
}

impl Similarity {
    fn sq_parts(&self) -> (r: (u128, u128))
        ensures
            r.0 == cos_sq_num(*self),
            r.1 == cos_sq_den(*self),
    {
        assert(self.norm_sq_a * self.norm_sq_b <= u128::MAX && self.dot * self.dot <= u128::MAX)
            by (nonlinear_arith)
            requires
                self.norm_sq_a <= u64::MAX,
                self.norm_sq_b <= u64::MAX,
                self.dot <= u64::MAX,
        ;
        let den = (self.norm_sq_a as u128) * (self.norm_sq_b as u128);
        if den == 0 {
            (0, 1)
        } else {
            ((self.dot as u128) * (self.dot as u128), den)
        }
    }

    /// Whether `self` is less similar than `other`.
    pub fn is_less_than(&self, other: &Similarity) -> (r: bool)
        ensures
            r == less_similar(*self, *other),
    {
        let (n1, d1) = self.sq_parts();
        let (n2, d2) = other.sq_parts();
        product_lt(n1, d2, n2, d1)
    }

    /// Whether the similarity exceeds `n / d`.
    pub fn exceeds(&self, n: u32, d: u32) -> (r: bool)
        ensures
            r == above_ratio(*self, n as int, d as int),
    {
        let (num, den) = self.sq_parts();
        assert(n * n <= u64::MAX && d * d <= u64::MAX) by (nonlinear_arith)
            requires
                n <= u32::MAX,
                d <= u32::MAX,
        ;
        let nn = (n as u128) * (n as u128);
        let dd = (d as u128) * (d as u128);
        assert(nn * den == n * n * den);
        product_lt(nn, den, dd, num)
    }

    /// Whether the similarity is zero.
    pub fn is_zero(&self) -> (r: bool)
        ensures
            r == (cos_sq_num(*self) == 0),
    {
        let (num, _) = self.sq_parts();
        num == 0
    }
}

pub proof fn lemma_dot_nonneg(a: Seq<u32>, b: Seq<u32>)
    ensures
        dot(a, b) >= 0,
    decreases a.len(),
{
    if a.len() > 0 && b.len() > 0 {
        lemma_dot_nonneg(a.drop_last(), b.drop_last());
        assert(a.last() * b.last() >= 0) by (nonlinear_arith);
    }
}

/// A prefix's dot product is at most the whole one.
proof fn lemma_dot_prefix(a: Seq<u32>, b: Seq<u32>, i: int)
    requires
        a.len() == b.len(),
        0 <= i <= a.len(),
    ensures
        dot(a.subrange(0, i), b.subrange(0, i)) <= dot(a, b),
    decreases a.len(),
{
    if i < a.len() {
        assert(a.drop_last().subrange(0, i) =~= a.subrange(0, i));
        assert(b.drop_last().subrange(0, i) =~= b.subrange(0, i));
        lemma_dot_prefix(a.drop_last(), b.drop_last(), i);
        assert(a.last() * b.last() >= 0) by (nonlinear_arith);
    } else {
        assert(a.subrange(0, i) =~= a);
        assert(b.subrange(0, i) =~= b);
    }
}

/// `2 (a . b) <= |a|^2 + |b|^2`.
pub proof fn lemma_dot_half_norms(a: Seq<u32>, b: Seq<u32>)
    requires
        a.len() == b.len(),
    ensures
        2 * dot(a, b) <= norm_sq(a) + norm_sq(b),
    decreases a.len(),
{
    if a.len() > 0 {
        lemma_dot_half_norms(a.drop_last(), b.drop_last());
        let x = a.last() as int;
        let y = b.last() as int;
        assert(dot(a, b) == dot(a.drop_last(), b.drop_last()) + x * y);
        assert(norm_sq(a) == norm_sq(a.drop_last()) + x * x);
        assert(norm_sq(b) == norm_sq(b.drop_last()) + y * y);
        assert(2 * (x * y) <= x * x + y * y) by (nonlinear_arith);
    }
}

/// The similarity of two count vectors.
pub fn cosine_sim(a: &Vec<u32>, b: &Vec<u32>) -> (r: Similarity)
    requires
        a@.len() == b@.len(),
        norm_sq(a@) <= u64::MAX,
        norm_sq(b@) <= u64::MAX,
    ensures
        r == cosine(a@, b@),
{
    proof {
        lemma_dot_half_norms(a@, b@);
        lemma_dot_nonneg(a@, b@);
    }
    let n = a.len();
    let mut d: u128 = 0;
    let mut na: u128 = 0;
    let mut nb: u128 = 0;
    let mut i: usize = 0;
    while i < n
        invariant
            i <= n == a@.len() == b@.len(),
            d == dot(a@.subrange(0, i as int), b@.subrange(0, i as int)),
            na == norm_sq(a@.subrange(0, i as int)),
            nb == norm_sq(b@.subrange(0, i as int)),
            dot(a@, b@) <= u64::MAX,
            norm_sq(a@) <= u64::MAX,
            norm_sq(b@) <= u64::MAX,
        decreases n - i,
    {
        let ghost a1 = a@.subrange(0, i + 1);
        let ghost b1 = b@.subrange(0, i + 1);
        assert(a1.drop_last() =~= a@.subrange(0, i as int));
        assert(b1.drop_last() =~= b@.subrange(0, i as int));
        proof {
            lemma_dot_prefix(a@, b@, i + 1);
            lemma_dot_prefix(a@, a@, i + 1);
            lemma_dot_prefix(b@, b@, i + 1);
        }
        let x = a[i] as u128;
        let y = b[i] as u128;
        assert(x * y <= u64::MAX * u64::MAX) by (nonlinear_arith)
            requires
                x <= u32::MAX,
                y <= u32::MAX,
        ;
        assert(x * x <= u64::MAX * u64::MAX) by (nonlinear_arith)
            requires
                x <= u32::MAX,
        ;
        assert(y * y <= u64::MAX * u64::MAX) by (nonlinear_arith)
            requires
                y <= u32::MAX,
        ;
        d = d + x * y;
        na = na + x * x;
        nb = nb + y * y;
        i = i + 1;
    }
    assert(a@.subrange(0, n as int) =~= a@);
    assert(b@.subrange(0, n as int) =~= b@);
    Similarity { dot: d as u64, norm_sq_a: na as u64, norm_sq_b: nb as u64 }
}

/// Self-similarity: a non-zero vector has cosine exactly one with itself.
pub proof fn lemma_self_similarity(a: Seq<u32>)
    requires
        norm_sq(a) > 0,
        norm_sq(a) <= u64::MAX,
    ensures
        is_unit(cosine(a, a)),
{
    let s = cosine(a, a);
    assert(s.norm_sq_a * s.norm_sq_b > 0) by (nonlinear_arith)
        requires
            s.norm_sq_a > 0,
            s.norm_sq_a == s.norm_sq_b,
    ;
}

/// The Cauchy-Schwarz inequality: `(a . b)^2 <= |a|^2 |b|^2`.
pub proof fn lemma_cauchy_schwarz(a: Seq<u32>, b: Seq<u32>)
    requires
        a.len() == b.len(),
    ensures
        dot(a, b) * dot(a, b) <= norm_sq(a) * norm_sq(b),
    decreases a.len(),
{
    if a.len() > 0 {
        let a1 = a.drop_last();
        let b1 = b.drop_last();
        lemma_cauchy_schwarz(a1, b1);
        lemma_dot_nonneg(a1, b1);
        lemma_dot_nonneg(a1, a1);
        lemma_dot_nonneg(b1, b1);
        let d = dot(a1, b1);
        let p = norm_sq(a1);
        let q = norm_sq(b1);
        let x = a.last() as int;
        let y = b.last() as int;
        assert(dot(a, b) == d + x * y);
        assert(norm_sq(a) == p + x * x);
        assert(norm_sq(b) == q + y * y);
        let u = p * (y * y) + q * (x * x);
        let v = 2 * (d * (x * y));
        assert(u * u >= 4 * (p * q) * ((x * y) * (x * y))) by (nonlinear_arith)
            requires
                u == p * (y * y) + q * (x * x),
        ;
        assert(4 * (p * q) * ((x * y) * (x * y)) >= v * v) by (nonlinear_arith)
            requires
                d * d <= p * q,
                v == 2 * (d * (x * y)),
        ;
        assert(u >= 0 && v >= 0) by (nonlinear_arith)
            requires
                p >= 0,
                q >= 0,
                d >= 0,
                x >= 0,
                y >= 0,
                u == p * (y * y) + q * (x * x),
                v == 2 * (d * (x * y)),
        ;
        assert(u >= v) by (nonlinear_arith)
            requires
                u >= 0,
                v >= 0,
                u * u >= v * v,
        ;
        assert((d + x * y) * (d + x * y) == d * d + v + (x * y) * (x * y)) by (nonlinear_arith)
            requires
                v == 2 * (d * (x * y)),
        ;
        assert((p + x * x) * (q + y * y) == p * q + u + (x * y) * (x * y)) by (nonlinear_arith)
            requires
                u == p * (y * y) + q * (x * x),
        ;
    }
}

/// No similarity exceeds one.
pub proof fn lemma_similarity_at_most_unit(a: Seq<u32>, b: Seq<u32>)
    requires
        a.len() == b.len(),
        norm_sq(a) <= u64::MAX,
        norm_sq(b) <= u64::MAX,
    ensures
        cos_sq_num(cosine(a, b)) <= cos_sq_den(cosine(a, b)),
{
    lemma_cauchy_schwarz(a, b);
    lemma_dot_half_norms(a, b);
    lemma_dot_nonneg(a, b);
    lemma_dot_nonneg(a, a);
    lemma_dot_nonneg(b, b);
}

/// Vectors with no term in common (at every index one of them is zero) have
/// similarity zero.
pub proof fn lemma_disjoint_similarity(a: Seq<u32>, b: Seq<u32>)
    requires
        a.len() == b.len(),
        forall|i: int| 0 <= i < a.len() ==> a[i] == 0 || b[i] == 0,
    ensures
        dot(a, b) == 0,
        cos_sq_num(cosine(a, b)) == 0,
    decreases a.len(),
{
    if a.len() > 0 {
        let a1 = a.drop_last();
        let b1 = b.drop_last();
        assert forall|i: int| 0 <= i < a1.len() implies a1[i] == 0 || b1[i] == 0 by {
            assert(a1[i] == a[i] && b1[i] == b[i]);
        }
        lemma_disjoint_similarity(a1, b1);
        assert(a[a.len() - 1] == 0 || b[b.len() - 1] == 0);
        assert(a.last() * b.last() == 0) by (nonlinear_arith)
            requires
                a.last() == 0 || b.last() == 0,
        ;
    }
    let s = cosine(a, b);
    assert(s.dot == 0);
    assert(s.dot * s.dot == 0);
}

/// Each entry's square is part of the squared norm.
pub proof fn lemma_norm_sq_ge_entry(a: Seq<u32>, k: int)
    requires
        0 <= k < a.len(),
    ensures
        norm_sq(a) >= a[k] * a[k],
    decreases a.len(),
{
    let a1 = a.drop_last();
    lemma_dot_nonneg(a1, a1);
    if k < a.len() - 1 {
        lemma_norm_sq_ge_entry(a1, k);
        assert(a1[k] == a[k]);
        assert(a.last() * a.last() >= 0) by (nonlinear_arith);
    }
}

} // verus!
