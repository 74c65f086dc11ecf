//! Inequalities of real numbers behind the error bounds.

use vstd::prelude::*;

verus! {

/// The distance of `x` from zero.
pub open spec fn size(x: real) -> real {
    if x < 0 as real {
        -x
    } else {
        x
    }
}

/// An inequality times a number that is not negative.
pub proof fn lemma_scaled(a: real, b: real, c: real)
    requires
        a <= b,
        (0 as real) <= c,
    ensures
        a * c <= b * c,
        c * a <= c * b,
{
    assert(a * c <= b * c) by (nonlinear_arith)
        requires
            a <= b,
            (0 as real) <= c,
    ;
}

/// A product of numbers that are not negative.
pub proof fn lemma_product_sign(a: real, b: real)
    requires
        (0 as real) <= a,
        (0 as real) <= b,
    ensures
        (0 as real) <= a * b,
{
    assert(a * b >= 0 as real) by (nonlinear_arith)
        requires
            (0 as real) <= a,
            (0 as real) <= b,
    ;
}

/// Sizes of products and squares.
pub proof fn lemma_size(x: real, y: real)
    ensures
        size(x * y) == size(x) * size(y),
        size(x) * size(x) == x * x,
        x * x >= 0 as real,
{
    let (a, b) = (size(x), size(y));
    assert((-x) * y == -(x * y)) by (nonlinear_arith);
    assert(x * (-y) == -(x * y)) by (nonlinear_arith);
    assert((-x) * (-y) == x * y) by (nonlinear_arith);
    assert((-x) * (-x) == x * x) by (nonlinear_arith);
    lemma_product_sign(a, b);
    lemma_product_sign(a, a);
}

/// What is exact but for a small relative error `u` of the result is so but for twice the
/// error of the exact number.
pub proof fn lemma_rounded(r: real, exact: real, u: real)
    requires
        size(r - exact) <= u * size(r),
        (0 as real) < u,
        u * 1000000 as real <= 1 as real,
    ensures
        size(r - exact) <= (2 as real * u) * size(exact),
        exact >= 0 as real ==> r >= 0 as real,
        size(r) <= 2 as real * size(exact),
{
    let (a, b) = (size(r), size(exact));
    let half = 1 as real / 2 as real;
    lemma_scaled(u, half, a);
    assert(half * a <= b);
    lemma_scaled(a, 2 as real * b, u);
    assert(u * (2 as real * b) == (2 as real * u) * b) by (nonlinear_arith);
    if exact >= 0 as real && r < 0 as real {
        assert(size(r - exact) >= a);
    }
}

/// A product with a factor that is scaled by `k` but for a relative error `t`, both
/// products with a relative error `v`: the products are scaled alike, with a little more
/// error.
pub proof fn lemma_product_scaled(
    k: real,
    x: real,
    x2: real,
    y: real,
    p: real,
    p2: real,
    t: real,
    v: real,
)
    requires
        k > 0 as real,
        (0 as real) < v,
        v * 100000 as real <= 1 as real,
        (0 as real) <= t,
        2 as real * t <= 1 as real,
        size(x2 - k * x) <= t * (k * size(x)),
        size(p - x * y) <= v * size(x * y),
        size(p2 - x2 * y) <= v * size(x2 * y),
    ensures
        size(p2 - k * p) <= (t + 5 as real * v) * (k * size(p)),
{
    let (a, b) = (size(x), size(y));
    let (ka, ab) = (k * a, a * b);
    let q = k * ab;
    lemma_size(x, y);
    lemma_size(x2, y);
    lemma_product_sign(k, a);
    lemma_product_sign(a, b);
    lemma_product_sign(k, ab);
    assert(ka * b == q) by (nonlinear_arith)
        requires
            ka == k * a,
            q == k * (a * b),
    ;
    // The exact products.
    let d = x2 - k * x;
    assert(x2 * y - k * (x * y) == d * y) by (nonlinear_arith)
        requires
            d == x2 - k * x,
    ;
    lemma_size(d, y);
    lemma_scaled(size(d), t * ka, b);
    assert((t * ka) * b == t * (ka * b)) by (nonlinear_arith);
    assert(size(d * y) <= t * q);
    // The error of the second product.
    let half = 1 as real / 2 as real;
    lemma_size(k, x);
    lemma_scaled(t, half, ka);
    assert(size(x2) <= 2 as real * ka);
    lemma_scaled(size(x2), 2 as real * ka, b);
    assert((2 as real * ka) * b == 2 as real * (ka * b)) by (nonlinear_arith);
    lemma_scaled(size(x2 * y), 2 as real * q, v);
    assert(v * (2 as real * q) == 2 as real * (v * q)) by (nonlinear_arith);
    assert(size(p2 - x2 * y) <= 2 as real * (v * q));
    // The error of the first product, scaled.
    let e = p - x * y;
    assert(k * e == k * p - k * (x * y)) by (nonlinear_arith)
        requires
            e == p - x * y,
    ;
    lemma_size(k, e);
    lemma_scaled(size(e), v * ab, k);
    assert(k * (v * ab) == v * (k * ab)) by (nonlinear_arith);
    assert(size(k * e) <= v * q);
    assert(size(p2 - k * p) <= t * q + 3 as real * (v * q));
    // From the exact product to the rounded one.
    let (c, kc) = (size(p), k * size(p));
    lemma_product_sign(k, c);
    lemma_scaled(v, half, ab);
    assert(ab <= 2 as real * c);
    lemma_scaled(ab, 2 as real * c, v);
    assert(v * (2 as real * c) == 2 as real * (v * c)) by (nonlinear_arith);
    assert(ab <= c + 2 as real * (v * c));
    lemma_scaled(ab, c + 2 as real * (v * c), k);
    assert(k * (c + 2 as real * (v * c)) == kc + 2 as real * (v * kc)) by (nonlinear_arith)
        requires
            kc == k * c,
    ;
    let w = v * kc;
    lemma_product_sign(v, kc);
    assert(q <= kc + 2 as real * w);
    lemma_scaled(q, kc + 2 as real * w, t);
    assert(t * (kc + 2 as real * w) == t * kc + 2 as real * (t * w)) by (nonlinear_arith);
    lemma_scaled(t, half, w);
    assert(t * q <= t * kc + w);
    lemma_scaled(q, kc + 2 as real * w, v);
    assert(v * (kc + 2 as real * w) == w + 2 as real * (v * w)) by (nonlinear_arith)
        requires
            w == v * kc,
    ;
    lemma_scaled(v, 1 as real / 100 as real, w);
    assert((t + 5 as real * v) * kc == t * kc + 5 as real * w) by (nonlinear_arith)
        requires
            w == v * kc,
    ;
}

/// Differences of numbers that are scaled by `k` but for small errors are scaled alike, but
/// for errors relative to the sizes of the numbers.
pub proof fn lemma_difference_scaled(
    k: real,
    x: real,
    x2: real,
    y: real,
    y2: real,
    a: real,
    b: real,
    t: real,
    v: real,
)
    requires
        k > 0 as real,
        (0 as real) < v,
        v * 100000 as real <= 1 as real,
        (0 as real) <= t,
        2 as real * t <= 1 as real,
        size(x2 - k * x) <= v * (k * size(x)),
        size(y2 - k * y) <= t * (k * size(y)),
        size(a - (x - y)) <= v * size(x - y),
        size(b - (x2 - y2)) <= v * size(x2 - y2),
    ensures
        size(b - k * a) <= (t + 4 as real * v) * (k * (size(x) + size(y))),
        size(a) <= 2 as real * (size(x) + size(y)),
        size(b) <= 2 as real * (k * (size(x) + size(y))),
{
    let m = size(x) + size(y);
    let (kx, ky, g) = (k * size(x), k * size(y), k * m);
    let half = 1 as real / 2 as real;
    assert(g == kx + ky) by (nonlinear_arith)
        requires
            g == k * (size(x) + size(y)),
            kx == k * size(x),
            ky == k * size(y),
    ;
    lemma_size(k, x);
    lemma_size(k, y);
    lemma_product_sign(k, size(x));
    lemma_product_sign(k, size(y));
    lemma_scaled(v, 1 as real / 100 as real, kx);
    lemma_scaled(t, half, ky);
    assert(2 as real * size(x2 - y2) <= 3 as real * g);
    lemma_scaled(size(x2 - y2), 3 as real * half * g, v);
    assert(v * (3 as real * half * g) == 3 as real * half * (v * g)) by (nonlinear_arith);
    let w = v * g;
    lemma_product_sign(v, g);
    assert(2 as real * size(b - (x2 - y2)) <= 3 as real * w);
    lemma_scaled(v, 1 as real / 100 as real, g);
    lemma_scaled(size(x - y), m, v);
    lemma_scaled(v, 1 as real / 100 as real, m);
    let e = a - (x - y);
    assert(size(e) <= v * m);
    lemma_size(k, e);
    lemma_scaled(size(e), v * m, k);
    assert(k * (v * m) == v * (k * m)) by (nonlinear_arith);
    assert(k * e == k * a - k * x + k * y) by (nonlinear_arith)
        requires
            e == a - (x - y),
    ;
    assert(size(k * e) <= w);
    lemma_scaled(kx, g, v);
    lemma_scaled(ky, g, t);
    assert(size(b - k * a) <= t * g + 4 as real * w);
    assert((t + 4 as real * v) * g == t * g + 4 as real * (v * g)) by (nonlinear_arith);
}

/// Squares of numbers that are scaled by `k` but for a relative error `v`, both with such
/// an error, are scaled by the square of `k`.
pub proof fn lemma_square_scaled(k: real, e: real, e2: real, s: real, s2: real, v: real)
    requires
        k > 0 as real,
        e > 0 as real,
        (0 as real) < v,
        v * 100000 as real <= 1 as real,
        size(e2 - k * e) <= v * (k * e),
        size(s - e * e) <= v * (e * e),
        size(s2 - e2 * e2) <= v * (e2 * e2),
    ensures
        s > 0 as real,
        s2 > 0 as real,
        size(s2 - (k * k) * s) <= (7 as real * v) * ((k * k) * s),
{
    let ke = k * e;
    let (ee, kk) = (e * e, k * k);
    let h = 1 as real / 100 as real;
    assert(ke > 0 as real) by (nonlinear_arith)
        requires
            ke == k * e,
            k > 0 as real,
            e > 0 as real,
    ;
    assert(ee > 0 as real) by (nonlinear_arith)
        requires
            ee == e * e,
            e > 0 as real,
    ;
    assert(kk > 0 as real) by (nonlinear_arith)
        requires
            kk == k * k,
            k > 0 as real,
    ;
    let g = ke * ke;
    assert(g == kk * ee) by (nonlinear_arith)
        requires
            g == (k * e) * (k * e),
            kk == k * k,
            ee == e * e,
    ;
    assert(g > 0 as real) by (nonlinear_arith)
        requires
            g == ke * ke,
            ke > 0 as real,
    ;
    let w = v * g;
    assert(w > 0 as real) by (nonlinear_arith)
        requires
            w == v * g,
            v > 0 as real,
            g > 0 as real,
    ;
    // The square of the scaled number.
    let d = e2 - ke;
    assert(e2 * e2 == g + 2 as real * (ke * d) + d * d) by (nonlinear_arith)
        requires
            d == e2 - ke,
            g == ke * ke,
    ;
    lemma_size(ke, d);
    lemma_size(d, d);
    lemma_scaled(size(d), v * ke, ke);
    assert(ke * (v * ke) == w) by (nonlinear_arith)
        requires
            w == v * (ke * ke),
    ;
    lemma_scaled(v, h, ke);
    assert(size(d) <= ke);
    lemma_scaled(size(d), ke, size(d));
    assert(size(e2 * e2 - g) <= 3 as real * w);
    lemma_scaled(v, h, g);
    lemma_scaled(e2 * e2, 2 as real * g, v);
    assert(v * (2 as real * g) == 2 as real * w) by (nonlinear_arith)
        requires
            w == v * g,
    ;
    assert(size(s2 - g) <= 5 as real * w);
    // The square of the number, scaled.
    let x = s - ee;
    lemma_size(kk, x);
    lemma_scaled(size(x), v * ee, kk);
    assert(kk * (v * ee) == v * (kk * ee)) by (nonlinear_arith);
    assert(kk * x == kk * s - kk * ee) by (nonlinear_arith)
        requires
            x == s - ee,
    ;
    let z = kk * s;
    assert(size(z - g) <= w);
    assert(size(s2 - z) <= 6 as real * w);
    lemma_scaled(v, h, ee);
    assert(z >= g - h * g);
    lemma_scaled(g, z + 2 as real * (h * z), v);
    assert(v * (z + 2 as real * (h * z)) == v * z + 2 as real * h * (v * z)) by (nonlinear_arith);
    lemma_product_sign(v, z);
    assert((7 as real * v) * z == 7 as real * (v * z)) by (nonlinear_arith);
}

/// Quotients of squares by such squares agree, but for errors relative to the size `m` of
/// what the squares were made of.
pub proof fn lemma_quotient_scaled(
    k: real,
    m: real,
    a: real,
    b: real,
    n: real,
    n2: real,
    s: real,
    s2: real,
    q: real,
    q2: real,
    t: real,
    v: real,
)
    requires
        k > 0 as real,
        m >= 0 as real,
        (0 as real) < v,
        v * 100000 as real <= 1 as real,
        (0 as real) <= t,
        size(b - k * a) <= t * (k * m),
        size(a) <= 2 as real * m,
        size(b) <= 2 as real * (k * m),
        size(n - a * a) <= v * (a * a),
        size(n2 - b * b) <= v * (b * b),
        s > 0 as real,
        s2 > 0 as real,
        size(s2 - (k * k) * s) <= (7 as real * v) * ((k * k) * s),
        q >= 0 as real,
        q2 >= 0 as real,
        size(q * s - n) <= v * n,
        size(q2 * s2 - n2) <= v * n2,
    ensures
        size(q2 - q) * s <= (4 as real * t + 60 as real * v) * (m * m),
{
    let (km, kk) = (k * m, k * k);
    let g = km * km;
    let h = 1 as real / 100 as real;
    let w = v * g;
    let z = kk * s;
    lemma_size(a, b);
    lemma_size(b, b);
    lemma_size(k, a);
    lemma_product_sign(k, m);
    lemma_product_sign(km, km);
    lemma_product_sign(v, g);
    lemma_product_sign(k, k);
    lemma_product_sign(kk, s);
    // The squares are small.
    lemma_scaled(size(b), 2 as real * km, size(b));
    lemma_scaled(size(b), 2 as real * km, 2 as real * km);
    assert((2 as real * km) * (2 as real * km) == 4 as real * g) by (nonlinear_arith)
        requires
            g == km * km,
    ;
    let bb = b * b;
    assert(bb <= 4 as real * g);
    lemma_scaled(size(a), 2 as real * m, size(a));
    lemma_scaled(size(a), 2 as real * m, 2 as real * m);
    let aa = a * a;
    assert((2 as real * m) * (2 as real * m) == 4 as real * (m * m)) by (nonlinear_arith);
    assert(aa <= 4 as real * (m * m));
    lemma_scaled(aa, 4 as real * (m * m), kk);
    assert(kk * (4 as real * (m * m)) == 4 as real * g) by (nonlinear_arith)
        requires
            kk == k * k,
            g == (k * m) * (k * m),
    ;
    let ka = k * a;
    assert(ka * ka == kk * aa) by (nonlinear_arith)
        requires
            ka == k * a,
            kk == k * k,
            aa == a * a,
    ;
    assert(kk * aa <= 4 as real * g);
    // The squares differ little.
    let d = b - ka;
    assert(bb - ka * ka == d * (b + ka)) by (nonlinear_arith)
        requires
            bb == b * b,
            d == b - ka,
    ;
    lemma_size(d, b + ka);
    lemma_scaled(size(a), 2 as real * m, k);
    assert(k * (2 as real * m) == 2 as real * km) by (nonlinear_arith)
        requires
            km == k * m,
    ;
    assert(size(b + ka) <= 4 as real * km);
    lemma_scaled(size(b + ka), 4 as real * km, size(d));
    lemma_product_sign(4 as real, km);
    lemma_scaled(size(d), t * km, 4 as real * km);
    assert((t * km) * (4 as real * km) == 4 as real * (t * g)) by (nonlinear_arith)
        requires
            g == km * km,
    ;
    assert(size(bb - kk * aa) <= 4 as real * (t * g));
    // The first quotient.
    lemma_scaled(v, h, aa);
    lemma_scaled(n, 2 as real * aa, v);
    assert(v * (2 as real * aa) == 2 as real * (v * aa)) by (nonlinear_arith);
    let x = q * s - aa;
    assert(size(x) <= 3 as real * (v * aa));
    lemma_size(kk, x);
    lemma_scaled(size(x), 3 as real * (v * aa), kk);
    assert(kk * (3 as real * (v * aa)) == 3 as real * (v * (kk * aa))) by (nonlinear_arith);
    lemma_scaled(kk * aa, 4 as real * g, v);
    assert(v * (4 as real * g) == 4 as real * w) by (nonlinear_arith)
        requires
            w == v * g,
    ;
    assert(kk * x == kk * (q * s) - kk * aa) by (nonlinear_arith)
        requires
            x == q * s - aa,
    ;
    assert(size(kk * (q * s) - kk * aa) <= 12 as real * w);
    // The second quotient.
    lemma_scaled(v, h, bb);
    lemma_scaled(n2, 2 as real * bb, v);
    assert(v * (2 as real * bb) == 2 as real * (v * bb)) by (nonlinear_arith);
    let y = q2 * s2;
    assert(size(y - bb) <= 3 as real * (v * bb));
    let c = q2 * z;
    lemma_product_sign(q2, z);
    let f = s2 - z;
    lemma_size(q2, f);
    lemma_scaled(size(f), (7 as real * v) * z, q2);
    assert(q2 * ((7 as real * v) * z) == 7 as real * (v * c)) by (nonlinear_arith)
        requires
            c == q2 * z,
    ;
    assert(q2 * f == y - c) by (nonlinear_arith)
        requires
            f == s2 - z,
            y == q2 * s2,
            c == q2 * z,
    ;
    assert(size(y - c) <= 7 as real * (v * c));
    lemma_scaled(v, h, c);
    assert(c <= 2 as real * bb);
    lemma_scaled(v, 1 as real / 100000 as real, c);
    assert(10 as real * c <= 11 as real * bb);
    lemma_scaled(c, 11 as real / 10 as real * bb, v);
    assert(v * (11 as real / 10 as real * bb) == 11 as real / 10 as real * (v * bb))
        by (nonlinear_arith);
    assert(size(c - bb) <= 12 as real * (v * bb));
    lemma_scaled(bb, 4 as real * g, v);
    assert(size(c - bb) <= 48 as real * w);
    // Both.
    let r = (q2 - q) * s;
    assert(c - kk * (q * s) == kk * r) by (nonlinear_arith)
        requires
            c == q2 * (kk * s),
            r == (q2 - q) * s,
    ;
    assert(size(kk * r) <= 4 as real * (t * g) + 60 as real * w);
    let bound = (4 as real * t + 60 as real * v) * (m * m);
    assert(kk * bound == 4 as real * (t * g) + 60 as real * w) by (nonlinear_arith)
        requires
            bound == (4 as real * t + 60 as real * v) * (m * m),
            g == (k * m) * (k * m),
            kk == k * k,
            w == v * g,
    ;
    lemma_size(kk, r);
    lemma_size(q2 - q, s);
    assert(size(r) <= bound) by (nonlinear_arith)
        requires
            kk * size(r) <= kk * bound,
            kk == k * k,
            k > 0 as real,
    ;
}

/// The rounded mean of three numbers of size up to `r`, each step with a relative error `v`,
/// is their mean but for a few such errors.
pub proof fn lemma_mean_rounded(
    x0: real,
    x1: real,
    x2: real,
    s1: real,
    s2: real,
    s3: real,
    mean: real,
    r: real,
    v: real,
)
    requires
        (0 as real) < v,
        v * 100000 as real <= 1 as real,
        size(x0) <= r,
        size(x1) <= r,
        size(x2) <= r,
        size(s1 - x0) <= v * size(x0),
        size(s2 - (s1 + x1)) <= v * size(s1 + x1),
        size(s3 - (s2 + x2)) <= v * size(s2 + x2),
        size(3 as real * mean - s3) <= v * size(s3),
    ensures
        size(3 as real * mean - (x0 + x1 + x2)) <= 12 as real * (v * r),
        size(mean) <= 2 as real * r,
{
    let h = 1 as real / 100 as real;
    lemma_scaled(size(x0), r, v);
    lemma_scaled(v, h, r);
    let c = 21 as real / 10 as real;
    lemma_scaled(size(s1 + x1), c * r, v);
    assert(v * (c * r) == c * (v * r)) by (nonlinear_arith);
    let d = 32 as real / 10 as real;
    lemma_scaled(size(s2 + x2), d * r, v);
    assert(v * (d * r) == d * (v * r)) by (nonlinear_arith);
    let e = 33 as real / 10 as real;
    lemma_scaled(size(s3), e * r, v);
    assert(v * (e * r) == e * (v * r)) by (nonlinear_arith);
    lemma_product_sign(v, r);
}

/// `x` differs from `y` by no more than `e`.
pub open spec fn close(x: real, y: real, e: real) -> bool {
    x - y <= e && y - x <= e
}

/// Three numbers that are not negative, each with a relative error `v`, added up with such
/// errors.
proof fn lemma_sum_rounded(
    a: real,
    b: real,
    c: real,
    q0: real,
    q1: real,
    q2: real,
    t1: real,
    t2: real,
    t3: real,
    v: real,
)
    requires
        (0 as real) < v,
        v * 100000 as real <= 1 as real,
        a >= 0 as real,
        b >= 0 as real,
        c >= 0 as real,
        close(q0, a, v * a),
        close(q1, b, v * b),
        close(q2, c, v * c),
        close(t1, q0, v * q0),
        close(t2, t1 + q1, v * (t1 + q1)),
        close(t3, t2 + q2, v * (t2 + q2)),
    ensures
        close(t3, a + b + c, 5 as real * (v * (a + b + c))),
{
    let total = a + b + c;
    let k = 11 as real / 10 as real;
    let h = 1 as real / 1000 as real;
    lemma_scaled(v, h, a);
    lemma_scaled(v, h, b);
    lemma_scaled(v, h, c);
    let w = v * total;
    assert(w == v * a + v * b + v * c) by (nonlinear_arith)
        requires
            w == v * (a + b + c),
    ;
    assert(v * (k * total) == k * w) by (nonlinear_arith)
        requires
            w == v * total,
    ;
    lemma_product_sign(v, a);
    lemma_product_sign(v, b);
    lemma_product_sign(v, c);
    lemma_scaled(v, h, total);
    lemma_scaled(q0, k * total, v);
    lemma_scaled(t1 + q1, k * total, v);
    lemma_scaled(t2 + q2, k * total, v);
}

/// Rounded squares added up with rounding, divided by three and rooted: the squares of root
/// and numbers agree but for a few relative errors `v`, and no number is more than twice
/// the root.
pub proof fn lemma_root_rounded(
    d0: real,
    d1: real,
    d2: real,
    q0: real,
    q1: real,
    q2: real,
    t1: real,
    t2: real,
    t3: real,
    mean: real,
    root: real,
    v: real,
)
    requires
        (0 as real) < v,
        v * 100000 as real <= 1 as real,
        close(q0, d0 * d0, v * (d0 * d0)),
        close(q1, d1 * d1, v * (d1 * d1)),
        close(q2, d2 * d2, v * (d2 * d2)),
        close(t1, q0, v * q0),
        close(t2, t1 + q1, v * (t1 + q1)),
        close(t3, t2 + q2, v * (t2 + q2)),
        close(3 as real * mean, t3, v * t3),
        root >= 0 as real,
        close(root * root, mean, 2 as real * (v * (root * root))),
    ensures
        ({
            let total = d0 * d0 + d1 * d1 + d2 * d2;
            &&& close(3 as real * (root * root), total, 9 as real * (v * total))
            &&& total <= 4 as real * (root * root)
        }),
        size(d0) <= 2 as real * root,
        size(d1) <= 2 as real * root,
        size(d2) <= 2 as real * root,
{
    lemma_size(d0, d0);
    lemma_size(d1, d1);
    lemma_size(d2, d2);
    let total = d0 * d0 + d1 * d1 + d2 * d2;
    lemma_sum_rounded(d0 * d0, d1 * d1, d2 * d2, q0, q1, q2, t1, t2, t3, v);
    let rr = root * root;
    lemma_product_sign(root, root);
    lemma_square_of_root(total, t3, mean, rr, v);
    lemma_root_bounds(d0, root);
    lemma_root_bounds(d1, root);
    lemma_root_bounds(d2, root);
}

proof fn lemma_square_of_root(total: real, t3: real, mean: real, rr: real, v: real)
    requires
        (0 as real) < v,
        v * 100000 as real <= 1 as real,
        total >= 0 as real,
        rr >= 0 as real,
        close(t3, total, 5 as real * (v * total)),
        close(3 as real * mean, t3, v * t3),
        close(rr, mean, 2 as real * (v * rr)),
    ensures
        close(3 as real * rr, total, 9 as real * (v * total)),
        total <= 4 as real * rr,
{
    let k = 11 as real / 10 as real;
    let h = 1 as real / 1000 as real;
    let w = v * total;
    lemma_product_sign(v, total);
    lemma_scaled(v, h, total);
    assert(v * (k * total) == k * w) by (nonlinear_arith)
        requires
            w == v * total,
    ;
    lemma_scaled(t3, k * total, v);
    lemma_scaled(v, h, rr);
    lemma_scaled(3 as real * rr, k * total, v);
    assert(v * (3 as real * rr) == 3 as real * (v * rr)) by (nonlinear_arith);
}

proof fn lemma_root_bounds(d: real, root: real)
    requires
        d * d <= 4 as real * (root * root),
        root >= 0 as real,
    ensures
        size(d) <= 2 as real * root,
{
    let (x, y) = (size(d), 2 as real * root);
    lemma_size(d, d);
    assert(y * y == 4 as real * (root * root)) by (nonlinear_arith)
        requires
            y == 2 as real * root,
    ;
    if x > y {
        assert(x * x > y * y) by (nonlinear_arith)
            requires
                x > y,
                y >= 0 as real,
        ;
    }
}

/// Squares of numbers that differ by up to `delta` and are up to twice `d` and `e` in size
/// differ little.
proof fn lemma_squares_close(a: real, b: real, d: real, e: real, delta: real)
    requires
        size(b - a) <= delta,
        size(a) <= 2 as real * d,
        size(b) <= 2 as real * e,
    ensures
        size(b * b - a * a) <= 2 as real * (delta * (d + e)),
{
    assert(b * b - a * a == (b - a) * (b + a)) by (nonlinear_arith);
    lemma_size(b - a, b + a);
    let y = 2 as real * (d + e);
    assert(size(b + a) <= y);
    lemma_scaled(size(b + a), y, size(b - a));
    lemma_scaled(size(b - a), delta, y);
    assert(delta * y == 2 as real * (delta * (d + e))) by (nonlinear_arith)
        requires
            y == 2 as real * (d + e),
    ;
}

/// Roots of mean squares of three numbers each, which differ pairwise by up to `delta`,
/// differ by little more.
pub proof fn lemma_roots_close(
    a0: real,
    a1: real,
    a2: real,
    b0: real,
    b1: real,
    b2: real,
    d: real,
    e: real,
    delta: real,
    v: real,
)
    requires
        (0 as real) < v,
        d >= 0 as real,
        e >= 0 as real,
        size(b0 - a0) <= delta,
        size(b1 - a1) <= delta,
        size(b2 - a2) <= delta,
        size(a0) <= 2 as real * d,
        size(a1) <= 2 as real * d,
        size(a2) <= 2 as real * d,
        size(b0) <= 2 as real * e,
        size(b1) <= 2 as real * e,
        size(b2) <= 2 as real * e,
        ({
            let total = a0 * a0 + a1 * a1 + a2 * a2;
            &&& close(3 as real * (d * d), total, 9 as real * (v * total))
            &&& total <= 4 as real * (d * d)
        }),
        ({
            let total = b0 * b0 + b1 * b1 + b2 * b2;
            &&& close(3 as real * (e * e), total, 9 as real * (v * total))
            &&& total <= 4 as real * (e * e)
        }),
    ensures
        size(e - d) <= 2 as real * delta + 12 as real * (v * (d + e)),
{
    let z = d + e;
    let (ta, tb) = (a0 * a0 + a1 * a1 + a2 * a2, b0 * b0 + b1 * b1 + b2 * b2);
    lemma_squares_close(a0, b0, d, e, delta);
    lemma_squares_close(a1, b1, d, e, delta);
    lemma_squares_close(a2, b2, d, e, delta);
    let (dd, ee, zz) = (d * d, e * e, z * z);
    lemma_product_sign(d, e);
    assert(zz == dd + ee + 2 as real * (d * e)) by (nonlinear_arith)
        requires
            zz == (d + e) * (d + e),
            dd == d * d,
            ee == e * e,
    ;
    lemma_scaled(ta, 4 as real * dd, v);
    lemma_scaled(tb, 4 as real * ee, v);
    assert(v * (4 as real * dd) + v * (4 as real * ee) == 4 as real * (v * (dd + ee)))
        by (nonlinear_arith);
    lemma_scaled(dd + ee, zz, v);
    assert(3 as real * size(ee - dd) <= 6 as real * (delta * z) + 36 as real * (v * zz));
    assert(ee - dd == (e - d) * z) by (nonlinear_arith)
        requires
            ee == e * e,
            dd == d * d,
            z == d + e,
    ;
    lemma_size(e - d, z);
    let bound = 2 as real * delta + 12 as real * (v * z);
    assert(bound * z == 2 as real * (delta * z) + 12 as real * (v * zz)) by (nonlinear_arith)
        requires
            bound == 2 as real * delta + 12 as real * (v * z),
            zz == z * z,
    ;
    lemma_product_sign(v, z);
    if z > 0 as real {
        let x = size(e - d);
        assert(x <= bound) by (nonlinear_arith)
            requires
                x * z <= bound * z,
                z > 0 as real,
        ;
    }
}

/// The root of the mean square of three numbers of size up to four times `r` is up to five
/// times `r`.
pub proof fn lemma_root_small(d0: real, d1: real, d2: real, root: real, r: real, v: real)
    requires
        (0 as real) < v,
        v * 100000 as real <= 1 as real,
        root >= 0 as real,
        size(d0) <= 4 as real * r,
        size(d1) <= 4 as real * r,
        size(d2) <= 4 as real * r,
        ({
            let total = d0 * d0 + d1 * d1 + d2 * d2;
            close(3 as real * (root * root), total, 9 as real * (v * total))
        }),
    ensures
        root <= 5 as real * r,
{
    let (a, rr) = (4 as real * r, r * r);
    let total = d0 * d0 + d1 * d1 + d2 * d2;
    lemma_square_small(d0, a);
    lemma_square_small(d1, a);
    lemma_square_small(d2, a);
    assert(a * a == 16 as real * rr) by (nonlinear_arith)
        requires
            a == 4 as real * r,
            rr == r * r,
    ;
    lemma_size(d0, d0);
    lemma_size(d1, d1);
    lemma_size(d2, d2);
    lemma_scaled(v, 1 as real / 100 as real, total);
    let b = 5 as real * r;
    assert(b * b == 25 as real * rr) by (nonlinear_arith)
        requires
            b == 5 as real * r,
            rr == r * r,
    ;
    if root > b {
        assert(root * root > b * b) by (nonlinear_arith)
            requires
                root > b,
                b >= 0 as real,
        ;
    }
}

proof fn lemma_square_small(d: real, a: real)
    requires
        size(d) <= a,
    ensures
        d * d <= a * a,
{
    lemma_size(d, d);
    lemma_scaled(size(d), a, size(d));
    lemma_scaled(size(d), a, a);
}

/// Two sums less the same number, each step with an error of up to `e`, differ by what was
/// added.
pub proof fn lemma_sums_shifted(
    a: real,
    b: real,
    s: real,
    t: real,
    x: real,
    y: real,
    from: real,
    to: real,
    shift: real,
    slip: real,
    e: real,
)
    requires
        size(a - (s - y)) <= e,
        size(b - (t - y)) <= e,
        size(s - (x + from)) <= e,
        size(t - (x + to)) <= e,
        size(to - from - shift) <= slip,
    ensures
        size(b - a - shift) <= slip + 4 as real * e,
{
}

/// Means of three numbers each, which differ by the same shift but for errors of up to
/// `slip`, differ by that shift.
pub proof fn lemma_means_shifted(
    x0: real,
    x1: real,
    x2: real,
    y0: real,
    y1: real,
    y2: real,
    mx: real,
    my: real,
    shift: real,
    slip: real,
    w: real,
)
    requires
        size(3 as real * mx - (x0 + x1 + x2)) <= 12 as real * w,
        size(3 as real * my - (y0 + y1 + y2)) <= 12 as real * w,
        size(y0 - x0 - shift) <= slip,
        size(y1 - x1 - shift) <= slip,
        size(y2 - x2 - shift) <= slip,
    ensures
        size(my - mx - shift) <= slip + 8 as real * w,
{
}

/// Distances from such means agree.
pub proof fn lemma_distances_close(
    x: real,
    y: real,
    mx: real,
    my: real,
    dx: real,
    dy: real,
    shift: real,
    slip: real,
    w: real,
)
    requires
        size(y - x - shift) <= slip,
        size(my - mx - shift) <= slip + 8 as real * w,
        size(dx - (x - mx)) <= 3 as real * w,
        size(dy - (y - my)) <= 3 as real * w,
    ensures
        size(dy - dx) <= 2 as real * slip + 14 as real * w,
{
}

/// A rounded product of a factor and a difference that are rounded themselves.
pub proof fn lemma_pull_rounded(c: real, d: real, pull: real, way: real, own: real, v: real)
    requires
        (0 as real) < v,
        v * 100000 as real <= 1 as real,
        size(pull - c) <= v * size(c),
        size(way - d) <= v * size(d),
        size(own - pull * way) <= v * size(pull * way),
    ensures
        size(own - c * d) <= 7 as real * (v * size(c * d)),
{
    let (a, b) = (size(c), size(d));
    let ab = a * b;
    lemma_size(c, d);
    lemma_size(pull, way);
    lemma_product_sign(a, b);
    lemma_scaled(v, 1 as real, a);
    lemma_scaled(v, 1 as real, b);
    let (x, y) = (pull - c, way - d);
    let w = size(way);
    assert(w <= 2 as real * b);
    lemma_product_doubled(size(pull), w, a, b);
    lemma_scaled(size(pull * way), 4 as real * ab, v);
    assert(v * (4 as real * ab) == 4 as real * (v * ab)) by (nonlinear_arith);
    assert(pull * way - c * d == x * way + c * y) by (nonlinear_arith)
        requires
            x == pull - c,
            y == way - d,
    ;
    lemma_size(x, way);
    lemma_size(c, y);
    lemma_scaled(size(x), v * a, w);
    lemma_product_sign(v, a);
    lemma_scaled(w, 2 as real * b, v * a);
    assert((v * a) * (2 as real * b) == 2 as real * (v * (a * b))) by (nonlinear_arith);
    lemma_scaled(size(y), v * b, a);
    assert(a * (v * b) == v * (a * b)) by (nonlinear_arith);
    lemma_error_sum(own - pull * way, x * way, c * y, v * ab);
}

proof fn lemma_error_sum(x: real, y: real, z: real, e: real)
    requires
        size(x) <= 4 as real * e,
        size(y) <= 2 as real * e,
        size(z) <= e,
    ensures
        size(x + (y + z)) <= 7 as real * e,
{
}

proof fn lemma_product_doubled(x: real, y: real, a: real, b: real)
    requires
        (0 as real) <= x,
        (0 as real) <= y,
        x <= 2 as real * a,
        y <= 2 as real * b,
        (0 as real) <= a,
    ensures
        x * y <= 4 as real * (a * b),
{
    lemma_scaled(x, 2 as real * a, y);
    lemma_scaled(y, 2 as real * b, 2 as real * a);
    assert((2 as real * a) * (2 as real * b) == 4 as real * (a * b)) by (nonlinear_arith);
}

/// The rounded sum of three terms that are rounded themselves.
pub proof fn lemma_three_terms_rounded(
    a: real,
    b: real,
    c: real,
    kept: real,
    own: real,
    social: real,
    partial: real,
    total: real,
    v: real,
)
    requires
        (0 as real) < v,
        v * 100000 as real <= 1 as real,
        size(kept - a) <= v * size(a),
        size(own - b) <= 7 as real * (v * size(b)),
        size(social - c) <= 7 as real * (v * size(c)),
        size(partial - (kept + own)) <= v * size(kept + own),
        size(total - (partial + social)) <= v * size(partial + social),
    ensures
        size(total - (a + b + c)) <= 12 as real * (v * (size(a) + size(b) + size(c))),
{
    let (x, y, z) = (size(a), size(b), size(c));
    let h = 1 as real / 100000 as real;
    lemma_scaled(v, h, x);
    lemma_scaled(v, h, y);
    lemma_scaled(v, h, z);
    let xy = x + y;
    lemma_sum_size(kept, own, x, y);
    lemma_scaled(size(kept + own), 2 as real * xy, v);
    assert(v * (2 as real * xy) == 2 as real * (v * xy)) by (nonlinear_arith);
    lemma_scaled(v, h, xy);
    assert(size(partial) <= 3 as real * xy) by {
        lemma_near(partial, kept + own, xy);
    }
    let s = xy + z;
    lemma_sum_size_three(partial, social, xy, z);
    lemma_scaled(size(partial + social), 3 as real * s, v);
    assert(v * (3 as real * s) == 3 as real * (v * s)) by (nonlinear_arith);
    assert(v * xy == v * x + v * y) by (nonlinear_arith)
        requires
            xy == x + y,
    ;
    assert(v * s == v * xy + v * z) by (nonlinear_arith)
        requires
            s == xy + z,
    ;
    lemma_product_sign(v, x);
    lemma_product_sign(v, y);
    lemma_product_sign(v, z);
    lemma_five_errors(
        kept - a,
        own - b,
        social - c,
        partial - (kept + own),
        total - (partial + social),
        v * x,
        v * y,
        v * z,
    );
}

proof fn lemma_sum_size(p: real, q: real, x: real, y: real)
    requires
        size(p) <= 2 as real * x,
        size(q) <= 2 as real * y,
    ensures
        size(p + q) <= 2 as real * (x + y),
{
}

proof fn lemma_sum_size_three(p: real, q: real, x: real, y: real)
    requires
        size(p) <= 3 as real * x,
        size(q) <= 3 as real * y,
    ensures
        size(p + q) <= 3 as real * (x + y),
{
}

proof fn lemma_near(p: real, q: real, x: real)
    requires
        size(p - q) <= x,
        size(q) <= 2 as real * x,
    ensures
        size(p) <= 3 as real * x,
{
}

proof fn lemma_five_errors(
    p: real,
    q: real,
    r: real,
    s: real,
    t: real,
    x: real,
    y: real,
    z: real,
)
    requires
        x >= 0 as real,
        y >= 0 as real,
        z >= 0 as real,
        size(p) <= x,
        size(q) <= 7 as real * y,
        size(r) <= 7 as real * z,
        size(s) <= 2 as real * (x + y),
        size(t) <= 3 as real * (x + y + z),
    ensures
        size(p + q + r + s + t) <= 12 as real * (x + y + z),
{
}

/// A rounded product of a factor that has a relative error `t` itself.
pub proof fn lemma_chain_rounded(x: real, r: real, y: real, p: real, t: real, v: real)
    requires
        (0 as real) < v,
        v * 100000 as real <= 1 as real,
        (0 as real) < t,
        t * 10000 as real <= 1 as real,
        size(r - x) <= t * size(x),
        size(p - r * y) <= v * size(r * y),
    ensures
        size(p - x * y) <= (t + v + v / 4 as real) * size(x * y),
{
    let (a, b) = (size(x), size(y));
    let ab = a * b;
    lemma_size(x, y);
    lemma_size(r, y);
    lemma_product_sign(a, b);
    let d = r - x;
    assert(r * y - x * y == d * y) by (nonlinear_arith)
        requires
            d == r - x,
    ;
    lemma_size(d, y);
    lemma_scaled(size(d), t * a, b);
    assert((t * a) * b == t * (a * b)) by (nonlinear_arith);
    lemma_scaled(t, 1 as real / 10000 as real, ab);
    let k = 5 as real / 4 as real * ab;
    assert(size(r * y) <= k);
    lemma_scaled(size(r * y), k, v);
    assert(v * (5 as real / 4 as real * ab) == (v + v / 4 as real) * ab) by (nonlinear_arith);
    assert((t + v + v / 4 as real) * ab == t * ab + (v + v / 4 as real) * ab) by (nonlinear_arith);
}

/// The rounded square of a rounded number `a` over a rounded square `s` of `e`, with the
/// quotient `q`.
pub proof fn lemma_ratio_of_squares(d: real, a: real, n: real, e: real, s: real, q: real, v: real)
    requires
        (0 as real) < v,
        v * 100000 as real <= 1 as real,
        size(a - d) <= v * size(d),
        size(n - a * a) <= v * (a * a),
        size(s - e * e) <= v * (e * e),
        size(q * s - n) <= v * n,
        q >= 0 as real,
    ensures
        size(q * (e * e) - d * d) <= 11 as real * (v * (d * d)),
{
    let b = size(d);
    let (dd, aa, ee) = (d * d, a * a, e * e);
    let w = v * dd;
    lemma_size(d, d);
    lemma_size(a, a);
    lemma_size(e, e);
    lemma_scaled(v, 1 as real / 100000 as real, b);
    let (x, y) = (a - d, a + d);
    assert(aa - dd == x * y) by (nonlinear_arith)
        requires
            aa == a * a,
            dd == d * d,
            x == a - d,
            y == a + d,
    ;
    lemma_size(x, y);
    assert(size(y) <= 3 as real * b);
    lemma_scaled(size(y), 3 as real * b, size(x));
    lemma_scaled(size(x), v * b, 3 as real * b);
    assert((v * b) * (3 as real * b) == 3 as real * (v * (b * b))) by (nonlinear_arith);
    assert(size(aa - dd) <= 3 as real * w);
    lemma_product_sign(v, dd);
    lemma_scaled(v, 1 as real / 100000 as real, dd);
    lemma_scaled(aa, 2 as real * dd, v);
    assert(v * (2 as real * dd) == 2 as real * (v * dd)) by (nonlinear_arith);
    assert(size(n - dd) <= 5 as real * w);
    lemma_scaled(n, 2 as real * dd, v);
    let z = q * s;
    assert(size(z - dd) <= 7 as real * w);
    let (r, g) = (q * ee, s - ee);
    assert(z - r == q * g) by (nonlinear_arith)
        requires
            z == q * s,
            r == q * ee,
            g == s - ee,
    ;
    lemma_size(q, g);
    lemma_scaled(size(g), v * ee, q);
    assert(q * (v * ee) == v * (q * ee)) by (nonlinear_arith);
    lemma_product_sign(q, ee);
    lemma_scaled(v, 1 as real / 100000 as real, r);
    assert(r <= 4 as real * dd);
    lemma_scaled(r, 4 as real * dd, v);
    assert(v * (4 as real * dd) == 4 as real * (v * dd)) by (nonlinear_arith);
}

} // verus!
