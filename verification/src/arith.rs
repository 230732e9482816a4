//! Number-theory utilities: greatest common divisor, least common multiple,
//! brute-force modular inverse, and the residual-intersection formula
//! (a generalized Chinese-Remainder-Theorem computation).

use vstd::prelude::*;

verus! {

use vstd::arithmetic::div_mod::lemma_fundamental_div_mod;
use vstd::arithmetic::div_mod::lemma_fundamental_div_mod_converse;
use vstd::arithmetic::div_mod::lemma_mod_bound;
use vstd::arithmetic::div_mod::lemma_mod_multiples_basic;
use vstd::arithmetic::div_mod::lemma_mod_multiples_vanish;
use vstd::arithmetic::div_mod::lemma_mod_self_0;
use vstd::arithmetic::div_mod::lemma_small_mod;

/// The greatest common divisor by Euclid's recursion; `spec_gcd(n, 0) == n`.
pub open spec fn spec_gcd(n: nat, m: nat) -> nat
    decreases m,
{
    if m == 0 {
        n
    } else {
        spec_gcd(m, n % m)
    }
}

/// The least common multiple of two positive integers.
pub open spec fn spec_lcm(a: nat, b: nat) -> nat {
    (a * b) / spec_gcd(a, b)
}

/// `spec_gcd` is symmetric in its arguments.
pub proof fn lemma_gcd_comm(n: nat, m: nat)
    ensures
        spec_gcd(n, m) == spec_gcd(m, n),
{
    if m == 0 {
        if n != 0 {
            lemma_small_mod(0, n);
            assert(spec_gcd(m, n) == spec_gcd(n, 0nat % n));
        }
    } else if n == 0 {
        lemma_small_mod(0, m);
        assert(spec_gcd(n, m) == spec_gcd(m, 0nat % m));
    } else if n < m {
        lemma_small_mod(n, m);
        assert(spec_gcd(n, m) == spec_gcd(m, n % m));
    } else if m < n {
        lemma_small_mod(m, n);
        assert(spec_gcd(m, n) == spec_gcd(n, m % n));
    }
}

/// The gcd of `n >= 1` and any `m` is positive and divides both arguments.
pub proof fn lemma_gcd_divides(n: nat, m: nat)
    requires
        n >= 1,
    ensures
        spec_gcd(n, m) >= 1,
        n % spec_gcd(n, m) == 0,
        m % spec_gcd(n, m) == 0,
    decreases m,
{
    if m == 0 {
        lemma_mod_self_0(n as int);
        lemma_small_mod(0, n);
    } else {
        let g = spec_gcd(m, n % m);
        lemma_gcd_divides(m, n % m);
        // g >= 1, m % g == 0, (n % m) % g == 0; conclude n % g == 0.
        lemma_fundamental_div_mod(n as int, m as int);
        lemma_fundamental_div_mod(m as int, g as int);
        lemma_fundamental_div_mod((n % m) as int, g as int);
        let q = n as int / m as int;
        let k = m as int / g as int;
        let j = (n % m) as int / g as int;
        assert(n as int == g as int * (k * q + j)) by (nonlinear_arith)
            requires
                n as int == m as int * q + (n % m) as int,
                m as int == g as int * k,
                (n % m) as int == g as int * j,
        ;
        lemma_mod_multiples_basic(k * q + j, g as int);
        assert(((k * q + j) * g as int) % g as int == 0);
        assert(n as int == (k * q + j) * g as int) by (nonlinear_arith)
            requires
                n as int == g as int * (k * q + j),
        ;
    }
}

/// Every positive common divisor of `n >= 1` and `m` is at most their gcd.
pub proof fn lemma_gcd_is_largest(n: nat, m: nat, c: nat)
    requires
        n >= 1,
        c >= 1,
        n % c == 0,
        m % c == 0,
    ensures
        c <= spec_gcd(n, m),
    decreases m,
{
    if m == 0 {
        // gcd is n; c divides n and n >= 1, so c <= n.
        lemma_fundamental_div_mod(n as int, c as int);
        let k = n as int / c as int;
        assert(c <= n) by (nonlinear_arith)
            requires
                n as int == c as int * k,
                n >= 1,
                c >= 1,
        ;
    } else {
        // c divides n % m as well.
        lemma_fundamental_div_mod(n as int, m as int);
        lemma_fundamental_div_mod(n as int, c as int);
        lemma_fundamental_div_mod(m as int, c as int);
        let q = n as int / m as int;
        let kn = n as int / c as int;
        let km = m as int / c as int;
        let r = (n % m) as int;
        assert(r == c as int * (kn - km * q)) by (nonlinear_arith)
            requires
                n as int == m as int * q + r,
                n as int == c as int * kn,
                m as int == c as int * km,
        ;
        lemma_mod_multiples_basic(kn - km * q, c as int);
        assert(r == (kn - km * q) * c as int) by (nonlinear_arith)
            requires
                r == c as int * (kn - km * q),
        ;
        assert((n % m) % c == 0);
        lemma_gcd_is_largest(m, n % m, c);
    }
}

/// Dividing two positive integers by their gcd leaves coprime quotients.
pub proof fn lemma_gcd_quotients_coprime(n: nat, m: nat)
    requires
        n >= 1,
        m >= 1,
    ensures
        spec_gcd(n / spec_gcd(n, m), m / spec_gcd(n, m)) == 1,
{
    let d = spec_gcd(n, m);
    lemma_gcd_divides(n, m);
    lemma_fundamental_div_mod(n as int, d as int);
    lemma_fundamental_div_mod(m as int, d as int);
    let nd = n / d;
    let md = m / d;
    assert(n as int == d as int * nd as int);
    assert(m as int == d as int * md as int);
    assert(nd >= 1) by (nonlinear_arith)
        requires
            n as int == d as int * nd as int,
            n >= 1,
            d >= 1,
            nd >= 0,
    ;
    let c = spec_gcd(nd, md);
    lemma_gcd_divides(nd, md);
    if c > 1 {
        // c * d divides both n and m, so c * d <= d, contradicting c > 1.
        lemma_fundamental_div_mod(nd as int, c as int);
        lemma_fundamental_div_mod(md as int, c as int);
        let kn = nd as int / c as int;
        let km = md as int / c as int;
        assert(n as int == kn * (c * d) as int) by (nonlinear_arith)
            requires
                n as int == d as int * nd as int,
                nd as int == c as int * kn,
        ;
        assert(m as int == km * (c * d) as int) by (nonlinear_arith)
            requires
                m as int == d as int * md as int,
                md as int == c as int * km,
        ;
        assert(c * d >= 1) by (nonlinear_arith)
            requires
                c >= 1,
                d >= 1,
        ;
        lemma_mod_multiples_basic(kn, (c * d) as int);
        lemma_mod_multiples_basic(km, (c * d) as int);
        lemma_gcd_is_largest(n, m, c * d);
        assert(c * d > d) by (nonlinear_arith)
            requires
                c > 1,
                d >= 1,
        ;
    }
}

/// An integer combination of `n` and `m` equal to their gcd.
pub open spec fn is_bezout_pair(n: nat, m: nat, x: int, y: int) -> bool {
    x * n + y * m == spec_gcd(n, m)
}

/// Bezout's identity: the gcd is an integer combination of its arguments.
pub proof fn lemma_bezout(n: nat, m: nat)
    ensures
        exists|x: int, y: int| #[trigger] is_bezout_pair(n, m, x, y),
    decreases m,
{
    if m == 0 {
        assert(1int * n + 0int * m == spec_gcd(n, m)) by (nonlinear_arith)
            requires
                spec_gcd(n, m) == n,
        ;
        assert(is_bezout_pair(n, m, 1int, 0int));
    } else {
        lemma_bezout(m, n % m);
        let (x1, y1) = choose|x1: int, y1: int| #[trigger] is_bezout_pair(m, n % m, x1, y1);
        lemma_fundamental_div_mod(n as int, m as int);
        let q = n as int / m as int;
        let x = y1;
        let y = x1 - y1 * q;
        assert(x * n + y * m == spec_gcd(n, m)) by (nonlinear_arith)
            requires
                x1 * m + y1 * ((n % m) as nat) == spec_gcd(n, m),
                n as int == m as int * q + ((n % m) as nat),
                x == y1,
                y == x1 - y1 * q,
        ;
        assert(is_bezout_pair(n, m, x, y));
    }
}

/// A modular inverse: `(g * a) % b == 1`.
pub open spec fn is_mod_inverse(a: nat, b: nat, g: nat) -> bool {
    (g * a) % b == 1
}

/// When `a` and `b >= 2` are coprime, `a` has an inverse modulo `b`.
pub proof fn lemma_inverse_exists(a: nat, b: nat)
    requires
        a >= 1,
        b >= 2,
        spec_gcd(a, b) == 1,
    ensures
        exists|g: nat| 1 <= g < b && is_mod_inverse(a, b, g),
{
    lemma_bezout(a, b);
    let (x, y) = choose|x: int, y: int| #[trigger] is_bezout_pair(a, b, x, y);
    lemma_mod_bound(x, b as int);
    let g0 = x % b as int;
    lemma_fundamental_div_mod(x, b as int);
    let qx = x / b as int;
    // g0 * a == 1 - b * (y + a * qx)
    let kk = y + a * qx;
    assert(g0 * a == b as int * (-kk) + 1) by (nonlinear_arith)
        requires
            x * a + y * b == 1,
            x == b as int * qx + g0,
            kk == y + a * qx,
    ;
    lemma_mod_multiples_vanish(-kk, 1, b as int);
    lemma_small_mod(1, b as nat);
    assert((g0 * a) % (b as int) == 1);
    assert(g0 != 0) by {
        if g0 == 0 {
            assert(g0 * a == 0) by (nonlinear_arith)
                requires
                    g0 == 0,
            ;
            lemma_small_mod(0, b as nat);
        }
    }
    let g = g0 as nat;
    assert((g * a) % b == 1) by {
        assert(g0 * a == (g * a) as int);
    }
    assert(1 <= g < b && is_mod_inverse(a, b, g));
}

/// Greatest common divisor of two strictly positive integers.
pub fn gcd(mut n: u64, mut m: u64) -> (r: u64)
    requires
        n >= 1,
        m >= 1,
    ensures
        r == spec_gcd(n as nat, m as nat),
{
    let ghost n0 = n;
    let ghost m0 = m;
    while m != 0
        invariant
            n >= 1,
            spec_gcd(n as nat, m as nat) == spec_gcd(n0 as nat, m0 as nat),
        decreases m,
    {
        if m < n {
            let t = m;
            m = n;
            n = t;
        } else {
            proof {
                lemma_gcd_comm(n as nat, m as nat);
            }
        }
        m = m % n;
    }
    n
}

/// Greatest common divisor guarded by a domain check: zero operands are
/// rejected with an error instead of computed on.
pub fn try_gcd(n: u64, m: u64, zero: u64) -> (r: Result<u64, &'static str>)
    requires
        zero == 0,
    ensures
        r is Err <==> (n == 0 || m == 0),
        r matches Ok(g) ==> g == spec_gcd(n as nat, m as nat),
{
    if n <= zero || m <= zero {
        return Err("zero or negative values not supported");
    }
    Ok(gcd(n, m))
}

/// Least common multiple of two strictly positive integers.
pub fn lcm(a: u64, b: u64) -> (r: u64)
    requires
        a >= 1,
        b >= 1,
        a * b <= u64::MAX,
    ensures
        r == spec_lcm(a as nat, b as nat),
{
    let g = gcd(a, b);
    proof {
        lemma_gcd_divides(a as nat, b as nat);
    }
    a * b / g
}

/// What the brute-force modular-inverse search returns: `1` when the modulus
/// is `1`, `0` when the arguments are equal, and otherwise the least positive
/// inverse of `a` modulo `b`.
pub open spec fn meziriac_post(a: nat, b: nat, g: nat) -> bool {
    if b == 1 {
        g == 1
    } else if a == b {
        g == 0
    } else {
        1 <= g && is_mod_inverse(a, b, g) && (forall|h: nat|
            1 <= h < g ==> !is_mod_inverse(a, b, h))
    }
}

/// Brute-force search for the least positive modular inverse of `a` modulo
/// `b` (the method of Bachet de Meziriac); aside from the two special cases
/// it requires coprime arguments, so that an inverse exists.
pub fn meziriac(a: u64, b: u64) -> (r: Result<u64, &'static str>)
    requires
        a >= 1,
        b >= 1,
        b == 1 || a == b || spec_gcd(a as nat, b as nat) == 1,
    ensures
        r matches Ok(g) && meziriac_post(a as nat, b as nat, g as nat) && g <= b,
{
    if b == 1 {
        return Ok(1);
    }
    if a == b {
        return Ok(0);
    }
    proof {
        lemma_inverse_exists(a as nat, b as nat);
    }
    let ghost g0 = choose|g0: nat| 1 <= g0 < b && is_mod_inverse(a as nat, b as nat, g0);
    let mut g: u64 = 1;
    while g < u64::MAX
        invariant
            1 <= g <= g0,
            1 <= g0 < b,
            is_mod_inverse(a as nat, b as nat, g0),
            forall|h: nat| 1 <= h < g ==> !is_mod_inverse(a as nat, b as nat, h),
        ensures
            is_mod_inverse(a as nat, b as nat, g as nat),
            g < b,
            forall|h: nat| 1 <= h < g ==> !is_mod_inverse(a as nat, b as nat, h),
        decreases u64::MAX - g,
    {
        proof {
            assert((g as u128) * (a as u128) <= (u64::MAX as u128) * (u64::MAX as u128))
                by (nonlinear_arith)
                requires
                    g <= u64::MAX as u128 && a <= u64::MAX as u128,
            ;
        }
        if ((g as u128) * (a as u128)) % (b as u128) == 1 {
            assert(is_mod_inverse(a as nat, b as nat, g as nat));
            break ;
        }
        assert(g < g0);
        g = g + 1;
    }
    Ok(g)
}

/// The canonical shift span used by the intersection formula: the absolute
/// difference of the two normalized shifts.
pub open spec fn spec_span(s1n: nat, s2n: nat) -> nat {
    if s2n >= s1n {
        (s2n - s1n) as nat
    } else {
        (s1n - s2n) as nat
    }
}

/// Exactly what `intersection` computes: the empty class when either operand
/// is empty or the congruences are incompatible, and otherwise the
/// generalized-CRT combination of the two classes, whose shift is built from
/// the least modular inverse returned by the brute-force search.
pub open spec fn intersection_post(m1: nat, m2: nat, s1: nat, s2: nat, m: nat, s: nat) -> bool {
    if m1 == 0 || m2 == 0 {
        m == 0 && s == 0
    } else {
        let s1n = s1 % m1;
        let s2n = s2 % m2;
        let d = spec_gcd(m1, m2);
        let span = spec_span(s1n, s2n);
        if span % d != 0 {
            m == 0 && s == 0
        } else {
            let md1 = m1 / d;
            let md2 = m2 / d;
            m == md1 * md2 * d && exists|g: nat|
                meziriac_post(md1, md2, g) && s == (s1n + g * span * md1) % m
        }
    }
}

/// The modulus produced by a compatible intersection is the least common
/// multiple of the operand moduli.
pub proof fn lemma_lcm_is_quotient_product(m1: nat, m2: nat)
    requires
        m1 >= 1,
        m2 >= 1,
    ensures
        spec_lcm(m1, m2) == (m1 / spec_gcd(m1, m2)) * (m2 / spec_gcd(m1, m2)) * spec_gcd(m1, m2),
        m1 <= spec_lcm(m1, m2),
        m2 <= spec_lcm(m1, m2),
        m1 / spec_gcd(m1, m2) >= 1,
        m2 / spec_gcd(m1, m2) >= 1,
{
    let d = spec_gcd(m1, m2);
    lemma_gcd_divides(m1, m2);
    lemma_fundamental_div_mod(m1 as int, d as int);
    lemma_fundamental_div_mod(m2 as int, d as int);
    let md1 = m1 / d;
    let md2 = m2 / d;
    assert(md1 >= 1 && md2 >= 1) by (nonlinear_arith)
        requires
            m1 as int == d as int * md1 as int,
            m2 as int == d as int * md2 as int,
            m1 >= 1,
            m2 >= 1,
            d >= 1,
            md1 >= 0,
            md2 >= 0,
    ;
    assert(m1 * m2 == (md1 * md2 * d) * d) by (nonlinear_arith)
        requires
            m1 as int == d as int * md1 as int,
            m2 as int == d as int * md2 as int,
    ;
    lemma_fundamental_div_mod_converse(
        (m1 * m2) as int,
        d as int,
        (md1 * md2 * d) as int,
        0,
    );
    assert(spec_lcm(m1, m2) == md1 * md2 * d);
    assert(m1 <= md1 * md2 * d && m2 <= md1 * md2 * d) by (nonlinear_arith)
        requires
            m1 as int == d as int * md1 as int,
            m2 as int == d as int * md2 as int,
            md1 >= 1,
            md2 >= 1,
            d >= 1,
    ;
}

/// Core implementation of the intersection of two residual classes, solving
/// `x == s1 (mod m1)` and `x == s2 (mod m2)` by a generalized Chinese
/// Remainder Theorem combination (with the documented absolute-span quirk).
pub fn intersection(m1: u64, m2: u64, s1: u64, s2: u64) -> (r: Result<(u64, u64), &'static str>)
    requires
        m1 >= 1 && m2 >= 1 ==> spec_lcm(m1 as nat, m2 as nat) <= u64::MAX,
    ensures
        r matches Ok((m, s)) && intersection_post(
            m1 as nat,
            m2 as nat,
            s1 as nat,
            s2 as nat,
            m as nat,
            s as nat,
        ),
        r matches Ok((m, s)) && (m == 0 ==> s == 0) && (m > 0 ==> s < m),
{
    if m1 == 0 || m2 == 0 {
        // the intersection of the empty class and anything is empty
        return Ok((0, 0));
    }
    // normalize the shifts
    let s1n = s1 % m1;
    let s2n = s2 % m2;

    // split off the common divisor
    let d = gcd(m1, m2);
    proof {
        lemma_gcd_divides(m1 as nat, m2 as nat);
        lemma_lcm_is_quotient_product(m1 as nat, m2 as nat);
    }
    let md1 = m1 / d;
    let md2 = m2 / d;
    let span = if s2n >= s1n {
        s2n - s1n
    } else {
        s1n - s2n
    };

    if d != 1 && span % d != 0 {
        // incompatible congruences: no intersection
        return Ok((0, 0));
    }
    proof {
        if d == 1 {
            lemma_small_mod(0, 1);
            assert(span as nat % 1nat == 0nat) by {
                lemma_fundamental_div_mod_converse(span as int, 1, span as int, 0);
            }
        }
        lemma_gcd_quotients_coprime(m1 as nat, m2 as nat);
    }
    proof {
        assert(md1 * md2 <= md1 * md2 * d && md1 * md2 * d == (m1 as nat / spec_gcd(
            m1 as nat,
            m2 as nat,
        )) * (m2 as nat / spec_gcd(m1 as nat, m2 as nat)) * spec_gcd(m1 as nat, m2 as nat))
            by (nonlinear_arith)
            requires
                d == spec_gcd(m1 as nat, m2 as nat),
                md1 == m1 as nat / spec_gcd(m1 as nat, m2 as nat),
                md2 == m2 as nat / spec_gcd(m1 as nat, m2 as nat),
                d >= 1,
                md1 >= 0,
                md2 >= 0,
        ;
    }
    let m = md1 * md2 * d;
    let g = match meziriac(md1, md2) {
        Ok(g) => g,
        Err(e) => {
            return Err(e);
        },
    };
    proof {
        let gi = g as int;
        let sp = span as int;
        let m1i = md1 as int;
        let m2i = md2 as int;
        let s1i = s1n as int;
        assert(gi * m1i <= u64::MAX as int) by (nonlinear_arith)
            requires
                0 <= gi <= m2i,
                0 <= m1i,
                m1i * m2i <= u64::MAX as int,
        ;
        assert(gi * sp <= (u64::MAX as int) * (u64::MAX as int)) by (nonlinear_arith)
            requires
                0 <= gi <= u64::MAX as int,
                0 <= sp <= u64::MAX as int,
        ;
        assert(gi * sp * m1i == (gi * m1i) * sp && (gi * m1i) * sp <= (u64::MAX as int) * (
        u64::MAX as int)) by (nonlinear_arith)
            requires
                0 <= gi * m1i <= u64::MAX as int,
                0 <= sp <= u64::MAX as int,
        ;
        assert(gi * sp * m1i + s1i <= u128::MAX as int);
    }
    let s_wide = ((s1n as u128) + (g as u128) * (span as u128) * (md1 as u128)) % (m as u128);
    proof {
        lemma_mod_bound((s1n + g * span * md1) as int, m as int);
    }
    let s = s_wide as u64;
    Ok((m, s))
}


/// If `d` divides `m` and `m` divides `x`, then `d` divides `x`.
proof fn lemma_mod_divisor_chain(x: int, d: int, m: int)
    requires
        d >= 1,
        m >= 1,
        m % d == 0,
        x % m == 0,
    ensures
        x % d == 0,
{
    lemma_fundamental_div_mod(x, m);
    lemma_fundamental_div_mod(m, d);
    let k = x / m;
    let j = m / d;
    assert(x == (j * k) * d) by (nonlinear_arith)
        requires
            x == m * k,
            m == d * j,
    ;
    lemma_mod_multiples_basic(j * k, d);
}

/// Sums and differences of multiples of `d` are multiples of `d`.
proof fn lemma_mod_zero_linear(x: int, y: int, d: int)
    requires
        d >= 1,
        x % d == 0,
        y % d == 0,
    ensures
        (x + y) % d == 0,
        (x - y) % d == 0,
{
    lemma_fundamental_div_mod(x, d);
    lemma_fundamental_div_mod(y, d);
    let a = x / d;
    let b = y / d;
    assert(x + y == (a + b) * d && x - y == (a - b) * d) by (nonlinear_arith)
        requires
            x == d * a,
            y == d * b,
    ;
    lemma_mod_multiples_basic(a + b, d);
    lemma_mod_multiples_basic(a - b, d);
}

/// Euclid's lemma for coprime integers: if `q` divides `a * p` and `p`, `q`
/// are coprime, then `q` divides `a`.
proof fn lemma_coprime_divides_factor(p: nat, q: nat, a: int)
    requires
        p >= 1,
        q >= 1,
        spec_gcd(p, q) == 1,
        (a * p) % (q as int) == 0,
    ensures
        a % (q as int) == 0,
{
    lemma_bezout(p, q);
    let (x, y) = choose|x: int, y: int| #[trigger] is_bezout_pair(p, q, x, y);
    lemma_fundamental_div_mod(a * p, q as int);
    let k = (a * p) / q as int;
    // a == a * (x*p + y*q) == x*(a*p) + (a*y)*q == (x*k + a*y) * q
    assert(a == (x * k + a * y) * q) by (nonlinear_arith)
        requires
            x * p + y * q == 1,
            a * p == q as int * k,
    ;
    lemma_mod_multiples_basic(x * k + a * y, q as int);
}

/// A common multiple of `m1` and `m2` is a multiple of their least common
/// multiple.
proof fn lemma_lcm_divides(m1: nat, m2: nat, x: int)
    requires
        m1 >= 1,
        m2 >= 1,
        x % (m1 as int) == 0,
        x % (m2 as int) == 0,
    ensures
        x % (spec_lcm(m1, m2) as int) == 0,
{
    let d = spec_gcd(m1, m2);
    lemma_gcd_divides(m1, m2);
    lemma_gcd_quotients_coprime(m1, m2);
    lemma_lcm_is_quotient_product(m1, m2);
    lemma_fundamental_div_mod(m1 as int, d as int);
    lemma_fundamental_div_mod(m2 as int, d as int);
    let md1 = m1 / d;
    let md2 = m2 / d;
    lemma_fundamental_div_mod(x, m1 as int);
    lemma_fundamental_div_mod(x, m2 as int);
    let a = x / m1 as int;
    let b = x / m2 as int;
    // d * (md1 * a) == d * (md2 * b), so md1 * a == md2 * b
    assert(a * md1 == md2 as int * b) by (nonlinear_arith)
        requires
            x == m1 as int * a,
            x == m2 as int * b,
            m1 as int == d as int * md1 as int,
            m2 as int == d as int * md2 as int,
            d >= 1,
    ;
    lemma_mod_multiples_basic(b, md2 as int);
    assert((a * md1 as int) % (md2 as int) == 0) by {
        assert(a * md1 as int == b * md2 as int) by (nonlinear_arith)
            requires
                a * md1 == md2 as int * b,
        ;
    }
    lemma_coprime_divides_factor(md1, md2, a);
    lemma_fundamental_div_mod(a, md2 as int);
    let c = a / md2 as int;
    assert(x == (md1 * md2 * d) as int * c) by (nonlinear_arith)
        requires
            x == m1 as int * a,
            m1 as int == d as int * md1 as int,
            a == md2 as int * c,
    ;
    assert(spec_lcm(m1, m2) == md1 * md2 * d);
    lemma_mod_multiples_basic(c, (md1 * md2 * d) as int);
    assert(x == c * (md1 * md2 * d) as int) by (nonlinear_arith)
        requires
            x == (md1 * md2 * d) as int * c,
    ;
}


/// With the smaller shift on the left, the intersection formula is exact:
/// the class it returns holds precisely the integers lying in both operand
/// classes. (With the larger shift on the left, the documented absolute-span
/// behavior is reproduced instead, and this equivalence need not hold.)
pub proof fn lemma_intersection_exact(m1: nat, m2: nat, s1: nat, s2: nat, m: nat, s: nat, v: int)
    requires
        m1 >= 1 ==> s1 < m1,
        m2 >= 1 ==> s2 < m2,
        m1 == 0 ==> s1 == 0,
        m2 == 0 ==> s2 == 0,
        s1 <= s2,
        intersection_post(m1, m2, s1, s2, m, s),
    ensures
        (m >= 1 && (v - s) % (m as int) == 0) == ((m1 >= 1 && (v - s1) % (m1 as int) == 0) && (m2
            >= 1 && (v - s2) % (m2 as int) == 0)),
{
    if m1 == 0 || m2 == 0 {
        return ;
    }
    lemma_small_mod(s1, m1);
    lemma_small_mod(s2, m2);
    let d = spec_gcd(m1, m2);
    lemma_gcd_divides(m1, m2);
    let md1 = m1 / d;
    let md2 = m2 / d;
    lemma_fundamental_div_mod(m1 as int, d as int);
    lemma_fundamental_div_mod(m2 as int, d as int);
    let span = (s2 - s1) as nat;
    assert(spec_span(s1, s2) == span);
    if span % d != 0 {
        // incompatible congruences: the result is empty, and so is the true
        // intersection
        if (v - s1) % (m1 as int) == 0 && (v - s2) % (m2 as int) == 0 {
            lemma_mod_divisor_chain(v - s1, d as int, m1 as int);
            lemma_mod_divisor_chain(v - s2, d as int, m2 as int);
            lemma_mod_zero_linear(v - s1, v - s2, d as int);
            assert((v - s1) - (v - s2) == span as int);
            assert((span as int) % (d as int) == 0);
        }
    } else {
        lemma_gcd_quotients_coprime(m1, m2);
        lemma_lcm_is_quotient_product(m1, m2);
        let g = choose|g: nat|
            meziriac_post(md1, md2, g) && s == (s1 + #[trigger] (g * span * md1)) % m;
        assert(m == md1 * md2 * d);
        assert(m == spec_lcm(m1, m2));
        assert(m >= m1 >= 1 && m >= m2 >= 1);
        let s0 = (s1 + g * span * md1) as int;
        lemma_mod_bound(s0, m as int);
        lemma_fundamental_div_mod(s0, m as int);
        lemma_fundamental_div_mod(span as int, d as int);
        let t = span / d;
        // s0 - s1 is a multiple of m1
        assert(s0 - s1 == (g * t) as int * (m1 as int)) by (nonlinear_arith)
            requires
                s0 == s1 + g * span * md1,
                span as int == d as int * t as int,
                m1 as int == d as int * md1 as int,
        ;
        lemma_mod_multiples_basic((g * t) as int, m1 as int);
        assert((s0 - s1) % (m1 as int) == 0);
        // s0 - s2 is a multiple of m2
        if md2 == 1 {
            assert(m2 == d);
            assert(s0 - s2 == (t as int * ((g * md1) as int - 1)) * (m2 as int))
                by (nonlinear_arith)
                requires
                    s0 == s1 + g * span * md1,
                    span == s2 - s1,
                    span as int == d as int * t as int,
                    m2 == d,
            ;
            lemma_mod_multiples_basic(t as int * ((g * md1) as int - 1), m2 as int);
        } else {
            assert(md1 != md2) by {
                if md1 == md2 {
                    lemma_mod_self_0(md1 as int);
                    assert(spec_gcd(md1, md2) == spec_gcd(md2, 0nat));
                }
            }
            assert(1 <= g && (g * md1) % md2 == 1);
            lemma_fundamental_div_mod((g * md1) as int, md2 as int);
            let k = (g * md1) as int / md2 as int;
            assert((g * md1) as int == md2 as int * k + 1);
            assert(s0 - s2 == (t as int * k) * (m2 as int)) by (nonlinear_arith)
                requires
                    s0 == s1 + g * span * md1,
                    span == s2 - s1,
                    span as int == d as int * t as int,
                    (g * md1) as int == md2 as int * k + 1,
                    m2 as int == d as int * md2 as int,
            ;
            lemma_mod_multiples_basic(t as int * k, m2 as int);
        }
        assert((s0 - s2) % (m2 as int) == 0);
        // s is congruent to s0, so also to s1 modulo m1 and to s2 modulo m2
        let q0 = s0 / m as int;
        assert(s as int == s0 - m as int * q0);
        assert(m as int == (md2 as int) * (m1 as int) && m as int == (md1 as int) * (m2 as int))
            by (nonlinear_arith)
            requires
                m == md1 * md2 * d,
                m1 as int == d as int * md1 as int,
                m2 as int == d as int * md2 as int,
        ;
        lemma_mod_multiples_basic(md2 as int, m1 as int);
        lemma_mod_multiples_basic(md1 as int, m2 as int);
        assert((m as int) % (m1 as int) == 0 && (m as int) % (m2 as int) == 0);
        assert((m as int * q0) % (m1 as int) == 0) by {
            assert(m as int * q0 == (md2 as int * q0) * m1 as int) by (nonlinear_arith)
                requires
                    m as int == (md2 as int) * (m1 as int),
            ;
            lemma_mod_multiples_basic(md2 as int * q0, m1 as int);
        }
        assert((m as int * q0) % (m2 as int) == 0) by {
            assert(m as int * q0 == (md1 as int * q0) * m2 as int) by (nonlinear_arith)
                requires
                    m as int == (md1 as int) * (m2 as int),
            ;
            lemma_mod_multiples_basic(md1 as int * q0, m2 as int);
        }
        lemma_mod_zero_linear(s0 - s1, m as int * q0, m1 as int);
        assert((s as int - s1) % (m1 as int) == 0);
        lemma_mod_zero_linear(s0 - s2, m as int * q0, m2 as int);
        assert((s as int - s2) % (m2 as int) == 0);
        // forward: a member of the result lies in both operand classes
        if (v - s) % (m as int) == 0 {
            lemma_mod_divisor_chain(v - s, m1 as int, m as int);
            lemma_mod_divisor_chain(v - s, m2 as int, m as int);
            lemma_mod_zero_linear(v - s, s as int - s1, m1 as int);
            assert((v - s) + (s as int - s1) == v - s1);
            assert((v - s1) % (m1 as int) == 0);
            lemma_mod_zero_linear(v - s, s as int - s2, m2 as int);
            assert((v - s2) % (m2 as int) == 0);
        }
        // backward: a member of both operand classes lies in the result
        if (v - s1) % (m1 as int) == 0 && (v - s2) % (m2 as int) == 0 {
            lemma_mod_zero_linear(v - s1, s as int - s1, m1 as int);
            assert((v - s1) - (s as int - s1) == v - s);
            assert((v - s) % (m1 as int) == 0);
            lemma_mod_zero_linear(v - s2, s as int - s2, m2 as int);
            assert((v - s) % (m2 as int) == 0);
            lemma_lcm_divides(m1, m2, v - s);
        }
    }
}

/// Converts a remainder computed by `%` on `i128` into the mathematical
/// (Euclidean) residue.
pub(crate) fn mod_euclid(value: i128, m: i128) -> (r: i128)
    requires
        1 <= m <= u64::MAX,
    ensures
        r == (value as int) % (m as int),
{
    let t = value % m;
    let r = if t < 0 {
        t + m
    } else {
        t
    };
    proof {
        let v = value as int;
        let mi = m as int;
        if value < 0 {
            let e2 = (-v) % mi;
            let q2 = (-v) / mi;
            lemma_fundamental_div_mod(-v, mi);
            assert(-v == mi * q2 + e2);
            assert(v == (-q2) * mi + (-e2)) by (nonlinear_arith)
                requires
                    -v == mi * q2 + e2,
            ;
            if t == 0 {
                lemma_fundamental_div_mod_converse(v, mi, -q2, 0);
            } else {
                assert(v == (-q2 - 1) * mi + (mi - e2)) by (nonlinear_arith)
                    requires
                        -v == mi * q2 + e2,
                ;
                lemma_fundamental_div_mod_converse(v, mi, -q2 - 1, t as int + mi);
            }
        }
    }
    r
}

} // verus!
