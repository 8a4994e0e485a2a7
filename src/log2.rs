use vstd::arithmetic::div_mod::*;
use vstd::arithmetic::power::*;
use vstd::prelude::*;

verus! {

/// Scale of the mantissas: fixed-point numbers with 62 fractional bits.
pub open spec fn mant() -> nat {
    0x4000_0000_0000_0000
}

/// `2^32`, the power of `base` whose logarithm the estimates bound: they know `log2(base)` to 32
/// fractional bits.
pub open spec fn span() -> nat {
    0x1_0000_0000
}

/// Largest `p` with `2^p <= x` (zero for `x < 2`).
pub open spec fn log2_floor(x: nat) -> nat
    decreases x,
{
    if x < 2 {
        0
    } else {
        1 + log2_floor(x / 2)
    }
}

/// Binary logarithm of `b` by repeated squaring: after `k` squarings, `(a, y)` with
/// `b^(2^k)` close to `2^a * y / mant()` and `mant() <= y < 2 * mant()`. Each square of the mantissa
/// is rounded up when `up` holds and down otherwise, so that the result bounds the logarithm from
/// above or from below.
pub open spec fn log2_run(b: nat, k: nat, up: bool) -> (nat, nat)
    decreases k,
{
    if k == 0 {
        let a = log2_floor(b);
        (a, b * mant() / pow(2, a) as nat)
    } else {
        let prev = log2_run(b, (k - 1) as nat, up);
        let a = prev.0;
        let y = prev.1;
        let sq = if up {
            ((y * y + mant() - 1) as nat) / mant()
        } else {
            y * y / mant()
        };
        if sq >= 2 * mant() {
            (
                2 * a + 1,
                if up {
                    (sq + 1) / 2
                } else {
                    sq / 2
                },
            )
        } else {
            (2 * a, sq)
        }
    }
}

/// `2^32 * log2(b)` rounded up to an integer, or above it.
pub open spec fn log2_hi(b: nat) -> nat {
    let s = log2_run(b, 32, true);
    if s.1 > mant() {
        s.0 + 1
    } else {
        s.0
    }
}

/// `2^32 * log2(b)` rounded down to an integer, or below it.
pub open spec fn log2_lo(b: nat) -> nat {
    log2_run(b, 32, false).0
}

proof fn lemma_pow2_values()
    ensures
        pow(2, 62) == mant(),
        pow(2, 32) == span(),
{
    reveal_with_fuel(pow, 63);
}

/// `log2_floor(b)` is the exponent of the highest power of two in `b`.
proof fn lemma_log2_floor_bounds(x: nat)
    requires
        x >= 1,
    ensures
        pow(2, log2_floor(x)) <= x < pow(2, log2_floor(x) + 1),
    decreases x,
{
    reveal(pow);
    if x >= 2 {
        lemma_log2_floor_bounds(x / 2);
    }
}

/// One squaring keeps the bound: from above when rounding up, from below when rounding down.
proof fn lemma_square_step(p: int, q: int, y: int, m: int, sq: int, up: bool)
    requires
        p > 0,
        q > 0,
        m > 0,
        y > 0,
        up ==> p * m <= q * y,
        !up ==> q * y <= p * m,
        up ==> sq * m >= y * y,
        !up ==> sq * m <= y * y,
    ensures
        up ==> (p * p) * m <= (q * q) * sq,
        !up ==> (q * q) * sq <= (p * p) * m,
{
    assert(p * m > 0 && q * y > 0) by (nonlinear_arith)
        requires
            p > 0,
            q > 0,
            m > 0,
            y > 0,
    ;
    if up {
        assert((p * m) * (p * m) <= (q * y) * (q * y)) by (nonlinear_arith)
            requires
                0 < p * m <= q * y,
        ;
        assert((p * p) * m * m <= (q * q) * sq * m) by (nonlinear_arith)
            requires
                (p * m) * (p * m) <= (q * y) * (q * y),
                sq * m >= y * y,
                q > 0,
        ;
        assert((p * p) * m <= (q * q) * sq) by (nonlinear_arith)
            requires
                (p * p) * m * m <= (q * q) * sq * m,
                m > 0,
        ;
    } else {
        assert((q * y) * (q * y) <= (p * m) * (p * m)) by (nonlinear_arith)
            requires
                0 < q * y <= p * m,
        ;
        assert((q * q) * sq * m <= (p * p) * m * m) by (nonlinear_arith)
            requires
                (q * y) * (q * y) <= (p * m) * (p * m),
                sq * m <= y * y,
                q > 0,
        ;
        assert((q * q) * sq <= (p * p) * m) by (nonlinear_arith)
            requires
                (q * q) * sq * m <= (p * p) * m * m,
                m > 0,
        ;
    }
}

/// What the squarings keep: the mantissa stays in `[mant(), 2 * mant())`, the exponent grows
/// from `2^k` to below `9 * 2^k`, and `2^a * y / mant()` bounds `b^(2^k)` from the chosen side.
pub proof fn lemma_log2_run(b: nat, k: nat, up: bool)
    requires
        2 <= b <= 256,
    ensures
        ({
            let (a, y) = log2_run(b, k, up);
            let p = pow(b as int, pow(2, k) as nat);
            &&& mant() <= y < 2 * mant()
            &&& pow(2, k) <= a < 9 * pow(2, k)
            &&& up ==> p * mant() <= pow(2, a) * y
            &&& !up ==> pow(2, a) * y <= p * mant()
        }),
    decreases k,
{
    let m = mant() as int;
    lemma_pow2_values();
    lemma_pow_positive(2, k);
    if k == 0 {
        let a = log2_floor(b);
        lemma_log2_floor_bounds(b);
        let pa = pow(2, a);
        reveal(pow);
        assert(pow(2, 0) == 1);
        lemma_pow1(b as int);
        assert(a <= 8) by {
            if a > 8 {
                lemma_pow_increases(2, 9, a);
                assert(pow(2, 9) == 512) by {
                    reveal_with_fuel(pow, 10);
                }
            }
        }
        assert(a >= 1) by {
            if a == 0 {
                assert(pow(2, 1) == 2);
            }
        }
        let rest = pow(2, (62 - a) as nat);
        lemma_pow_positive(2, (62 - a) as nat);
        lemma_pow_adds(2, a, (62 - a) as nat);
        assert(pa * rest == m);
        let y = (b * m / pa) as nat;
        assert(b * m == pa * (b * rest)) by (nonlinear_arith)
            requires
                pa * rest == m,
        ;
        lemma_pow_positive(2, a);
        lemma_div_multiples_vanish(b * rest, pa);
        assert(y == b * rest);
        lemma_pow_adds(2, a, 1);
        assert(pow(2, a + 1) == pa * 2);
        assert(m <= y < 2 * m) by (nonlinear_arith)
            requires
                y == b * rest,
                pa * rest == m,
                pa <= b < pa * 2,
                rest > 0,
        ;
        assert(pa * y == b * m) by (nonlinear_arith)
            requires
                y == b * rest,
                pa * rest == m,
        ;
    } else {
        let k1 = (k - 1) as nat;
        lemma_log2_run(b, k1, up);
        let (a, y) = log2_run(b, k1, up);
        let e = pow(2, k1);
        let p = pow(b as int, e as nat);
        let q = pow(2, a);
        lemma_pow_positive(2, k1);
        lemma_pow_positive(b as int, e as nat);
        lemma_pow_positive(2, a);
        assert(pow(2, k) == 2 * e) by {
            reveal(pow);
        }
        lemma_pow_adds(b as int, e as nat, e as nat);
        assert(pow(b as int, pow(2, k) as nat) == p * p);
        lemma_pow_adds(2, a, a);
        lemma_pow_adds(2, 2 * a, 1);
        lemma_pow1(2);
        let sq: nat = if up {
            ((y * y + mant() - 1) as nat) / mant()
        } else {
            y * y / mant()
        };
        lemma_fundamental_div_mod((y * y + m - 1) as int, m);
        lemma_fundamental_div_mod((y * y) as int, m);
        if up {
            assert(sq * m >= y * y);
            assert(sq * m <= y * y + m - 1);
        } else {
            assert(sq * m <= y * y);
            assert(sq * m > y * y - m);
        }
        lemma_square_step(p, q, y as int, m, sq as int, up);
        assert(y * y < 4 * m * m) by (nonlinear_arith)
            requires
                0 <= y < 2 * m,
        ;
        assert(y * y >= m * m) by (nonlinear_arith)
            requires
                0 <= m <= y,
        ;
        assert(y * y <= 4 * m * m - 4 * m + 1) by (nonlinear_arith)
            requires
                0 <= y <= 2 * m - 1,
        ;
        assert(sq < 4 * m) by (nonlinear_arith)
            requires
                sq * m <= y * y + m - 1,
                y * y <= 4 * m * m - 4 * m + 1,
                m > 1,
        ;
        assert(sq >= m) by (nonlinear_arith)
            requires
                sq * m > y * y - m,
                y * y >= m * m,
                m > 0,
        ;
        if sq >= 2 * m {
            let y2: nat = if up {
                (sq + 1) / 2
            } else {
                sq / 2
            };
            if up {
                assert((p * p) * m <= (2 * (q * q)) * y2) by (nonlinear_arith)
                    requires
                        (p * p) * m <= (q * q) * sq,
                        sq <= 2 * y2,
                        q > 0,
                ;
            } else {
                assert((2 * (q * q)) * y2 <= (p * p) * m) by (nonlinear_arith)
                    requires
                        (q * q) * sq <= (p * p) * m,
                        2 * y2 <= sq,
                        q > 0,
                        y2 >= 0,
                ;
            }
        }
    }
}

/// `2^log2_hi(b)` bounds `b^(2^32)` from above.
pub proof fn lemma_log2_hi(b: nat)
    requires
        2 <= b <= 256,
    ensures
        pow(b as int, span()) <= pow(2, log2_hi(b)),
        span() <= log2_hi(b) <= 9 * span(),
{
    lemma_log2_run(b, 32, true);
    lemma_pow2_values();
    let (a, y) = log2_run(b, 32, true);
    let p = pow(b as int, span());
    let q = pow(2, a);
    let m = mant() as int;
    lemma_pow_positive(2, a);
    lemma_pow_adds(2, a, 1);
    lemma_pow1(2);
    if y > mant() {
        assert(p < 2 * q) by (nonlinear_arith)
            requires
                p * m <= q * y,
                y < 2 * m,
                m > 0,
                q > 0,
        ;
    } else {
        assert(p <= q) by (nonlinear_arith)
            requires
                p * m <= q * y,
                y == m,
                m > 0,
        ;
    }
}

/// `2^log2_lo(b)` bounds `b^(2^32)` from below.
pub proof fn lemma_log2_lo(b: nat)
    requires
        2 <= b <= 256,
    ensures
        pow(2, log2_lo(b)) <= pow(b as int, span()),
        span() <= log2_lo(b) <= 9 * span(),
{
    lemma_log2_run(b, 32, false);
    lemma_pow2_values();
    let (a, y) = log2_run(b, 32, false);
    let p = pow(b as int, span());
    let q = pow(2, a);
    let m = mant() as int;
    lemma_pow_positive(2, a);
    assert(q <= p) by (nonlinear_arith)
        requires
            q * y <= p * m,
            y >= m,
            m > 0,
            q > 0,
    ;
}

/// Computes `log2_floor(x)` by halving.
fn log2_floor_exec(x: u128) -> (p: u128)
    ensures
        p == log2_floor(x as nat),
{
    let mut y: u128 = x;
    let mut p: u128 = 0;
    while y >= 2
        invariant
            p + log2_floor(y as nat) == log2_floor(x as nat),
            p + y <= x,
        decreases y,
    {
        y = y / 2;
        p = p + 1;
    }
    p
}

/// Computes `log2_run(base, 32, up)`.
pub fn log2_fixed(base: usize, up: bool) -> (r: (u128, u128))
    requires
        2 <= base <= 256,
    ensures
        r.0 == log2_run(base as nat, 32, up).0,
        r.1 == log2_run(base as nat, 32, up).1,
{
    proof {
        lemma_log2_run(base as nat, 0, up);
        lemma_pow2_values();
        lemma_pow0(2);
    }
    let a0 = log2_floor_exec(base as u128);
    let mut pw: u128 = 1;
    let mut i: u128 = 0;
    while i < a0
        invariant
            i <= a0 < 9,
            pw == pow(2, i as nat),
        decreases a0 - i,
    {
        proof {
            lemma_pow_increases(2, i as nat, 8);
            assert(pow(2, 8) == 256) by {
                reveal_with_fuel(pow, 9);
            }
            reveal(pow);
        }
        pw = pw * 2;
        i = i + 1;
    }
    let m: u128 = 0x4000_0000_0000_0000;
    proof {
        lemma_pow_positive(2, a0 as nat);
    }
    let mut a: u128 = a0;
    let mut y: u128 = base as u128 * m / pw;
    let mut k: u128 = 0;
    while k < 32
        invariant
            k <= 32,
            2 <= base <= 256,
            m == mant(),
            a == log2_run(base as nat, k as nat, up).0,
            y == log2_run(base as nat, k as nat, up).1,
        decreases 32 - k,
    {
        proof {
            lemma_log2_run(base as nat, k as nat, up);
            lemma_pow_increases(2, k as nat, 32);
            lemma_pow2_values();
            assert(y * y < 0x4000_0000_0000_0000_0000_0000_0000_0000) by (nonlinear_arith)
                requires
                    y < 0x8000_0000_0000_0000u128,
            ;
        }
        let sq = if up {
            (y * y + (m - 1)) / m
        } else {
            y * y / m
        };
        if sq >= 2 * m {
            a = 2 * a + 1;
            y = if up {
                (sq + 1) / 2
            } else {
                sq / 2
            };
        } else {
            a = 2 * a;
            y = sq;
        }
        k = k + 1;
    }
    (a, y)
}

} // verus!
