//! IEEE-754 double encodings of integers.
//!
//! Counters are published as double values; this module gives the bit
//! pattern of the double nearest to an unsigned integer without any
//! floating-point operation.

use vstd::prelude::*;

verus! {

/// `2^k`.
pub open spec fn pow2(k: nat) -> nat
    decreases k,
{
    if k == 0 {
        1
    } else {
        2 * pow2((k - 1) as nat)
    }
}

/// Position of the highest set bit of `n` (`0` for `n < 2`).
pub open spec fn msb(n: nat) -> nat
    decreases n,
{
    if n < 2 {
        0
    } else {
        1 + msb(n / 2)
    }
}

/// The 53-bit significand of the double nearest to `n >= 1`: `n` itself,
/// shifted up, when it fits; otherwise `n` rounded to 53 significant bits,
/// ties to even (the result can reach `2^53`, which carries into the
/// exponent).
pub open spec fn significand(n: nat) -> nat {
    let e = msb(n);
    if e <= 52 {
        n * pow2((52 - e) as nat)
    } else {
        let s = (e - 52) as nat;
        let q = n / pow2(s);
        let r = n % pow2(s);
        let half = pow2((s - 1) as nat);
        if r > half || (r == half && q % 2 == 1) {
            q + 1
        } else {
            q
        }
    }
}

/// The bits of the double nearest to `n` (what `n as f64` gives): zero for
/// zero, otherwise biased exponent `1023 + msb(n)` and the significand
/// without its leading bit.
pub open spec fn f64_bits_of(n: nat) -> nat {
    if n == 0 {
        0
    } else {
        ((1023 + msb(n)) * pow2(52) + significand(n) - pow2(52)) as nat
    }
}

proof fn lemma_pow2_pos(k: nat)
    ensures
        pow2(k) >= 1,
    decreases k,
{
    if k > 0 {
        lemma_pow2_pos((k - 1) as nat);
    }
}

proof fn lemma_msb(n: nat, e: nat)
    requires
        pow2(e) <= n < pow2(e + 1),
    ensures
        msb(n) == e,
    decreases e,
{
    lemma_pow2_pos(e);
    if e == 0 {
        assert(n < 2);
    } else {
        let h = (e - 1) as nat;
        assert(pow2(e) == 2 * pow2(h));
        assert(pow2(e + 1) == 2 * pow2(e));
        assert(pow2(h) <= n / 2 < pow2(h + 1));
        lemma_msb(n / 2, h);
    }
}

proof fn lemma_pow2_64()
    ensures
        pow2(64) == 0x1_0000_0000_0000_0000,
{
    reveal_with_fuel(pow2, 65);
}

proof fn lemma_exponent_bound(e: nat)
    requires
        pow2(e) <= u64::MAX,
    ensures
        e <= 63,
{
    if e > 63 {
        lemma_pow2_mono(64, e);
        lemma_pow2_64();
    }
}

proof fn lemma_pow2_52()
    ensures
        pow2(52) == 0x10_0000_0000_0000,
        pow2(53) == 0x20_0000_0000_0000,
{
    reveal_with_fuel(pow2, 54);
}

/// The bits of `n as f64`.
pub fn u64_to_f64_bits(n: u64) -> (b: u64)
    ensures
        b == f64_bits_of(n as nat),
{
    if n == 0 {
        return 0;
    }
    // e = position of the highest set bit, p = 2^e
    let mut e: u64 = 0;
    let mut p: u64 = 1;
    while p <= n / 2
        invariant
            1 <= p <= n,
            p == pow2(e as nat),
            e <= 63,
        decreases n - p,
    {
        assert(pow2((e + 1) as nat) == 2 * pow2(e as nat));
        p = p * 2;
        e = e + 1;
        proof {
            lemma_exponent_bound(e as nat);
        }
    }
    proof {
        assert(pow2((e + 1) as nat) == 2 * pow2(e as nat));
        lemma_msb(n as nat, e as nat);
        lemma_pow2_52();
    }
    let sig: u64;
    if e <= 52 {
        let mut m: u64 = n;
        let mut k: u64 = e;
        assert(n * pow2((k - e) as nat) == n) by {
            assert((k - e) as nat == 0);
            assert(pow2(0) == 1);
        }
        assert(pow2((k + 1) as nat) == 2 * pow2(e as nat));
        while k < 52
            invariant
                e <= k <= 52,
                p == pow2(e as nat),
                p <= n < 2 * p,
                m == n * pow2((k - e) as nat),
                m < pow2((k + 1) as nat),
                pow2(53) == 0x20_0000_0000_0000,
            decreases 52 - k,
        {
            let ghost j = (k - e) as nat;
            assert(pow2(j + 1) == 2 * pow2(j));
            assert(pow2((k + 2) as nat) == 2 * pow2((k + 1) as nat));
            assert(m * 2 == n * pow2(j + 1)) by (nonlinear_arith)
                requires
                    m == n * pow2(j),
                    pow2(j + 1) == 2 * pow2(j),
            ;
            assert(pow2((k + 1) as nat) <= pow2(53)) by {
                lemma_pow2_mono((k + 1) as nat, 53);
            }
            m = m * 2;
            k = k + 1;
        }
        assert((52 - e) as nat == (k - e) as nat);
        assert(m >= pow2(52)) by {
            lemma_pow2_mul(e as nat, (52 - e) as nat);
            assert(n * pow2((52 - e) as nat) >= pow2(e as nat) * pow2((52 - e) as nat))
                by (nonlinear_arith)
                requires
                    n >= pow2(e as nat),
            ;
        }
        sig = m;
    } else {
        let s: u64 = e - 52;
        let mut d: u64 = 1;
        let mut k: u64 = 0;
        while k < s
            invariant
                k <= s <= 11,
                d == pow2(k as nat),
            decreases s - k,
        {
            assert(pow2((k + 1) as nat) == 2 * pow2(k as nat));
            assert(pow2(k as nat) <= 2048) by {
                lemma_pow2_mono(k as nat, 11);
                reveal_with_fuel(pow2, 12);
            }
            d = d * 2;
            k = k + 1;
        }
        assert(pow2(s as nat) == 2 * pow2((s - 1) as nat));
        assert(d >= 1) by {
            lemma_pow2_pos(s as nat);
        }
        let q = n / d;
        let r = n % d;
        let half = d / 2;
        let up = r > half || (r == half && q % 2 == 1);
        assert(q < pow2(53) && q >= pow2(52)) by {
            lemma_pow2_mul(52, s as nat);
            lemma_pow2_mul(53, s as nat);
            assert(e == 52 + s);
            assert(pow2((e + 1) as nat) == pow2(53) * pow2(s as nat));
            assert(pow2(e as nat) == pow2(52) * pow2(s as nat));
            lemma_pow2_pos(s as nat);
            lemma_div_bounds(n as nat, d as nat, pow2(52), pow2(53));
        }
        sig = if up {
            q + 1
        } else {
            q
        };
    }
    assert(sig >= pow2(52) && sig <= pow2(53));
    (1023 + e) * 0x10_0000_0000_0000 + sig - 0x10_0000_0000_0000
}

proof fn lemma_pow2_mono(a: nat, b: nat)
    requires
        a <= b,
    ensures
        pow2(a) <= pow2(b),
    decreases b,
{
    if a < b {
        lemma_pow2_mono(a, (b - 1) as nat);
        lemma_pow2_pos((b - 1) as nat);
    }
}

proof fn lemma_pow2_mul(a: nat, b: nat)
    ensures
        pow2(a + b) == pow2(a) * pow2(b),
    decreases b,
{
    if b > 0 {
        let bb = (b - 1) as nat;
        lemma_pow2_mul(a, bb);
        assert((a + b - 1) as nat == a + bb);
        assert(pow2(a + b) == 2 * pow2(a + bb));
        assert(pow2(b) == 2 * pow2(bb));
        assert(pow2(a) * (2 * pow2(bb)) == 2 * (pow2(a) * pow2(bb))) by (nonlinear_arith);
    } else {
        assert(pow2(0) == 1);
        assert(a + b == a);
    }
}

proof fn lemma_div_bounds(n: nat, d: nat, lo: nat, hi: nat)
    requires
        d >= 1,
        lo * d <= n < hi * d,
    ensures
        lo <= n / d < hi,
{
    assert(lo <= n / d) by (nonlinear_arith)
        requires
            d >= 1,
            lo * d <= n,
    ;
    assert(n / d < hi) by (nonlinear_arith)
        requires
            d >= 1,
            n < hi * d,
    ;
}


proof fn lemma_msb_bounds(n: nat)
    requires
        n >= 1,
    ensures
        pow2(msb(n)) <= n < pow2(msb(n) + 1),
    decreases n,
{
    if n >= 2 {
        lemma_msb_bounds(n / 2);
        let m = msb(n / 2);
        assert(msb(n) == m + 1);
        assert(pow2(m + 1) == 2 * pow2(m));
        assert(pow2(m + 2) == 2 * pow2(m + 1));
    } else {
        assert(pow2(0) == 1);
        assert(pow2(1) == 2);
    }
}

/// A count below `2^53` is published exactly: zero is the all-zero
/// pattern, and any other count's double has exponent field `1023 + k`
/// (a positive number with `0 <= k <= 52`) and a significand that, with its
/// hidden leading bit and scaled by `2^k`, gives back `n · 2^52` — the
/// double's value is `n`.
pub proof fn law_small_counts_exact(n: nat)
    requires
        n < 0x20_0000_0000_0000,
    ensures
        n == 0 ==> f64_bits_of(n) == 0,
        n > 0 ==> ({
            let b = f64_bits_of(n);
            let e = b / 0x10_0000_0000_0000;
            let f = b % 0x10_0000_0000_0000;
            &&& 1023 <= e <= 1075
            &&& (0x10_0000_0000_0000 + f) * pow2((e - 1023) as nat) == n * 0x10_0000_0000_0000
        }),
{
    if n > 0 {
        lemma_msb_bounds(n);
        lemma_pow2_52();
        let k = msb(n);
        if k > 52 {
            lemma_pow2_mono(53, k);
        }
        assert(k <= 52);
        let d = (52 - k) as nat;
        lemma_pow2_mul(k, d);
        lemma_pow2_mul(k + 1, d);
        assert(k + d == 52);
        assert((k + 1 + d) as nat == 53);
        let sig = n * pow2(d);
        assert(significand(n) == sig);
        assert(pow2(k) * pow2(d) <= sig) by (nonlinear_arith)
            requires
                pow2(k) <= n,
                sig == n * pow2(d),
        ;
        assert(sig < pow2(k + 1) * pow2(d)) by (nonlinear_arith)
            requires
                n < pow2(k + 1),
                sig == n * pow2(d),
                pow2(d) >= 1,
        ;
        lemma_pow2_pos(d);
        let f = sig - 0x10_0000_0000_0000;
        let b = f64_bits_of(n);
        assert(b == (1023 + k) * 0x10_0000_0000_0000 + f);
        assert(0 <= f < 0x10_0000_0000_0000);
        assert(b / 0x10_0000_0000_0000 == 1023 + k && b % 0x10_0000_0000_0000 == f) by (nonlinear_arith)
            requires
                b == (1023 + k) * 0x10_0000_0000_0000 + f,
                0 <= f < 0x10_0000_0000_0000,
        ;
        assert((0x10_0000_0000_0000 + f) * pow2(k) == n * 0x10_0000_0000_0000) by (nonlinear_arith)
            requires
                0x10_0000_0000_0000 + f == n * pow2(d),
                pow2(k) * pow2(d) == 0x10_0000_0000_0000,
        ;
    }
}

} // verus!
