//! The length ratio of a translation as the checks compute it: both lengths as binary64
//! numbers, their quotient rounded to the nearest binary64 number (ties to even), and
//! that number written with two decimals (ties to even), all in integer arithmetic.
use vstd::prelude::*;
use vstd::arithmetic::div_mod::lemma_fundamental_div_mod_converse;
use crate::text::decimal;

verus! {

// ---------------------------------------------------------------------------
// Powers of two and rounding of quotients
// ---------------------------------------------------------------------------

/// `2^k`.
pub open spec fn two(k: nat) -> nat
    decreases k,
{
    if k == 0 {
        1
    } else {
        2 * two((k - 1) as nat)
    }
}

proof fn lemma_two_add(a: nat, b: nat)
    ensures
        two(a + b) == two(a) * two(b),
    decreases b,
{
    assert(two(0) == 1);
    if b == 0 {
        assert(a + b == a);
    } else {
        lemma_two_add(a, (b - 1) as nat);
        assert(two(a + b) == 2 * two((a + b - 1) as nat));
        assert((a + b - 1) as nat == a + (b - 1) as nat);
        assert(two(b) == 2 * two((b - 1) as nat));
        let x = two(a);
        let y = two((b - 1) as nat);
        assert(2 * (x * y) == x * (2 * y)) by (nonlinear_arith);
    }
}

proof fn lemma_two_pos(a: nat)
    ensures
        two(a) >= 1,
    decreases a,
{
    if a > 0 {
        lemma_two_pos((a - 1) as nat);
    }
}

proof fn lemma_two_mono(a: nat, b: nat)
    requires
        a <= b,
    ensures
        two(a) <= two(b),
    decreases b,
{
    if a < b {
        lemma_two_mono(a, (b - 1) as nat);
        lemma_two_pos((b - 1) as nat);
    }
}

/// `a / b` rounded to the nearest integer, ties to even.
pub open spec fn rhe(a: nat, b: nat) -> nat {
    let q = a / b;
    let r = a % b;
    if 2 * r > b {
        q + 1
    } else if 2 * r < b {
        q
    } else if q % 2 == 0 {
        q
    } else {
        q + 1
    }
}

/// Rounding a quotient does not depend on a common factor.
proof fn lemma_rhe_scale(a: nat, b: nat, c: nat)
    requires
        b > 0,
        c > 0,
    ensures
        rhe(a * c, b * c) == rhe(a, b),
{
    let q = a / b;
    let r = a % b;
    lemma_div_parts(a, b);
    assert((a * c) as int == q * (b * c) + r * c && 0 <= r * c < b * c) by (nonlinear_arith)
        requires
            a == q * b + r,
            0 <= r < b,
            c > 0,
    ;
    lemma_fundamental_div_mod_converse((a * c) as int, (b * c) as int, q as int, (r * c) as int);
    assert((2 * (r * c) > b * c) == (2 * r > b)) by (nonlinear_arith)
        requires
            c > 0,
    ;
    assert((2 * (r * c) < b * c) == (2 * r < b)) by (nonlinear_arith)
        requires
            c > 0,
    ;
}

/// Whether `(n/d)·2^k` lies in `[2^52, 2^53)` (with `k >= -200`), written over
/// integers by multiplying through by `2^200`.
pub open spec fn in_binade(n: nat, d: nat, k: int) -> bool {
    &&& -200 <= k
    &&& two(252) * d <= n * two((k + 200) as nat)
    &&& n * two((k + 200) as nat) < two(253) * d
}

/// The scale that brings `n/d` into `[2^52, 2^53)`.
pub open spec fn binade(n: nat, d: nat) -> int {
    choose|k: int| in_binade(n, d, k)
}

/// The binary64 number nearest to `n/d` (for `n`, `d` positive), as its significand
/// `M` (with `2^52 <= M < 2^53`) and exponent `e`: `n/d` scaled into `[2^52, 2^53)`,
/// rounded to an integer with ties to even, carried to the next power of two if the
/// rounding reaches `2^53`.
pub open spec fn nearest_double(n: nat, d: nat) -> (nat, int) {
    let k = binade(n, d);
    let m = rhe(n * two((k + 200) as nat), d * two(200));
    if m == two(53) {
        (two(52), 1 - k)
    } else {
        (m, -k)
    }
}

/// At most one scale brings a quotient into `[2^52, 2^53)`.
proof fn lemma_binade_unique(n: nat, d: nat, k1: int, k2: int)
    requires
        in_binade(n, d, k1),
        in_binade(n, d, k2),
    ensures
        k1 == k2,
{
    if k1 < k2 {
        lemma_binade_order(n, d, k1, k2);
    } else if k2 < k1 {
        lemma_binade_order(n, d, k2, k1);
    }
}

proof fn lemma_binade_order(n: nat, d: nat, k1: int, k2: int)
    requires
        in_binade(n, d, k1),
        k1 < k2,
    ensures
        !in_binade(n, d, k2),
{
    let a = (k1 + 200) as nat;
    let b = (k2 + 200) as nat;
    lemma_two_mono((a + 1) as nat, b);
    assert(two((a + 1) as nat) == 2 * two(a));
    assert(two(253) == 2 * two(252));
    let x = two(a);
    let y = two(b);
    assert(n * y >= 2 * (n * x)) by (nonlinear_arith)
        requires
            y >= 2 * x,
    ;
    assert(n * x >= two(252) * d);
    assert(two(253) * d == 2 * (two(252) * d)) by (nonlinear_arith)
        requires
            two(253) == 2 * two(252),
    ;
    assert(n * y >= two(253) * d);
}

// ---------------------------------------------------------------------------
// Computing the nearest binary64 number
// ---------------------------------------------------------------------------

pub const TWO52: u128 = 0x10_0000_0000_0000;

pub const TWO53: u128 = 0x20_0000_0000_0000;

proof fn lemma_two_52_53()
    ensures
        two(52) == TWO52,
        two(53) == TWO53,
{
    reveal_with_fuel(two, 54);
}

fn rhe_exec(q: u128, r: u128, b: u128) -> (m: u128)
    requires
        r < b,
        q < 0x1_0000_0000_0000_0000_0000_0000,
        b < 0x8000_0000_0000_0000_0000_0000_0000_0000,
    ensures
        m == rhe((q * b + r) as nat, b as nat),
        q <= m <= q + 1,
{
    proof {
        lemma_fundamental_div_mod_converse((q * b + r) as int, b as int, q as int, r as int);
    }
    if 2 * r > b {
        q + 1
    } else if 2 * r < b {
        q
    } else if q % 2 == 0 {
        q
    } else {
        q + 1
    }
}

/// Division of naturals: quotient and remainder.
proof fn lemma_div_parts(n: nat, b: nat)
    requires
        b > 0,
    ensures
        n == (n / b) * b + n % b,
        n % b < b,
{
    vstd::arithmetic::div_mod::lemma_fundamental_div_mod(n as int, b as int);
    vstd::arithmetic::div_mod::lemma_mod_pos_bound(n as int, b as int);
    assert(b * (n / b) == (n / b) * b) by (nonlinear_arith);
}

/// A quotient is at least `c` exactly when `c` times the divisor fits.
proof fn lemma_div_at_least(n: nat, b: nat, c: nat)
    requires
        b > 0,
    ensures
        (n / b >= c) == (c * b <= n),
{
    lemma_div_parts(n, b);
    let q = n / b;
    let r = n % b;
    assert((q >= c) == (c * b <= n)) by (nonlinear_arith)
        requires
            n == q * b + r,
            r < b,
            b > 0,
    ;
}

/// The binary64 number nearest to `n/d`, as significand and exponent.
pub fn nearest_double_exec(n: u128, d: u128) -> (r: (u128, i32))
    requires
        1 <= n <= 0x8_0000_0000_0000_0000,
        1 <= d <= 0x8_0000_0000_0000_0000,
    ensures
        (r.0 as nat, r.1 as int) == nearest_double(n as nat, d as nat),
        TWO52 <= r.0 < TWO53,
        -121 <= r.1 <= 21,
{
    proof {
        lemma_two_52_53();
        lemma_two_add(52, 200);
        lemma_two_add(53, 200);
        lemma_two_pos(200);
    }
    let ghost mut k: int = 0;
    let m: u128;
    let ke: i32;
    proof {
        lemma_div_at_least(n as nat, d as nat, TWO52 as nat);
    }
    if n / d >= TWO52 {
        // Scale the denominator up.
        let mut b: u128 = d;
        let mut j: u32 = 0;
        proof {
            assert(two(0) == 1);
            lemma_div_at_least(n as nat, b as nat, TWO53 as nat);
        }
        while n / b >= TWO53
            invariant
                b == d * two(j as nat),
                TWO52 * b <= n,
                1 <= b,
                j <= 20,
                1 <= d,
                n <= 0x8_0000_0000_0000_0000,
                (n / b >= TWO53) == (TWO53 * b <= n),
            decreases n - TWO52 * b,
        {
            proof {
                lemma_two_pos(j as nat);
                assert(two(j as nat) <= b) by (nonlinear_arith)
                    requires
                        b == d * two(j as nat),
                        d >= 1,
                ;
                if j >= 15 {
                    lemma_two_mono(15, j as nat);
                    reveal_with_fuel(two, 16);
                }
            }
            b = 2 * b;
            j = j + 1;
            proof {
                assert(two(j as nat) == 2 * two((j - 1) as nat));
                assert(b == d * two(j as nat)) by (nonlinear_arith)
                    requires
                        two(j as nat) == 2 * two((j - 1) as nat),
                        b == 2 * (d * two((j - 1) as nat)),
                ;
                lemma_div_at_least(n as nat, b as nat, TWO53 as nat);
            }
        }
        let q = n / b;
        let rem = n % b;
        proof {
            lemma_div_parts(n as nat, b as nat);
            assert(TWO52 <= q < TWO53) by (nonlinear_arith)
                requires
                    n == q * b + rem,
                    rem < b,
                    TWO52 * b <= n,
                    n < TWO53 * b,
            ;
        }
        m = rhe_exec(q, rem, b);
        ke = -(j as i32);
        proof {
            k = -(j as int);
            let c = two((200 - j) as nat);
            lemma_two_add(j as nat, (200 - j) as nat);
            lemma_two_pos((200 - j) as nat);
            assert((k + 200) as nat == (200 - j) as nat);
            assert(in_binade(n as nat, d as nat, k)) by {
                let bc = b * c;
                assert(bc == d * two(200)) by (nonlinear_arith)
                    requires
                        b == d * two(j as nat),
                        two(j as nat) * c == two(200),
                        bc == b * c,
                ;
                assert(TWO52 * bc <= n * c && n * c < TWO53 * bc) by (nonlinear_arith)
                    requires
                        TWO52 * b <= n,
                        n < TWO53 * b,
                        bc == b * c,
                        c >= 1,
                ;
                assert(TWO52 * bc == two(252) * d) by (nonlinear_arith)
                    requires
                        bc == d * two(200),
                        two(252) == TWO52 * two(200),
                ;
                assert(TWO53 * bc == two(253) * d) by (nonlinear_arith)
                    requires
                        bc == d * two(200),
                        two(253) == TWO53 * two(200),
                ;
            }
            assert(exists|kx: int| in_binade(n as nat, d as nat, kx));
            lemma_binade_unique(n as nat, d as nat, k, binade(n as nat, d as nat));
            lemma_rhe_scale(n as nat, b as nat, c);
            assert(b * c == d * two(200)) by (nonlinear_arith)
                requires
                    b == d * two(j as nat),
                    two(j as nat) * c == two(200),
            ;
        }
    } else {
        // Scale the numerator up, one bit at a time.
        let mut q: u128 = n / d;
        let mut rem: u128 = n % d;
        let mut kk: u32 = 0;
        proof {
            assert(two(0) == 1);
            lemma_div_parts(n as nat, d as nat);
        }
        while q < TWO52
            invariant
                q * d + rem == n * two(kk as nat),
                rem < d,
                q < TWO53,
                1 <= d <= 0x8_0000_0000_0000_0000,
                1 <= n,
                kk <= 120,
            decreases TWO53 * d - n * two(kk as nat),
        {
            let ghost before = n * two(kk as nat);
            proof {
                lemma_two_pos(kk as nat);
                assert(before < TWO52 * d) by (nonlinear_arith)
                    requires
                        q * d + rem == before,
                        rem < d,
                        q < TWO52,
                ;
                if kk >= 120 {
                    lemma_two_mono(120, kk as nat);
                    lemma_two_52_53();
                    lemma_two_add(53, 67);
                    lemma_two_add(53, 14);
                    assert(two(14) == 16384) by {
                        reveal_with_fuel(two, 15);
                    }
                    assert(two(120) == TWO53 * TWO53 * 16384);
                    assert(n * two(kk as nat) >= two(120)) by (nonlinear_arith)
                        requires
                            n >= 1,
                            two(kk as nat) >= two(120),
                    ;
                    assert(TWO52 * d <= 0x8_0000_0000_0000_0000 * TWO52);
                }
                assert(kk < 120);
            }
            let ghost q0 = q;
            let ghost r0 = rem;
            if 2 * rem >= d {
                q = 2 * q + 1;
                rem = 2 * rem - d;
            } else {
                q = 2 * q;
                rem = 2 * rem;
            }
            kk = kk + 1;
            proof {
                assert(two(kk as nat) == 2 * two((kk - 1) as nat));
                assert(n * two(kk as nat) == 2 * before) by (nonlinear_arith)
                    requires
                        two(kk as nat) == 2 * two((kk - 1) as nat),
                        before == n * two((kk - 1) as nat),
                ;
                assert(q * d + rem == 2 * (q0 * d + r0)) by (nonlinear_arith)
                    requires
                        (q == 2 * q0 + 1 && rem == 2 * r0 - d) || (q == 2 * q0 && rem == 2 * r0),
                ;
                assert(before >= 1) by (nonlinear_arith)
                    requires
                        before == n * two((kk - 1) as nat),
                        n >= 1,
                        two((kk - 1) as nat) >= 1,
                ;
            }
        }
        proof {
            lemma_two_pos(kk as nat);
            assert(TWO52 * d <= n * two(kk as nat) && n * two(kk as nat) < TWO53 * d) by (nonlinear_arith)
                requires
                    q * d + rem == n * two(kk as nat),
                    rem < d,
                    TWO52 <= q < TWO53,
            ;
        }
        m = rhe_exec(q, rem, d);
        ke = kk as i32;
        proof {
            k = kk as int;
            lemma_two_add(kk as nat, 200);
            assert((k + 200) as nat == kk as nat + 200);
            assert(in_binade(n as nat, d as nat, k)) by {
                let x = n * two(kk as nat);
                let t = two(200);
                assert(n * two(kk as nat + 200) == x * t) by (nonlinear_arith)
                    requires
                        two(kk as nat + 200) == two(kk as nat) * t,
                        x == n * two(kk as nat),
                ;
                assert(TWO52 * d * t <= x * t && x * t < TWO53 * d * t) by (nonlinear_arith)
                    requires
                        TWO52 * d <= x,
                        x < TWO53 * d,
                        t >= 1,
                ;
                assert(two(252) * d == TWO52 * d * t) by (nonlinear_arith)
                    requires
                        two(252) == TWO52 * t,
                ;
                assert(two(253) * d == TWO53 * d * t) by (nonlinear_arith)
                    requires
                        two(253) == TWO53 * t,
                ;
            }
            assert(exists|kx: int| in_binade(n as nat, d as nat, kx));
            lemma_binade_unique(n as nat, d as nat, k, binade(n as nat, d as nat));
            lemma_rhe_scale((n as nat) * two(kk as nat), d as nat, two(200));
            assert((n as nat) * two(kk as nat) * two(200) == n * two(kk as nat + 200)) by (nonlinear_arith)
                requires
                    two(kk as nat + 200) == two(kk as nat) * two(200),
            ;
        }
    }
    assert(ke == k);
    if m == TWO53 {
        (TWO52, 1 - ke)
    } else {
        (m, -ke)
    }
}

// ---------------------------------------------------------------------------
// Lengths as binary64 numbers
// ---------------------------------------------------------------------------

/// Whether `2^52·2^j <= x < 2^53·2^j`.
pub open spec fn int_binade(x: nat, j: nat) -> bool {
    two(52) * two(j) <= x && x < two(53) * two(j)
}

/// A length as a binary64 number (`as f64`): exact below `2^53`; above, rounded to 53
/// significant bits, ties to even.
pub open spec fn length_double(x: nat) -> nat {
    if x < two(53) {
        x
    } else {
        let j = choose|j: nat| int_binade(x, j);
        rhe(x, two(j)) * two(j)
    }
}

proof fn lemma_int_binade_unique(x: nat, j1: nat, j2: nat)
    requires
        int_binade(x, j1),
        int_binade(x, j2),
    ensures
        j1 == j2,
{
    if j1 < j2 {
        lemma_two_mono(j1 + 1, j2);
        assert(two(j1 + 1) == 2 * two(j1));
        assert(two(53) == 2 * two(52));
        assert(two(52) * two(j2) >= two(53) * two(j1)) by (nonlinear_arith)
            requires
                two(j2) >= 2 * two(j1),
                two(53) == 2 * two(52),
        ;
    } else if j2 < j1 {
        lemma_two_mono(j2 + 1, j1);
        assert(two(j2 + 1) == 2 * two(j2));
        assert(two(53) == 2 * two(52));
        assert(two(52) * two(j1) >= two(53) * two(j2)) by (nonlinear_arith)
            requires
                two(j1) >= 2 * two(j2),
                two(53) == 2 * two(52),
        ;
    }
}

/// A length (below `2^67`) as a binary64 number.
pub fn length_double_exec(x: u128) -> (r: u128)
    requires
        x <= 0x4_0000_0000_0000_0000,
    ensures
        r == length_double(x as nat),
        r <= 0x8_0000_0000_0000_0000,
        x > 0 ==> r > 0,
{
    proof {
        lemma_two_52_53();
    }
    if x < TWO53 {
        return x;
    }
    let mut b: u128 = 1;
    let mut j: u32 = 0;
    proof {
        assert(two(0) == 1);
        lemma_div_at_least(x as nat, b as nat, TWO53 as nat);
    }
    while x / b >= TWO53
        invariant
            b == two(j as nat),
            TWO52 * b <= x,
            1 <= b,
            j <= 20,
            x <= 0x4_0000_0000_0000_0000,
            two(52) == TWO52,
            two(53) == TWO53,
            (x / b >= TWO53) == (TWO53 * b <= x),
        decreases x - TWO52 * b,
    {
        proof {
            if j >= 15 {
                lemma_two_mono(15, j as nat);
                assert(two(15) == 32768) by {
                    reveal_with_fuel(two, 16);
                }
            }
        }
        b = 2 * b;
        j = j + 1;
        proof {
            assert(two(j as nat) == 2 * two((j - 1) as nat));
            lemma_div_at_least(x as nat, b as nat, TWO53 as nat);
        }
    }
    let q = x / b;
    let rem = x % b;
    proof {
        lemma_div_parts(x as nat, b as nat);
        assert(TWO52 <= q < TWO53) by (nonlinear_arith)
            requires
                x == q * b + rem,
                rem < b,
                TWO52 * b <= x,
                x < TWO53 * b,
        ;
    }
    let m = rhe_exec(q, rem, b);
    proof {
        assert(int_binade(x as nat, j as nat));
        assert(exists|jx: nat| int_binade(x as nat, jx));
        let jc = choose|jx: nat| int_binade(x as nat, jx);
        lemma_int_binade_unique(x as nat, j as nat, jc);
        assert(m * b <= 2 * x) by (nonlinear_arith)
            requires
                m <= q + 1,
                x == q * b + rem,
                TWO52 * b <= x,
                TWO52 > 1,
        ;
        assert(m * b >= 1) by (nonlinear_arith)
            requires
                m >= TWO52,
                b >= 1,
        ;
    }
    m * b
}

// ---------------------------------------------------------------------------
// Comparing and writing the ratio
// ---------------------------------------------------------------------------

/// The significand of `0.3` as a binary64 number (whose value is `THREE_TENTHS·2^-54`).
pub const THREE_TENTHS: u128 = 5404319552844595;

/// Whether the binary64 number `m·2^e` is below `0.3` (as a binary64 number), compared
/// over integers by multiplying through by `2^254`.
pub open spec fn below_three_tenths(m: nat, e: int) -> bool {
    m * two((e + 254) as nat) < THREE_TENTHS * two(200)
}

/// Whether the binary64 number `m·2^e` is above `2`, compared over integers by
/// multiplying through by `2^200`.
pub open spec fn above_two(m: nat, e: int) -> bool {
    m * two((e + 200) as nat) > 2 * two(200)
}

/// `100·m·2^e` rounded to an integer, ties to even: the hundredths that two decimals
/// show of the binary64 number `m·2^e`.
pub open spec fn double_hundredths(m: nat, e: int) -> nat {
    rhe(100 * m * two((e + 200) as nat), two(200))
}

proof fn lemma_two_shift(a: nat)
    ensures
        two(a + 1) == 2 * two(a),
{
}

proof fn lemma_below_three_tenths(m: nat, e: int)
    requires
        TWO52 <= m < TWO53,
        -200 < e <= 21,
    ensures
        below_three_tenths(m, e) == (e < -54 || (e == -54 && m < THREE_TENTHS)),
{
    lemma_two_52_53();
    let t = two((e + 254) as nat);
    let u = two(200);
    lemma_two_pos(200);
    if e == -54 {
        assert((m * t < THREE_TENTHS * u) == (m < THREE_TENTHS)) by (nonlinear_arith)
            requires
                t == u,
                u >= 1,
        ;
    } else if e > -54 {
        lemma_two_mono(201, (e + 254) as nat);
        lemma_two_shift(200);
        assert(m * t >= TWO52 * (2 * u)) by (nonlinear_arith)
            requires
                m >= TWO52,
                t >= 2 * u,
        ;
    } else {
        lemma_two_pos((e + 254) as nat);
        lemma_two_mono((e + 255) as nat, 200);
        lemma_two_shift((e + 254) as nat);
        assert(m * t < TWO52 * u) by (nonlinear_arith)
            requires
                m < TWO53,
                TWO53 == 2 * TWO52,
                2 * t <= u,
                t >= 1,
        ;
    }
}

proof fn lemma_above_two(m: nat, e: int)
    requires
        TWO52 <= m < TWO53,
        -200 < e <= 21,
    ensures
        above_two(m, e) == (e > -51 || (e == -51 && m > TWO52)),
{
    lemma_two_52_53();
    let t = two((e + 200) as nat);
    let u = two(200);
    lemma_two_pos(200);
    lemma_two_pos((e + 200) as nat);
    lemma_two_add(52, 149);
    lemma_two_shift(200);
    let v = two(149);
    assert(2 * u == TWO52 * v);
    if e == -51 {
        assert(t == v);
        assert((m * t > 2 * u) == (m > TWO52)) by (nonlinear_arith)
            requires
                2 * u == TWO52 * t,
                t >= 1,
        ;
    } else if e > -51 {
        lemma_two_mono(150, (e + 200) as nat);
        lemma_two_shift(149);
        assert(m * t > 2 * u) by (nonlinear_arith)
            requires
                m >= TWO52,
                t >= 2 * v,
                2 * u == TWO52 * v,
                v >= 1,
        ;
    } else {
        lemma_two_mono((e + 201) as nat, 149);
        lemma_two_shift((e + 200) as nat);
        assert(m * t < 2 * u) by (nonlinear_arith)
            requires
                m < TWO53,
                TWO53 == 2 * TWO52,
                2 * t <= v,
                2 * u == TWO52 * v,
                t >= 1,
        ;
    }
}

/// The hundredths shown of `m·2^e` (for `m·2^e` a binary64 number up to `2^74`).
fn hundredths_exec(m: u128, e: i32) -> (h: u128)
    requires
        TWO52 <= m < TWO53,
        -121 <= e <= 21,
    ensures
        h == double_hundredths(m as nat, e as int),
{
    proof {
        lemma_two_52_53();
        lemma_two_pos(200);
    }
    if e >= 0 {
        let mut p: u128 = 1;
        let mut i: i32 = 0;
        proof {
            assert(two(0) == 1);
        }
        while i < e
            invariant
                0 <= i <= e <= 21,
                p == two(i as nat),
            decreases e - i,
        {
            proof {
                lemma_two_mono(i as nat, 21);
                assert(two(21) == 2097152) by {
                    reveal_with_fuel(two, 22);
                }
            }
            p = 2 * p;
            i = i + 1;
            proof {
                lemma_two_shift((i - 1) as nat);
            }
        }
        proof {
            lemma_two_mono(e as nat, 21);
            assert(two(21) == 2097152) by {
                reveal_with_fuel(two, 22);
            }
            lemma_two_add(e as nat, 200);
            assert((e + 200) as nat == e as nat + 200);
            let a = 100 * m * p;
            assert(100 * m * two(e as nat + 200) == a * two(200)) by (nonlinear_arith)
                requires
                    two(e as nat + 200) == p * two(200),
                    a == 100 * m * p,
            ;
            lemma_rhe_scale(a as nat, 1, two(200));
            lemma_fundamental_div_mod_converse(a as int, 1, a as int, 0);
            assert(100 * m * p < 0x1_0000_0000_0000_0000_0000_0000) by (nonlinear_arith)
                requires
                    m < TWO53,
                    p <= 2097152,
                    TWO53 == 0x20_0000_0000_0000,
            ;
        }
        100 * m * p
    } else {
        let mut p: u128 = 1;
        let mut i: i32 = 0;
        proof {
            assert(two(0) == 1);
            lemma_two_add(53, 68);
            lemma_two_add(53, 15);
            assert(two(15) == 32768) by {
                reveal_with_fuel(two, 16);
            }
        }
        while i < -e
            invariant
                0 <= i <= -e <= 121,
                p == two(i as nat),
                p >= 1,
                two(121) == TWO53 * TWO53 * 32768,
                two(53) == TWO53,
            decreases -e - i,
        {
            proof {
                lemma_two_mono((i + 1) as nat, 121);
                lemma_two_shift(i as nat);
            }
            p = 2 * p;
            i = i + 1;
        }
        proof {
            lemma_two_mono(i as nat, 121);
        }
        let a: u128 = 100 * m;
        let q = a / p;
        let rem = a % p;
        proof {
            lemma_two_pos(i as nat);
            lemma_div_parts(a as nat, p as nat);
            assert(q <= a) by (nonlinear_arith)
                requires
                    a == q * p + rem,
                    p >= 1,
            ;
            assert(p <= TWO53 * TWO53 * 32768);
            assert(p < 0x8000_0000_0000_0000_0000_0000_0000_0000);
            assert(q < 0x1_0000_0000_0000_0000_0000_0000);
            assert(rem < p);
        }
        let h = rhe_exec(q, rem, p);
        proof {
            let c = two((200 + e) as nat);
            lemma_two_add(i as nat, (200 + e) as nat);
            assert((e + 200) as nat == (200 + e) as nat);
            lemma_two_pos((200 + e) as nat);
            lemma_rhe_scale(a as nat, p as nat, c);
            assert(100 * m * c == a * c);
        }
        h
    }
}

// ---------------------------------------------------------------------------
// The verdict of the length check
// ---------------------------------------------------------------------------

/// For an English length `el` and a German length `dl` (positive): whether the ratio
/// `el / dl` (as binary64 numbers) is below `0.3`, whether it is above `2`, and its
/// hundredths as two decimals show them.
pub open spec fn spec_length_verdict(el: nat, dl: nat) -> (bool, bool, nat) {
    let fe = length_double(el);
    let fd = length_double(dl);
    if fe == 0 {
        (true, false, 0)
    } else {
        let (m, e) = nearest_double(fe, fd);
        (below_three_tenths(m, e), above_two(m, e), double_hundredths(m, e))
    }
}

/// The verdict of the length check for the lengths `el` (English) and `dl` (German).
pub fn length_verdict(el: u128, dl: u128) -> (r: (bool, bool, u128))
    requires
        el <= 0x4_0000_0000_0000_0000,
        1 <= dl <= 0x4_0000_0000_0000_0000,
    ensures
        (r.0, r.1, r.2 as nat) == spec_length_verdict(el as nat, dl as nat),
{
    let fe = length_double_exec(el);
    let fd = length_double_exec(dl);
    if fe == 0 {
        return (true, false, 0);
    }
    let (m, e) = nearest_double_exec(fe, fd);
    proof {
        lemma_below_three_tenths(m as nat, e as int);
        lemma_above_two(m as nat, e as int);
    }
    let below = e < -54 || (e == -54 && m < THREE_TENTHS);
    let above = e > -51 || (e == -51 && m > TWO52);
    let h = hundredths_exec(m, e);
    (below, above, h)
}

proof fn lemma_int_binade_exists(x: nat)
    requires
        x >= two(52),
    ensures
        exists|j: nat| int_binade(x, j),
    decreases x,
{
    lemma_two_52_53();
    assert(two(0) == 1);
    if x < two(53) {
        assert(int_binade(x, 0));
    } else {
        let y = x / 2;
        lemma_int_binade_exists(y);
        let j = choose|j: nat| int_binade(y, j);
        lemma_two_shift(j);
        let t = two(j);
        assert(int_binade(x, j + 1)) by (nonlinear_arith)
            requires
                two(52) * t <= y,
                y < two(53) * t,
                y == x / 2,
                two(j + 1) == 2 * t,
        ;
    }
}

proof fn lemma_length_double_pos(x: nat)
    requires
        x > 0,
    ensures
        length_double(x) > 0,
{
    lemma_two_52_53();
    if x >= two(53) {
        lemma_int_binade_exists(x);
        let j = choose|j: nat| int_binade(x, j);
        lemma_two_pos(j);
        lemma_div_at_least(x, two(j), TWO52 as nat);
        lemma_div_parts(x, two(j));
        assert(rhe(x, two(j)) >= x / two(j));
        assert(rhe(x, two(j)) * two(j) > 0) by (nonlinear_arith)
            requires
                rhe(x, two(j)) >= TWO52,
                two(j) >= 1,
        ;
    }
}

/// Equal lengths are neither too short nor too long a translation of each other.
pub proof fn lemma_same_lengths(x: nat)
    requires
        x > 0,
    ensures
        !spec_length_verdict(x, x).0,
        !spec_length_verdict(x, x).1,
{
    lemma_two_52_53();
    lemma_length_double_pos(x);
    let f = length_double(x);
    lemma_two_add(52, 200);
    lemma_two_add(53, 200);
    lemma_two_pos(200);
    let u = two(200);
    assert((52int + 200) as nat == 252);
    assert(in_binade(f, f, 52)) by {
        assert(f * two(252) < two(253) * f) by (nonlinear_arith)
            requires
                two(252) == TWO52 * u,
                two(253) == TWO53 * u,
                f >= 1,
                u >= 1,
        ;
    }
    assert(exists|kx: int| in_binade(f, f, kx));
    lemma_binade_unique(f, f, 52, binade(f, f));
    assert(f * u > 0) by (nonlinear_arith)
        requires
            f >= 1,
            u >= 1,
    ;
    lemma_rhe_scale(TWO52 as nat, 1, f * u);
    assert(f * two(252) == TWO52 * (f * u)) by (nonlinear_arith)
        requires
            two(252) == TWO52 * u,
    ;
    assert(f * u == 1 * (f * u));
    lemma_fundamental_div_mod_converse(TWO52 as int, 1, TWO52 as int, 0);
    assert(rhe(TWO52 as nat, 1) == TWO52);
    assert(nearest_double(f, f) == (TWO52 as nat, -52int));
    lemma_below_three_tenths(TWO52 as nat, -52);
    lemma_above_two(TWO52 as nat, -52);
}

} // verus!
