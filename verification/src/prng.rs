//! A linear congruential pseudo-random number generator, and the mapping of
//! its raw 64-bit outputs onto inclusive integer ranges.
//!
//! The range mapping is the double-precision formula
//! `((x as f64 / u64::MAX as f64) * (range as f64)) as u64`, computed here
//! exactly in integer arithmetic: every `f64` that the formula produces is
//! held as a significand of at most 53 bits and a power-of-two exponent, and
//! every rounding step is round-to-nearest, ties-to-even, as IEEE 754 does it.
//! The formula reaches one past the end of the range for the few states that
//! round up to `2^64`; there the draw is the end of the range, so every draw
//! lies in its range.
use vstd::prelude::*;
use vstd::arithmetic::power2::{
    pow2,
    lemma2_to64,
    lemma2_to64_rest,
    lemma_pow2_adds,
    lemma_pow2_pos,
    lemma_pow2_unfold,
    lemma_pow2_strictly_increases,
};
use vstd::arithmetic::div_mod::{
    lemma_fundamental_div_mod,
    lemma_div_denominator,
    lemma_add_mod_noop,
    lemma_small_mod,
    lemma_div_multiples_vanish,
};

verus! {

/// Multiplier `A` of the recurrence `x_{n+1} = A * x_n + C (mod 2^64)`.
pub const MULTIPLIER: u64 = 0x5D588B656C078965;

/// Increment `C` of the recurrence `x_{n+1} = A * x_n + C (mod 2^64)`.
pub const INCREMENT: u64 = 0x00269EC3;

/// One step of the generator: `(A * x + C) mod 2^64`.
pub open spec fn lcg_step(x: u64) -> u64 {
    ((MULTIPLIER as nat * x as nat + INCREMENT as nat) % 0x1_0000_0000_0000_0000nat) as u64
}

/// The exponent `s` for which `x / 2^s` is below `2^53`, `x / 2^(s-1)` not:
/// the number of low bits that a double cannot hold.
pub open spec fn excess_bits(x: nat) -> nat
    decreases x,
{
    if x < 0x20_0000_0000_0000 {
        0
    } else {
        1 + excess_bits(x / 2)
    }
}

/// `x` rounded to the nearest number with at most 53 significant bits, ties
/// to an even significand, as the pair `(m, e)` that stands for `m * 2^e`.
/// This is the value of `x as f64` for an integer `x`.
pub open spec fn round_to_double(x: nat) -> (nat, nat) {
    let s = excess_bits(x);
    let p = pow2(s);
    let q = x / p;
    let rem = x % p;
    if rem * 2 > p || (rem * 2 == p && q % 2 == 1) {
        (q + 1, s)
    } else {
        (q, s)
    }
}

/// `((r as f64 / u64::MAX as f64) * (range as f64)) as u64`: the product is
/// rounded once to a double, then truncated toward zero and saturated.
/// (`u64::MAX as f64` is exactly `2^64`, so the division only moves the
/// exponent.)
#[verifier::opaque]
pub open spec fn scaled_draw(r: u64, range: u64) -> nat {
    let (a, ea) = round_to_double(r as nat);
    let (b, eb) = round_to_double(range as nat);
    let (c, ec) = round_to_double(a * b);
    let value = (c * pow2(ea + eb + ec)) / pow2(64);
    if value > u64::MAX {
        u64::MAX as nat
    } else {
        value
    }
}

/// What `number_in_range_inclusive(start, end)` returns when the generator
/// moves to state `r`: `start` plus the scaled state, kept within the range
/// (the double-precision formula reaches `end + 1` for the states that round
/// up to `2^64`; those give `end`).
pub open spec fn draw_value(r: u64, start: u64, end: u64) -> int {
    let v = scaled_draw(r, (end - start + 1) as u64);
    if v >= end - start + 1 {
        end as int
    } else {
        start + v
    }
}

/// The ranges that `number_in_range_inclusive` accepts: non-empty, with an
/// end of at least one and a length that fits in a `u64`.
pub open spec fn valid_range(start: u64, end: u64) -> bool {
    &&& end >= 1
    &&& start <= end
    &&& end - start < u64::MAX
}

/// Linear congruential pseudo-random number generator.
#[derive(Debug, Clone, Copy)]
pub struct Lcrng {
    _start_seed: u64,
    current_seed: u64,
}

impl Lcrng {
    /// The current state of the generator.
    pub closed spec fn state(&self) -> u64 {
        self.current_seed
    }

    /// The seed that the generator was made with.
    pub closed spec fn start_seed(&self) -> u64 {
        self._start_seed
    }

    /// A generator in state `start_seed`.
    pub fn new(start_seed: u64) -> (g: Self)
        ensures
            g.state() == start_seed,
            g.start_seed() == start_seed,
    {
        Self { _start_seed: start_seed, current_seed: start_seed }
    }

    /// Advances the generator by one step, `x <- A * x + C (mod 2^64)`, and
    /// returns the new state.
    pub fn next(&mut self) -> (n: u64)
        ensures
            final(self).state() == lcg_step(old(self).state()),
            final(self).start_seed() == old(self).start_seed(),
            n == final(self).state(),
    {
        let x = self.current_seed;
        let y = x.wrapping_mul(MULTIPLIER);
        let z = y.wrapping_add(INCREMENT);
        proof {
            let m: int = 0x1_0000_0000_0000_0000;
            assert(y as int == (x as int * MULTIPLIER as int) % m);
            assert(z as int == (y as int + INCREMENT as int) % m);
            lemma_small_mod(INCREMENT as nat, m as nat);
            lemma_add_mod_noop(x as int * MULTIPLIER as int, INCREMENT as int, m);
            assert(z as int == (x as int * MULTIPLIER as int + INCREMENT as int) % m);
            assert(x as int * MULTIPLIER as int == MULTIPLIER as int * x as int) by (nonlinear_arith);
        }
        self.current_seed = z;
        z
    }

    /// Advances the generator and maps the new state onto `start..=end` with
    /// the double-precision formula of [`scaled_draw`], kept within the range.
    pub fn number_in_range_inclusive(&mut self, start: u64, end: u64) -> (n: u64)
        requires
            valid_range(start, end),
        ensures
            final(self).state() == lcg_step(old(self).state()),
            final(self).start_seed() == old(self).start_seed(),
            n == draw_value(final(self).state(), start, end),
            start <= n <= end,
    {
        let random_number = self.next();
        let range = end - start + 1;
        let v = scale_draw(random_number, range);
        if v >= range {
            end
        } else {
            start + v
        }
    }

    /// Whether a draw from `1..=denom` is at most `num`: true with a chance of
    /// about `num / denom`.
    pub fn _chance(&mut self, num: u64, denom: u64) -> (b: bool)
        requires
            denom != 0,
        ensures
            final(self).state() == lcg_step(old(self).state()),
            final(self).start_seed() == old(self).start_seed(),
            b == (draw_value(final(self).state(), 1, denom) <= num),
            num >= denom ==> b,
            num == 0 ==> !b,
    {
        self.number_in_range_inclusive(1, denom) <= num
    }
}

/// `2^e` as a machine integer.
fn pow2_u128(e: u32) -> (p: u128)
    requires
        e < 128,
    ensures
        p as nat == pow2(e as nat),
{
    let mut p: u128 = 1;
    let mut i: u32 = 0;
    proof {
        lemma2_to64();
    }
    while i < e
        invariant
            i <= e < 128,
            p as nat == pow2(i as nat),
        decreases e - i,
    {
        proof {
            lemma_pow2_unfold((i + 1) as nat);
            if i + 1 < 128 {
                lemma_pow2_strictly_increases((i + 1) as nat, 128);
            }
            lemma_pow2_adds(64, 64);
            lemma2_to64();
            assert(pow2(128) == 0x1_0000_0000_0000_0000nat * 0x1_0000_0000_0000_0000nat);
        }
        p = p * 2;
        i = i + 1;
    }
    p
}

/// [`round_to_double`] for `x < 2^107`, which bounds the products of two
/// significands.
fn round_to_double_exec(x: u128) -> (res: (u128, u32))
    requires
        x < 0x800_0000_0000_0000_0000_0000_0000,
    ensures
        res.0 as nat == round_to_double(x as nat).0,
        res.1 as nat == round_to_double(x as nat).1,
        res.0 <= 0x20_0000_0000_0000,
        res.1 <= 54,
{
    proof {
        lemma2_to64();
        lemma2_to64_rest();
    }
    let mut m: u128 = x;
    let mut p: u128 = 1;
    let mut s: u32 = 0;
    while m >= 0x20_0000_0000_0000
        invariant
            x < 0x800_0000_0000_0000_0000_0000_0000,
            p > 0,
            p as nat == pow2(s as nat),
            m as nat == x as nat / p as nat,
            excess_bits(x as nat) == s + excess_bits(m as nat),
            pow2(53) == 0x20_0000_0000_0000,
            pow2(54) == 0x40_0000_0000_0000,
            s <= 54,
            s > 0 ==> m >= 0x10_0000_0000_0000,
        decreases m,
    {
        proof {
            lemma_fundamental_div_mod(x as int, p as int);
            assert(p * m <= x);
            assert(p * 0x20_0000_0000_0000 <= p * m) by (nonlinear_arith)
                requires m >= 0x20_0000_0000_0000;
            assert(p < 0x40_0000_0000_0000) by (nonlinear_arith)
                requires
                    p * 0x20_0000_0000_0000 <= x,
                    x < 0x800_0000_0000_0000_0000_0000_0000;
            if s >= 54 {
                if s > 54 {
                    lemma_pow2_strictly_increases(54, s as nat);
                }
                assert(false);
            }
            lemma_div_denominator(x as int, p as int, 2);
            lemma_pow2_unfold((s + 1) as nat);
        }
        m = m / 2;
        p = p * 2;
        s = s + 1;
    }
    proof {
        lemma_fundamental_div_mod(x as int, p as int);
    }
    let rem = x % p;
    if rem * 2 > p || (rem * 2 == p && m % 2 == 1) {
        (m + 1, s)
    } else {
        (m, s)
    }
}

/// [`scaled_draw`]: `((r as f64 / u64::MAX as f64) * (range as f64)) as u64`.
fn scale_draw(r: u64, range: u64) -> (v: u64)
    ensures
        v as nat == scaled_draw(r, range),
{
    reveal(scaled_draw);
    let (a, ea) = round_to_double_exec(r as u128);
    let (b, eb) = round_to_double_exec(range as u128);
    proof {
        assert(a * b <= 0x20_0000_0000_0000 * 0x20_0000_0000_0000) by (nonlinear_arith)
            requires a <= 0x20_0000_0000_0000, b <= 0x20_0000_0000_0000;
    }
    let (c, ec) = round_to_double_exec(a * b);
    let t: u32 = ea + eb + ec;
    proof {
        lemma2_to64();
        lemma2_to64_rest();
        lemma_pow2_pos(t as nat);
    }
    if t >= 64 {
        let sh: u32 = t - 64;
        proof {
            lemma_pow2_adds(sh as nat, 64);
            assert(((c as nat) * pow2(sh as nat)) * pow2(64) == (c as nat) * pow2(t as nat)) by (nonlinear_arith)
                requires pow2(t as nat) == pow2(sh as nat) * pow2(64);
            lemma_div_multiples_vanish(((c as nat) * pow2(sh as nat)) as int, pow2(64) as int);
            assert(((c as nat) * pow2(t as nat)) / pow2(64) == (c as nat) * pow2(sh as nat));
        }
        if c == 0 {
            0
        } else if sh >= 64 {
            proof {
                if sh > 64 {
                    lemma_pow2_strictly_increases(64, sh as nat);
                }
                assert((c as nat) * pow2(sh as nat) >= pow2(sh as nat)) by (nonlinear_arith)
                    requires c >= 1;
            }
            u64::MAX
        } else {
            let p = pow2_u128(sh);
            proof {
                lemma_pow2_strictly_increases(sh as nat, 64);
                assert(c * p <= 0x20_0000_0000_0000 * 0x1_0000_0000_0000_0000) by (nonlinear_arith)
                    requires c <= 0x20_0000_0000_0000, p <= 0x1_0000_0000_0000_0000;
            }
            let v = c * p;
            if v > u64::MAX as u128 {
                u64::MAX
            } else {
                v as u64
            }
        }
    } else {
        let d: u32 = 64 - t;
        let p = pow2_u128(d);
        proof {
            lemma_pow2_adds(t as nat, d as nat);
            lemma_pow2_pos(d as nat);
            lemma_div_denominator(((c as nat) * pow2(t as nat)) as int, pow2(t as nat) as int, pow2(d as nat) as int);
            assert(((c as nat) * pow2(t as nat)) / pow2(t as nat) == c) by {
                lemma_div_multiples_vanish(c as int, pow2(t as nat) as int);
                assert((c as nat) * pow2(t as nat) == pow2(t as nat) * (c as nat)) by (nonlinear_arith);
            }
        }
        let v = c / p;
        v as u64
    }
}

/// A number below `2^(53 + k)` has at most `k` bits beyond the 53 that a
/// double holds.
proof fn lemma_excess_bound(x: nat, k: nat)
    requires
        x < pow2(53 + k),
    ensures
        excess_bits(x) <= k,
    decreases x,
{
    lemma2_to64();
    lemma2_to64_rest();
    if x >= 0x20_0000_0000_0000 {
        if k == 0 {
            assert(false);
        }
        lemma_pow2_unfold(53 + k);
        assert((53 + k - 1) as nat == 53 + (k - 1) as nat);
        lemma_excess_bound(x / 2, (k - 1) as nat);
    }
}

/// More bits beyond 53 for a larger number.
proof fn lemma_excess_monotone(x: nat, y: nat)
    requires
        x <= y,
    ensures
        excess_bits(x) <= excess_bits(y),
    decreases x,
{
    if x >= 0x20_0000_0000_0000 {
        lemma_excess_monotone(x / 2, y / 2);
    }
}

/// Rounding to a double never passes a bound that a double holds exactly:
/// if `y <= m * 2^k` with `m < 2^53`, the rounded `y` is at most `m * 2^k`.
proof fn lemma_round_below_double(y: nat, m: nat, k: nat)
    requires
        m < pow2(53),
        y <= m * pow2(k),
    ensures
        round_to_double(y).0 * pow2(round_to_double(y).1) <= m * pow2(k),
{
    let bound = m * pow2(k);
    let s = excess_bits(y);
    lemma_pow2_adds(53, k);
    lemma_pow2_pos(k);
    assert(m * pow2(k) < pow2(53) * pow2(k)) by (nonlinear_arith)
        requires
            m < pow2(53),
            pow2(k) > 0,
    ;
    lemma_excess_bound(bound, k);
    lemma_excess_monotone(y, bound);
    assert(s <= k);
    let p = pow2(s);
    lemma_pow2_pos(s);
    let q = y / p;
    let rem = y % p;
    lemma_fundamental_div_mod(y as int, p as int);
    // The bound is a multiple of p.
    lemma_pow2_adds(s, (k - s) as nat);
    assert(bound == (m * pow2((k - s) as nat)) * p) by (nonlinear_arith)
        requires
            bound == m * pow2(k),
            pow2(k) == pow2(s) * pow2((k - s) as nat),
            p == pow2(s),
    ;
    let j = m * pow2((k - s) as nat);
    if rem * 2 > p || (rem * 2 == p && q % 2 == 1) {
        assert(rem > 0);
        assert(q * p < j * p) by (nonlinear_arith)
            requires
                y == p * q + rem,
                rem > 0,
                y <= j * p,
        ;
        assert(q < j) by (nonlinear_arith)
            requires
                q * p < j * p,
                p > 0,
        ;
        assert((q + 1) * p <= j * p) by (nonlinear_arith)
            requires
                q + 1 <= j,
                p > 0,
        ;
    } else {
        assert(q * p <= y) by (nonlinear_arith)
            requires
                y == p * q + rem,
                rem >= 0,
        ;
    }
}

/// For ranges that a double holds exactly, the double-precision formula
/// never passes one past the end of the range, so the draw is the formula
/// itself wherever the formula stays in the range, and `end` where it
/// reaches one past it (for the states that round up to `2^64`).
pub proof fn law_draw_is_formula_within_range(r: u64, start: u64, end: u64)
    requires
        start <= end,
        end - start + 1 < 0x20_0000_0000_0000,
    ensures
        scaled_draw(r, (end - start + 1) as u64) <= end - start + 1,
        scaled_draw(r, (end - start + 1) as u64) < end - start + 1 ==> draw_value(r, start, end)
            == start + scaled_draw(r, (end - start + 1) as u64),
        scaled_draw(r, (end - start + 1) as u64) == end - start + 1 ==> draw_value(r, start, end)
            == end,
{
    reveal(scaled_draw);
    lemma2_to64();
    lemma2_to64_rest();
    let range = (end - start + 1) as nat;
    let (a, ea) = round_to_double(r as nat);
    let (b, eb) = round_to_double(range);
    // The range is held exactly.
    assert(excess_bits(range) == 0);
    assert(b == range && eb == 0);
    // The state rounds to at most 2^64.
    lemma_round_below_double(r as nat, 1, 64);
    assert(a * pow2(ea) <= pow2(64));
    let (c, ec) = round_to_double(a * b);
    lemma_pow2_pos(ea);
    lemma_pow2_pos(ec);
    if a == 0 {
        assert(a * b == 0) by (nonlinear_arith)
            requires
                a == 0,
        ;
        assert(excess_bits(0) == 0);
        assert(c == 0);
        assert(c * pow2(ea + eb + ec) == 0) by (nonlinear_arith)
            requires
                c == 0,
        ;
    } else {
        if ea > 64 {
            lemma_pow2_strictly_increases(64, ea);
            assert(a * pow2(ea) >= pow2(ea)) by (nonlinear_arith)
                requires
                    a >= 1,
            ;
        }
        let d = (64 - ea) as nat;
        lemma_pow2_adds(ea, d);
        assert(a <= pow2(d)) by (nonlinear_arith)
            requires
                a * pow2(ea) <= pow2(ea) * pow2(d),
                pow2(ea) > 0,
        ;
        assert(a * b <= range * pow2(d)) by (nonlinear_arith)
            requires
                a <= pow2(d),
                b == range,
        ;
        lemma_round_below_double(a * b, range, d);
        assert(c * pow2(ec) <= range * pow2(d));
        lemma_pow2_adds(ea + eb, ec);
        lemma_pow2_adds(ec, ea);
        assert(c * pow2(ea + eb + ec) == (c * pow2(ec)) * pow2(ea)) by (nonlinear_arith)
            requires
                pow2(ea + eb + ec) == pow2(ec) * pow2(ea),
        ;
        assert(c * pow2(ea + eb + ec) <= range * pow2(64)) by (nonlinear_arith)
            requires
                c * pow2(ea + eb + ec) == (c * pow2(ec)) * pow2(ea),
                c * pow2(ec) <= range * pow2(d),
                pow2(64) == pow2(ea) * pow2(d),
                pow2(ea) > 0,
        ;
        assert((c * pow2(ea + eb + ec)) / pow2(64) <= range) by (nonlinear_arith)
            requires
                c * pow2(ea + eb + ec) <= range * pow2(64),
                pow2(64) > 0,
        ;
    }
}

/// Two generators in the same state draw the same number from the same
/// range: the stream depends on the seed alone.
pub proof fn law_same_state_same_draw(g1: Lcrng, g2: Lcrng, start: u64, end: u64)
    requires
        g1.state() == g2.state(),
    ensures
        lcg_step(g1.state()) == lcg_step(g2.state()),
        draw_value(lcg_step(g1.state()), start, end) == draw_value(lcg_step(g2.state()), start, end),
{
}

/// The state after `n` steps from `x`.
pub open spec fn lcg_iterate(x: u64, n: nat) -> u64
    decreases n,
{
    if n == 0 {
        x
    } else {
        lcg_step(lcg_iterate(x, (n - 1) as nat))
    }
}

/// Two generators in the same state give the same stream: the `n`-th
/// state, which `next` returns on its `n`-th call, agrees for every `n`.
pub proof fn law_same_state_same_stream(g1: Lcrng, g2: Lcrng)
    requires
        g1.state() == g2.state(),
    ensures
        forall|n: nat| #[trigger] lcg_iterate(g1.state(), n) == lcg_iterate(g2.state(), n),
{
}

} // verus!
