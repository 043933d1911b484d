//! Arithmetic of packed positions.
//!
//! A cursor of a ring with `n` buckets is one machine word:
//!
//! ```text
//! | lap (rest) | closed (1 bit) | position |
//! ```
//!
//! The closed bit is the smallest power of two greater than `n`, and a lap is
//! worth twice that. Counting the operations on a cursor from zero, the cursor
//! stands at `pack(n, t)` before operation `t`.

use vstd::prelude::*;
use vstd::arithmetic::power::pow;
use vstd::arithmetic::power2::{
    is_pow2, is_pow2_equiv, lemma2_to64, lemma2_to64_rest, lemma_pow2, lemma_pow2_pos,
    lemma_pow2_strictly_increases, lemma_pow2_unfold, pow2,
};
use vstd::arithmetic::div_mod::{
    lemma_basic_div, lemma_fundamental_div_mod, lemma_fundamental_div_mod_converse,
    lemma_mod_breakdown, lemma_small_mod,
};
use vstd::bits::{lemma_usize_low_bits_mask_is_mod, lemma_usize_pow2_no_overflow};

verus! {

/// The smallest power of two that is not less than `n`.
pub open spec fn next_pow2(n: nat) -> nat
    decreases n,
{
    if n <= 1 {
        1
    } else {
        2 * next_pow2((n + 1) / 2)
    }
}

/// The bit that marks a cursor of a ring with `n` buckets as closed.
pub open spec fn closed_bit(n: nat) -> nat {
    next_pow2(n + 1)
}

/// How far a cursor of a ring with `n` buckets moves in one lap.
pub open spec fn lap(n: nat) -> nat {
    2 * closed_bit(n)
}

/// Where an open cursor of a ring with `n` buckets stands before operation `t`.
pub open spec fn pack(n: nat, t: nat) -> nat {
    (t / n) * lap(n) + t % n
}

/// The capacities that a ring can have. The stamp of a bucket takes four bytes or
/// more, and nothing in memory is larger than half of the address space.
pub open spec fn valid_capacity(n: usize) -> bool {
    1 <= n <= usize::MAX / 8
}

/// The smallest power of two greater than or equal to `n`.
pub fn next_power_of_two(n: usize) -> (r: usize)
    requires
        1 <= n <= usize::MAX / 2,
    ensures
        r == next_pow2(n as nat),
    opens_invariants none
    no_unwind
{
    let mut r: usize = 1;
    proof {
        lemma_next_pow2(n as nat);
        assert(is_pow2(1)) by {
            reveal(is_pow2);
        }
    }
    while r < n
        invariant
            1 <= n <= usize::MAX / 2,
            is_pow2(r as int),
            1 <= r <= next_pow2(n as nat) < 2 * n,
            is_pow2(next_pow2(n as nat) as int),
        decreases 2 * n - r,
    {
        proof {
            lemma_next_pow2(n as nat);
            lemma_pow2_divides(r as int, next_pow2(n as nat) as int);
            let k = next_pow2(n as nat) as int / r as int;
            lemma_fundamental_div_mod(next_pow2(n as nat) as int, r as int);
            assert(2 * r <= next_pow2(n as nat)) by (nonlinear_arith)
                requires
                    next_pow2(n as nat) == r * k,
                    r < next_pow2(n as nat),
                    r >= 1,
            ;
            assert(is_pow2(2 * r as int)) by {
                reveal(is_pow2);
                assert((2 * r as int) / 2 == r as int);
            }
        }
        r = 2 * r;
    }
    proof {
        lemma_next_pow2_least(n as nat, r as int);
    }
    r
}

/// `next_pow2(n)` is a power of two, at least `n` and less than `2 * n`.
pub proof fn lemma_next_pow2(n: nat)
    requires
        1 <= n,
    ensures
        is_pow2(next_pow2(n) as int),
        n <= next_pow2(n) < 2 * n,
    decreases n,
{
    reveal(is_pow2);
    if n > 1 {
        lemma_next_pow2((n + 1) / 2);
        let half = next_pow2((n + 1) / 2) as int;
        assert((2 * half) / 2 == half);
        if n % 2 == 1 && half == n {
            // `half < 2 * ((n + 1) / 2) = n + 1`, and a power of two above one is even.
            assert(false);
        }
    }
}

/// No power of two lies between `n` and `next_pow2(n)`.
pub proof fn lemma_next_pow2_least(n: nat, p: int)
    requires
        is_pow2(p),
        n <= p,
    ensures
        next_pow2(n) <= p,
    decreases n,
{
    reveal(is_pow2);
    if n > 1 {
        lemma_next_pow2_least((n + 1) / 2, p / 2);
    }
}

/// Of two powers of two, the smaller divides the larger.
proof fn lemma_pow2_divides(a: int, b: int)
    requires
        is_pow2(a),
        is_pow2(b),
        a <= b,
    ensures
        b % a == 0,
    decreases b,
{
    reveal(is_pow2);
    if a > 1 {
        lemma_pow2_divides(a / 2, b / 2);
        let k = (b / 2) / (a / 2);
        lemma_fundamental_div_mod(b / 2, a / 2);
        assert(b == a * k) by (nonlinear_arith)
            requires
                b == 2 * (b / 2),
                a == 2 * (a / 2),
                b / 2 == (a / 2) * k,
        ;
        lemma_fundamental_div_mod_converse(b, a, k, 0);
    }
}

/// Masking with a power of two less one takes the remainder.
pub(crate) proof fn lemma_mask_is_mod(x: usize, p: usize)
    requires
        is_pow2(p as int),
    ensures
        x & sub_one(p) == x % p,
{
    is_pow2_equiv(p as int);
    let e: nat = choose|e: nat| pow(2, e) == p;
    lemma_pow2_pos(e);
    if e >= usize::BITS {
        lemma_pow2_too_large(e);
    }
    lemma_usize_low_bits_mask_is_mod(x, e);
}

/// `2^e` does not fit a `usize` when `e` is its width or more.
proof fn lemma_pow2_too_large(e: nat)
    requires
        e >= usize::BITS,
    ensures
        pow2(e) > usize::MAX,
{
    lemma_pow2(e);
    lemma_usize_pow2_no_overflow((usize::BITS - 1) as nat);
    lemma_pow2_unfold(usize::BITS as nat);
    if e > usize::BITS {
        lemma_pow2_strictly_increases(usize::BITS as nat, e);
    }
    lemma2_to64();
    lemma2_to64_rest();
}

/// The mask of the bits below a power of two.
pub open spec fn sub_one(p: usize) -> usize {
    (p - 1) as usize
}

/// The bit of weight `p` is the parity of the quotient by `p`.
pub(crate) proof fn lemma_bit_is_parity(x: usize, p: usize)
    requires
        is_pow2(p as int),
        p <= usize::MAX / 2,
    ensures
        x & p == p * ((x / p) % 2),
        p & x == x & p,
        x & p == 0 || x & p == p,
{
    let q: usize = sub_one(p);
    let d: usize = (2 * p) as usize;
    assert(p >= 1) by {
        reveal(is_pow2);
    }
    lemma_mask_is_mod(p, p);
    lemma_mask_is_mod(x, p);
    assert(is_pow2(d as int)) by {
        reveal(is_pow2);
        assert((2 * p as int) / 2 == p as int);
    }
    lemma_mask_is_mod(x, d);
    let r: usize = sub_one(d);
    assert(p & q == 0);
    assert(x & r == (x & p) + (x & q) && p & x == x & p) by (bit_vector)
        requires
            q == p - 1,
            r == 2 * p - 1,
            p & q == 0,
            p >= 1,
    ;
    lemma_mod_breakdown(x as int, p as int, 2);
    assert(x % d == p * ((x / p) % 2) + x % p);
    assert(p * 0 == 0);
    assert((x / p) % 2 == 0 || (x / p) % 2 == 1);
}

/// Clearing the bits below a power of two rounds down to a multiple of it.
pub(crate) proof fn lemma_round_down(x: usize, p: usize)
    requires
        is_pow2(p as int),
    ensures
        x & !sub_one(p) == x - x % p,
{
    lemma_mask_is_mod(x, p);
    let q: usize = sub_one(p);
    assert(x & !q == x - (x & q)) by (bit_vector);
}

/// Setting or clearing one bit adds or subtracts its weight, if it changes.
pub(crate) proof fn lemma_one_bit(x: usize, p: usize)
    requires
        is_pow2(p as int),
        p <= usize::MAX / 2,
    ensures
        p | x == (if (x / p) % 2 == 1 {
            x as int
        } else {
            x + p
        }),
        x & !p == (if (x / p) % 2 == 1 {
            x - p
        } else {
            x as int
        }),
{
    lemma_bit_is_parity(x, p);
    assert(p * 1 == p && p * 0 == 0);
    assert(x & p == 0 ==> p | x == x + p) by (bit_vector);
    assert(x & p == p ==> p | x == x) by (bit_vector);
    assert(x & !p == x - (x & p)) by (bit_vector);
}

/// Joining a low part with the high part of another word replaces its low part.
pub(crate) proof fn lemma_join(low: usize, x: usize, p: usize)
    requires
        is_pow2(p as int),
        low < p,
    ensures
        low | (!sub_one(p) & x) == x - x % p + low,
{
    let q: usize = sub_one(p);
    lemma_round_down(x, p);
    lemma_mask_is_mod(low, p);
    lemma_small_mod(low as nat, p as nat);
    let high: usize = !q & x;
    assert(!q & x == x & !q) by (bit_vector);
    assert(low & high == 0) by (bit_vector)
        requires
            high == !q & x,
            low & q == low,
    ;
    assert(low & high == 0 ==> low | high == low + high) by (bit_vector);
}

/// How the fields of a packed position lie with respect to one another.
pub(crate) proof fn lemma_fields(n: nat)
    requires
        1 <= n,
    ensures
        is_pow2(next_pow2(n) as int),
        is_pow2(closed_bit(n) as int),
        is_pow2(lap(n) as int),
        n <= next_pow2(n) <= closed_bit(n),
        n < closed_bit(n) <= 2 * n,
        closed_bit(n) % next_pow2(n) == 0,
        lap(n) % next_pow2(n) == 0,
        next_pow2(n) != n ==> next_pow2(n) == closed_bit(n),
{
    lemma_next_pow2(n);
    lemma_next_pow2(n + 1);
    let m = next_pow2(n) as int;
    let c = closed_bit(n) as int;
    assert(is_pow2(2 * c) && (c > 1 ==> c % 2 == 0)) by {
        reveal(is_pow2);
        assert((2 * c) / 2 == c);
    }
    lemma_next_pow2_least(n, c);
    if m != n {
        lemma_next_pow2_least(n + 1, m);
    }
    lemma_pow2_divides(m, c);
    lemma_pow2_divides(m, 2 * c);
}

/// Four laps fit the machine word.
pub(crate) proof fn lemma_four_laps(n: usize)
    requires
        valid_capacity(n),
    ensures
        4 * lap(n as nat) <= usize::MAX + 1,
{
    let p = (usize::MAX + 1) / 8;
    assert(is_pow2(p)) by {
        lemma_pow2(29);
        lemma_pow2(61);
        lemma2_to64();
        lemma2_to64_rest();
        is_pow2_equiv(p);
    }
    lemma_next_pow2_least(n as nat + 1, p);
}

/// Reading the fields of `pack(n, t)`, and of the same cursor closed.
pub(crate) proof fn lemma_pack_fields(n: nat, t: nat)
    requires
        1 <= n,
    ensures
        t % n < n,
        pack(n, t) % next_pow2(n) == t % n,
        (pack(n, t) + closed_bit(n)) % next_pow2(n) == t % n,
        (pack(n, t) / closed_bit(n)) % 2 == 0,
        ((pack(n, t) + closed_bit(n)) / closed_bit(n)) % 2 == 1,
        pack(n, t) % lap(n) == t % n,
        pack(n, t) / lap(n) == t / n,
{
    lemma_fields(n);
    let m = next_pow2(n) as int;
    let c = closed_bit(n) as int;
    let q = (t / n) as int;
    let r = (t % n) as int;
    let x = pack(n, t) as int;
    let k = c / m;
    lemma_fundamental_div_mod(c, m);
    assert(x == q * (2 * c) + r);
    assert(x == (q * 2) * c + r) by (nonlinear_arith)
        requires
            x == q * (2 * c) + r,
    ;
    assert(x + c == (q * 2 + 1) * c + r) by (nonlinear_arith)
        requires
            x == (q * 2) * c + r,
    ;
    assert(x == (q * 2 * k) * m + r) by (nonlinear_arith)
        requires
            x == (q * 2) * c + r,
            c == m * k,
    ;
    assert(x + c == ((q * 2 + 1) * k) * m + r) by (nonlinear_arith)
        requires
            x + c == (q * 2 + 1) * c + r,
            c == m * k,
    ;
    lemma_fundamental_div_mod_converse(x, c, q * 2, r);
    lemma_fundamental_div_mod_converse(x + c, c, q * 2 + 1, r);
    lemma_fundamental_div_mod_converse(x, m, q * 2 * k, r);
    lemma_fundamental_div_mod_converse(x + c, m, (q * 2 + 1) * k, r);
    lemma_fundamental_div_mod_converse(x, 2 * c, q, r);
}

/// One operation moves a cursor to the next position, or to the start of the
/// next lap.
pub(crate) proof fn lemma_pack_next(n: nat, t: nat)
    requires
        1 <= n,
    ensures
        pack(n, t + 1) == (if t % n + 1 == n {
            pack(n, t) + lap(n) - t % n
        } else {
            pack(n, t) + 1int
        }),
        (t + 1) % n == (if t % n + 1 == n {
            0
        } else {
            t % n + 1
        }),
        (t + 1) % n == (t % n + 1) % n,
{
    lemma_fundamental_div_mod(t as int, n as int);
    let q = (t / n) as int;
    let r = (t % n) as int;
    let w = lap(n) as int;
    if r + 1 == n {
        assert(t + 1 == (q + 1) * n + 0) by (nonlinear_arith)
            requires
                t == n * q + r,
                r + 1 == n,
        ;
        lemma_fundamental_div_mod_converse((t + 1) as int, n as int, q + 1, 0);
        assert((q + 1) * w == q * w + w) by (nonlinear_arith);
    } else {
        assert(t + 1 == q * n + (r + 1)) by (nonlinear_arith)
            requires
                t == n * q + r,
        ;
        lemma_fundamental_div_mod_converse((t + 1) as int, n as int, q, r + 1);
        lemma_small_mod((r + 1) as nat, n);
    }
}

/// `n` operations move a cursor by one lap.
pub(crate) proof fn lemma_pack_lap(n: nat, t: nat)
    requires
        1 <= n,
    ensures
        pack(n, t + n) == pack(n, t) + lap(n),
        (t + n) % n == t % n,
{
    lemma_fundamental_div_mod(t as int, n as int);
    let q = (t / n) as int;
    let r = (t % n) as int;
    let w = lap(n) as int;
    assert(t + n == (q + 1) * n + r) by (nonlinear_arith)
        requires
            t == n * q + r,
    ;
    lemma_fundamental_div_mod_converse((t + n) as int, n as int, q + 1, r);
    assert((q + 1) * w == q * w + w) by (nonlinear_arith);
}

/// Taking whole laps off a count of operations takes them off the cursor.
pub(crate) proof fn lemma_pack_shift(n: nat, t: nat, k: nat)
    requires
        1 <= n,
        k * n <= t,
    ensures
        pack(n, (t - k * n) as nat) == pack(n, t) - k * lap(n),
        ((t - k * n) as nat) % n == t % n,
{
    lemma_fundamental_div_mod(t as int, n as int);
    let q = (t / n) as int;
    let r = (t % n) as int;
    let w = lap(n) as int;
    assert(t - k * n == (q - k) * n + r) by (nonlinear_arith)
        requires
            t == n * q + r,
    ;
    lemma_fundamental_div_mod_converse(t - k * n, n as int, q - k, r);
    assert((q - k) * w == q * w - k * w) by (nonlinear_arith);
}

/// Two operations on one position are at least a lap apart.
pub(crate) proof fn lemma_same_position(n: nat, t: nat, u: nat)
    requires
        1 <= n,
        t % n == u % n,
        t < u,
    ensures
        t + n <= u,
        pack(n, t) + lap(n) <= pack(n, u),
{
    lemma_fundamental_div_mod(t as int, n as int);
    lemma_fundamental_div_mod(u as int, n as int);
    let q = (t / n) as int;
    let s = (u / n) as int;
    let w = lap(n) as int;
    assert(s >= q + 1) by (nonlinear_arith)
        requires
            n * q < n * s,
            n >= 1,
    ;
    assert(n * s >= n * q + n) by (nonlinear_arith)
        requires
            s >= q + 1,
            n >= 1,
    ;
    assert(s * w >= q * w + w) by (nonlinear_arith)
        requires
            s >= q + 1,
            w >= 0,
    ;
}

/// Later operations find a cursor further on.
pub proof fn law_pack_increases(n: nat, t: nat, u: nat)
    requires
        1 <= n,
        t < u,
    ensures
        pack(n, t) < pack(n, u),
    decreases u,
{
    lemma_fields(n);
    lemma_pack_next(n, (u - 1) as nat);
    if t < u - 1 {
        law_pack_increases(n, t, (u - 1) as nat);
    }
}

/// The position takes the bits below the least power of two that is not less than
/// `n`, the closed bit is the least power of two greater than `n`, and a lap is
/// worth twice that.
pub proof fn law_fields(n: nat, p: int)
    requires
        1 <= n,
        is_pow2(p),
    ensures
        is_pow2(next_pow2(n) as int),
        is_pow2(closed_bit(n) as int),
        n <= next_pow2(n),
        n < closed_bit(n),
        n <= p ==> next_pow2(n) <= p,
        n < p ==> closed_bit(n) <= p,
        lap(n) == closed_bit(n) + closed_bit(n),
{
    lemma_fields(n);
    if n <= p {
        lemma_next_pow2_least(n, p);
    }
    if n < p {
        lemma_next_pow2_least(n + 1, p);
    }
}

/// A cursor starts at zero, moves to the next position with each operation, and
/// from the last position to the first one of the next lap; and it has moved by a
/// lap after `n` operations.
pub proof fn law_pack(n: nat, t: nat)
    requires
        1 <= n,
    ensures
        pack(n, 0) == 0,
        (t + 1) % n != 0 ==> pack(n, t + 1) == pack(n, t) + 1,
        (t + 1) % n == 0 ==> pack(n, t + 1) == pack(n, t) + lap(n) - t % n,
        pack(n, t + n) == pack(n, t) + lap(n),
        pack(n, t) % next_pow2(n) == t % n,
        (pack(n, t) / closed_bit(n)) % 2 == 0,
{
    lemma_pack_next(n, t);
    lemma_pack_lap(n, t);
    lemma_pack_fields(n, t);
    lemma_small_mod(0, n);
    lemma_basic_div(0, n as int);
    assert(0 * lap(n) == 0);
}

} // verus!
