//! Arithmetic of the indices that a circular buffer stamps its slots with.
//!
//! An index packs a lap and an offset: with a lap size `lap` (a power of two),
//! index `x` has offset `x % lap` and lap `x / lap`.  The `n`-th value that
//! goes through a queue with `e` usable slots per lap is handled at offset
//! `n % e` of lap `2 * (n / e)`: the even laps belong to the sending end, and
//! the odd laps, one lap later, to the receiving end.  Indices wrap around the
//! range of `usize`.
use crate::util::buffer::{is_power_of_two, lemma_pow2_exponent_fits};
use vstd::arithmetic::div_mod::*;
use vstd::arithmetic::mul::*;
use vstd::arithmetic::power2::*;
use vstd::layout::unsigned_int_max_values;
use vstd::prelude::*;
use vstd::wrapping::usize_specs;

verus! {

/// The number of values of `usize`.
pub open spec fn word_range() -> int {
    usize::MAX as int + 1
}

/// `x` reduced to the range of `usize`, wrapping around.
pub open spec fn wrap(x: int) -> int {
    x % word_range()
}

/// The unwrapped index of the `n`-th value that the sending end handles, with
/// `e` usable slots per lap and laps of size `lap`.
pub open spec fn stamp(n: nat, e: nat, lap: nat) -> int {
    (lap as int) * (2 * ((n / e) as int)) + ((n % e) as int)
}

/// A lap size divides the range of `usize`.
pub proof fn lemma_lap_divides_range(lap: nat)
    requires
        is_power_of_two(lap),
        lap <= usize::MAX,
    ensures
        lap > 0,
        word_range() == lap * (word_range() / (lap as int)),
        word_range() / (lap as int) > 0,
{
    let k = choose|k: nat| pow2(k) == lap;
    lemma_pow2_exponent_fits(lap as usize, k);
    lemma_pow2_pos(k);
    unsigned_int_max_values();
    let b = usize::BITS as nat;
    lemma_pow2_adds(k, (b - k) as nat);
    assert(pow2(b) == pow2(k) * pow2((b - k) as nat));
    lemma_pow2_pos((b - k) as nat);
    lemma_div_multiples_vanish(pow2((b - k) as nat) as int, lap as int);
}

/// When two laps fit in the range of `usize`, the range holds an even number of laps.
pub proof fn lemma_laps_in_range_even(lap: nat)
    requires
        is_power_of_two(lap),
        2 * lap < word_range(),
    ensures
        (word_range() / (lap as int)) % 2 == 0,
{
    lemma_lap_divides_range(lap);
    let k = choose|k: nat| pow2(k) == lap;
    lemma_pow2_exponent_fits(lap as usize, k);
    unsigned_int_max_values();
    let b = usize::BITS as nat;
    let j = (b - k) as nat;
    lemma_pow2_adds(k, j);
    lemma_pow2_pos(k);
    lemma_div_multiples_vanish(pow2(j) as int, lap as int);
    assert(word_range() / (lap as int) == pow2(j));
    if j == 0 {
        assert(pow2(0) == 1) by {
            lemma2_to64();
        }
    }
    if j == 1 {
        assert(pow2(1) == 2) by {
            lemma2_to64();
        }
    }
    lemma_pow2_unfold(j);
}

/// The lap of a wrapped index has the parity of the lap of the unwrapped one.
pub proof fn lemma_wrap_lap_parity(lap: nat, q: int, r: int)
    requires
        is_power_of_two(lap),
        2 * lap < word_range(),
        q >= 0,
        0 <= r < lap,
    ensures
        (wrap(lap * q + r) / (lap as int)) % 2 == q % 2,
        wrap(lap * q + r) % (lap as int) == r,
{
    lemma_lap_divides_range(lap);
    lemma_laps_in_range_even(lap);
    let m = word_range();
    let k = m / (lap as int);
    let x = lap * q + r;
    let t = x / m;
    lemma_fundamental_div_mod(x, m);
    assert(x % m == lap * (q - k * t) + r) by {
        lemma_mul_is_associative(lap as int, k, t);
        lemma_mul_is_distributive_sub(lap as int, q, k * t);
    }
    lemma_fundamental_div_mod_converse(x % m, lap as int, q - k * t, r);
    assert((q - k * t) % 2 == q % 2) by {
        let h = k / 2;
        lemma_fundamental_div_mod(k, 2);
        lemma_mul_is_associative(2, h, t);
        lemma_mod_multiples_vanish(-(h * t), q, 2);
        lemma_mul_is_distributive_sub(2, 0, h * t);
    }
}

/// Wrapping before adding gives what wrapping after adding gives.
pub proof fn lemma_wrap_add(x: int, d: int)
    ensures
        wrap(wrap(x) + d) == wrap(x + d),
        0 <= wrap(x) < word_range(),
{
    lemma_add_mod_noop_right(d, x, word_range());
    lemma_mod_bound(x, word_range());
}

/// Adding less than the whole range moves a wrapped value.
pub proof fn lemma_wrap_shift_differs(x: int, d: int)
    requires
        0 < d < word_range(),
    ensures
        wrap(x + d) != wrap(x),
{
    lemma_mod_equivalence(x + d, x, word_range());
    lemma_small_mod(d as nat, word_range() as nat);
}

/// The offset of a wrapped index is the offset of the unwrapped one.
pub proof fn lemma_wrap_offset(lap: nat, q: int, r: int)
    requires
        is_power_of_two(lap),
        lap <= usize::MAX,
        q >= 0,
        0 <= r < lap,
    ensures
        wrap(lap * q + r) % (lap as int) == r,
{
    lemma_lap_divides_range(lap);
    let x = lap * q + r;
    lemma_mod_mod(x, lap as int, word_range() / (lap as int));
    lemma_mod_multiples_vanish(q, r, lap as int);
    lemma_small_mod(r as nat, lap);
}

/// The offset of a stamp, and of the stamp one lap later, is `n % e`.
pub proof fn lemma_stamp_offset(n: nat, e: nat, lap: nat)
    requires
        is_power_of_two(lap),
        lap <= usize::MAX,
        0 < e <= lap,
    ensures
        wrap(stamp(n, e, lap)) % (lap as int) == n % e,
        wrap(stamp(n, e, lap) + lap) % (lap as int) == n % e,
        stamp(n, e, lap) >= 0,
{
    lemma_mod_bound(n as int, e as int);
    let q: int = 2 * ((n / e) as int);
    lemma_wrap_offset(lap, q, (n % e) as int);
    lemma_mul_is_distributive_add(lap as int, q, 1);
    lemma_wrap_offset(lap, q + 1, (n % e) as int);
    lemma_mul_nonnegative(lap as int, q);
}

/// How a stamp moves from one value to the next, and from one round of the
/// buffer to the next.
pub proof fn lemma_stamp_next(n: nat, e: nat, lap: nat)
    requires
        0 < e,
    ensures
        n % e + 1 < e ==> stamp(n + 1, e, lap) == stamp(n, e, lap) + 1,
        n % e + 1 < e ==> (n + 1) % e == n % e + 1,
        n % e + 1 >= e ==> stamp(n + 1, e, lap) == stamp(n, e, lap) - n % e + 2 * lap,
        n % e + 1 >= e ==> (n + 1) % e == 0,
        stamp(n + e, e, lap) == stamp(n, e, lap) + 2 * lap,
        (n + e) % e == n % e,
{
    let q: int = (n / e) as int;
    let r: int = (n % e) as int;
    lemma_fundamental_div_mod(n as int, e as int);
    lemma_mod_bound(n as int, e as int);
    lemma_mul_is_commutative(e as int, q);
    lemma_mul_is_distributive_add(lap as int, 2 * q, 2);
    if r + 1 < e {
        lemma_fundamental_div_mod_converse((n + 1) as int, e as int, q, r + 1);
    } else {
        lemma_mul_is_distributive_add(e as int, q, 1);
        lemma_fundamental_div_mod_converse((n + 1) as int, e as int, q + 1, 0);
    }
    lemma_mul_is_distributive_add(e as int, q, 1);
    lemma_fundamental_div_mod_converse((n + e) as int, e as int, q + 1, r);
}

/// Values of the window `[a, a + e)` sit in distinct slots.
pub proof fn lemma_residues_differ(a: nat, b: nat, e: nat)
    requires
        0 < e,
        a < b < a + e,
    ensures
        a % e != b % e,
{
    lemma_mod_equivalence(b as int, a as int, e as int);
    lemma_small_mod((b - a) as nat, e);
}

/// How far apart the stamps of the two ends are, for `ns - nr` values held.
pub proof fn lemma_stamp_gap(nr: nat, ns: nat, e: nat, lap: nat)
    requires
        0 < e <= lap,
        nr <= ns <= nr + e,
    ensures
        ns == nr ==> stamp(ns, e, lap) == stamp(nr, e, lap),
        ns == nr + e ==> stamp(ns, e, lap) == stamp(nr, e, lap) + 2 * lap,
        ns == nr + e ==> ns % e == nr % e,
        nr < ns < nr + e ==> 0 < stamp(ns, e, lap) - stamp(nr, e, lap) < 2 * lap,
        nr < ns < nr + e ==> ns % e != nr % e,
        nr < ns < nr + e && nr % e < ns % e ==> ns - nr == ns % e - nr % e,
        nr < ns < nr + e && nr % e > ns % e ==> ns - nr == e - nr % e + ns % e,
{
    if ns == nr + e {
        lemma_stamp_next(nr, e, lap);
    } else if nr < ns {
        lemma_residues_differ(nr, ns, e);
        let qa: int = (nr / e) as int;
        let ra: int = (nr % e) as int;
        let qb: int = (ns / e) as int;
        let rb: int = (ns % e) as int;
        lemma_fundamental_div_mod(nr as int, e as int);
        lemma_fundamental_div_mod(ns as int, e as int);
        lemma_mod_bound(nr as int, e as int);
        lemma_mod_bound(ns as int, e as int);
        let c: int = ns - nr;
        assert(c == e * (qb - qa) + rb - ra) by {
            lemma_mul_is_distributive_sub(e as int, qb, qa);
        }
        assert(qb == qa || qb == qa + 1) by {
            if qb - qa >= 2 {
                lemma_mul_inequality(2, qb - qa, e as int);
                lemma_mul_is_commutative(e as int, qb - qa);
            }
            if qb - qa <= -1 {
                lemma_mul_inequality(qb - qa, -1, e as int);
                lemma_mul_is_commutative(e as int, qb - qa);
            }
        }
        if qb == qa {
            assert(stamp(ns, e, lap) - stamp(nr, e, lap) == rb - ra);
        } else {
            lemma_mul_is_distributive_add(lap as int, 2 * qa, 2);
            lemma_mul_is_distributive_add(e as int, qa, 1);
            assert(stamp(ns, e, lap) - stamp(nr, e, lap) == 2 * lap + rb - ra);
        }
    }
}

/// `wrapping_add` on `usize` wraps the sum.
pub proof fn lemma_wrapping_add(a: usize, b: usize)
    ensures
        usize_specs::wrapping_add(a, b) == wrap(a + b),
{
    if a + b > usize::MAX {
        lemma_fundamental_div_mod_converse(a + b, word_range(), 1, a + b - word_range());
    } else {
        lemma_small_mod((a + b) as nat, word_range() as nat);
    }
}

/// `wrapping_mul` on `usize` wraps the product.
pub proof fn lemma_wrapping_mul(a: usize, b: usize)
    ensures
        usize_specs::wrapping_mul(a, b) == wrap(a * b),
{
    lemma_mul_nonnegative(a as int, b as int);
    lemma_mod_bound(a * b, word_range());
}

/// Clearing the low bits of `x` leaves `x` less its low bits.
pub proof fn lemma_mask_split(x: usize, m: usize)
    by (bit_vector)
    ensures
        (x & !m) + (x & m) == x,
{
}

} // verus!
