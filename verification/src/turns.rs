//! The arithmetic of taking turns: `len` places are visited one after the other, and the
//! visit with number `x` is to the place `x % len`.
use vstd::arithmetic::div_mod::{
    lemma_fundamental_div_mod, lemma_fundamental_div_mod_converse, lemma_mod_bound,
};
use vstd::prelude::*;

verus! {

/// How many of the `n` visits from number `start` on are to the place.
pub open spec fn visits(start: nat, n: nat, place: nat, len: nat) -> nat
    decreases n,
{
    if n == 0 {
        0
    } else {
        visits(start, (n - 1) as nat, place, len) + if (start + n - 1) % (len as int) == place {
            1nat
        } else {
            0nat
        }
    }
}

/// The `n` visits from number `current` on go round evenly: the counter does not wrap around
/// before they are over, or it wraps around at the end of a round.
pub open spec fn steady(current: usize, n: nat, len: nat) -> bool {
    ||| current + n <= usize::MAX + 1
    ||| (usize::MAX + 1) % (len as int) == 0
}

/// The place that is visited `k` visits after the one with number `current`, by a counter that
/// wraps around.
pub open spec fn place_after(current: usize, k: nat, len: nat) -> int {
    ((current + k) % (usize::MAX + 1)) % (len as int)
}

/// As long as the visits go round evenly, each is to the place after the one before.
pub proof fn lemma_place_after(current: usize, k: nat, len: nat)
    requires
        len > 0,
        steady(current, k + 1, len),
    ensures
        place_after(current, k, len) == (current + k) % len as int,
{
    let size = usize::MAX + 1;
    let d = len as int;
    let x = current + k;
    if x < size {
        vstd::arithmetic::div_mod::lemma_small_mod(x as nat, size as nat);
    } else {
        lemma_fundamental_div_mod(x, size);
        lemma_fundamental_div_mod(size, d);
        let q = x / size;
        let w = size / d;
        assert(x == (q * w) * d + x % size) by (nonlinear_arith)
            requires
                x == size * q + x % size,
                size == d * w,
        ;
        vstd::arithmetic::div_mod::lemma_mod_multiples_vanish(q * w, x % size, d);
        assert(d * (q * w) == (q * w) * d) by (nonlinear_arith);
    }
}

/// Counting on by one goes to the next place, also where the counter wraps around.
pub proof fn lemma_next_place(counter: usize, number: nat, len: nat)
    requires
        len > 0,
        counter as int % len as int == number as int % len as int,
        counter < usize::MAX || (usize::MAX + 1) % (len as int) == 0,
    ensures
        crate::pool::successor(counter) as int % len as int == (number as int + 1) % len as int,
{
    let d = len as int;
    vstd::arithmetic::div_mod::lemma_add_mod_noop_right(1, counter as int, d);
    vstd::arithmetic::div_mod::lemma_add_mod_noop_right(1, number as int, d);
    if counter == usize::MAX {
        vstd::arithmetic::div_mod::lemma_small_mod(0, len);
    }
}

/// What a counter comes to when it is counted on by `n` and then by one, or the other way
/// round.
pub proof fn lemma_counter(counter: usize, n: nat)
    ensures
        counter as int % (usize::MAX + 1) == counter,
        crate::pool::successor(counter) == (counter + 1) % (usize::MAX + 1),
        (crate::pool::successor(counter) + n) % (usize::MAX + 1) == (counter + 1 + n) % (usize::MAX
            + 1),
{
    let size = usize::MAX + 1;
    vstd::arithmetic::div_mod::lemma_small_mod(counter as nat, size as nat);
    if counter == usize::MAX {
        vstd::arithmetic::div_mod::lemma_mod_self_0(size);
        vstd::arithmetic::div_mod::lemma_mod_add_multiples_vanish(n as int, size);
    } else {
        vstd::arithmetic::div_mod::lemma_small_mod((counter + 1) as nat, size as nat);
    }
}

/// A counter that has been counted on by `n`, counted on by one more.
pub proof fn lemma_counted_on(current: usize, n: nat, counter: usize)
    requires
        counter == (current + n) % (usize::MAX + 1),
    ensures
        crate::pool::successor(counter) == (current + n + 1) % (usize::MAX + 1),
{
    lemma_counter(counter, 0);
    vstd::arithmetic::div_mod::lemma_add_mod_noop_right(1, current + n, usize::MAX + 1);
}

/// Visits less than a whole round apart are to different places.
pub proof fn lemma_places_differ(x: nat, y: nat, len: nat)
    requires
        x < y < x + len,
    ensures
        x % len != y % len,
{
    let (d, a, b) = (len as int, x as int, y as int);
    lemma_fundamental_div_mod(a, d);
    lemma_fundamental_div_mod(b, d);
    if a % d == b % d {
        let q = b / d - a / d;
        assert(d * (b / d) - d * (a / d) == d * q) by (nonlinear_arith)
            requires
                q == b / d - a / d,
        ;
        assert(0 < d * q < d);
        assert(false) by (nonlinear_arith)
            requires
                0 < d * q < d,
                d > 0,
        ;
    }
}

/// Visits a whole round apart are to the same place.
pub proof fn lemma_place_recurs(x: nat, len: nat)
    requires
        len > 0,
    ensures
        (x + len) % len == x % len,
{
    vstd::arithmetic::div_mod::lemma_mod_add_multiples_vanish(x as int, len as int);
}

/// Every place is visited in every round: the number of a visit to it among the `len` from
/// `start` on.
pub proof fn lemma_place_is_visited(start: nat, place: nat, len: nat) -> (k: nat)
    requires
        place < len,
    ensures
        k < len,
        (start + k) % len == place,
{
    let (s, d, p) = (start as int, len as int, place as int);
    lemma_fundamental_div_mod(s, d);
    lemma_mod_bound(s, d);
    let q = s / d;
    if p >= s % d {
        let k = p - s % d;
        assert(s + k == q * d + p) by (nonlinear_arith)
            requires
                s == d * q + s % d,
                k == p - s % d,
        ;
        lemma_fundamental_div_mod_converse(s + k, d, q, p);
        k as nat
    } else {
        let k = p + d - s % d;
        assert(s + k == (q + 1) * d + p) by (nonlinear_arith)
            requires
                s == d * q + s % d,
                k == p + d - s % d,
        ;
        lemma_fundamental_div_mod_converse(s + k, d, q + 1, p);
        k as nat
    }
}

/// One more visit counts exactly when it is to the place.
proof fn lemma_visit_step(x: int, place: int, d: int)
    requires
        0 <= place < d,
    ensures
        (x - place) / d - (x - 1 - place) / d == if x % d == place {
            1int
        } else {
            0int
        },
{
    let (q, r) = (x / d, x % d);
    lemma_fundamental_div_mod(x, d);
    lemma_mod_bound(x, d);
    if r >= place {
        assert(x - place == q * d + (r - place)) by (nonlinear_arith)
            requires
                x == d * q + r,
        ;
        lemma_fundamental_div_mod_converse(x - place, d, q, r - place);
    } else {
        assert(x - place == (q - 1) * d + (r - place + d)) by (nonlinear_arith)
            requires
                x == d * q + r,
        ;
        lemma_fundamental_div_mod_converse(x - place, d, q - 1, r - place + d);
    }
    if r > place {
        assert(x - 1 - place == q * d + (r - 1 - place)) by (nonlinear_arith)
            requires
                x == d * q + r,
        ;
        lemma_fundamental_div_mod_converse(x - 1 - place, d, q, r - 1 - place);
    } else {
        assert(x - 1 - place == (q - 1) * d + (r - 1 - place + d)) by (nonlinear_arith)
            requires
                x == d * q + r,
        ;
        lemma_fundamental_div_mod_converse(x - 1 - place, d, q - 1, r - 1 - place + d);
    }
}

/// The number of visits to a place, in closed form.
proof fn lemma_visits_closed_form(start: nat, n: nat, place: nat, len: nat)
    requires
        place < len,
    ensures
        visits(start, n, place, len) == (start + n - 1 - place) / len as int - (start - 1 - place)
            / len as int,
    decreases n,
{
    if n > 0 {
        lemma_visits_closed_form(start, (n - 1) as nat, place, len);
        lemma_visit_step(start + n - 1, place as int, len as int);
    }
}

/// In `n` visits every place is visited `n / len` times, or once more where the last round
/// is not whole.
pub proof fn lemma_visits_are_even(start: nat, n: nat, place: nat, len: nat)
    requires
        place < len,
    ensures
        n / len <= visits(start, n, place, len) <= n / len + 1,
        n % len == 0 ==> visits(start, n, place, len) == n / len,
{
    let (d, a, k) = (len as int, start - 1 - place, n as int);
    let (q, r, m, s) = (a / d, a % d, k / d, k % d);
    lemma_visits_closed_form(start, n, place, len);
    lemma_fundamental_div_mod(a, d);
    lemma_fundamental_div_mod(k, d);
    lemma_mod_bound(a, d);
    lemma_mod_bound(k, d);
    if r + s < d {
        assert(a + k == (q + m) * d + (r + s)) by (nonlinear_arith)
            requires
                a == d * q + r,
                k == d * m + s,
        ;
        lemma_fundamental_div_mod_converse(a + k, d, q + m, r + s);
    } else {
        assert(a + k == (q + m + 1) * d + (r + s - d)) by (nonlinear_arith)
            requires
                a == d * q + r,
                k == d * m + s,
        ;
        lemma_fundamental_div_mod_converse(a + k, d, q + m + 1, r + s - d);
    }
}

} // verus!
