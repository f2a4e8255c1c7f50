//! The Fibonacci sequence: three ways to compute the number at an index in
//! `u128`, one in arbitrary precision, and two sources that yield the
//! sequence number by number.

use vstd::prelude::*;
use vstd::std_specs::convert::IntoSpec;
use num::BigUint;
use crate::numerics::big::{
    big_add, big_clone, big_div_small, big_eq, big_mul, big_mul_small, big_nat, big_one,
    big_rem_small, big_sub, big_zero,
};

verus! {

/// The Fibonacci sequence: 0, 1, and from there on the sum of the two
/// numbers before.
pub open spec fn fib(n: nat) -> nat
    decreases n,
{
    if n == 0 {
        0
    } else if n == 1 {
        1
    } else {
        fib((n - 1) as nat) + fib((n - 2) as nat)
    }
}

/// The index of the last Fibonacci number that fits in a `u128`.
pub const LAST_INDEX: u128 = 186;

/// The Fibonacci sequence never falls.
pub proof fn lemma_fib_monotonic(i: nat, j: nat)
    requires
        i <= j,
    ensures
        fib(i) <= fib(j),
    decreases j - i,
{
    if i < j {
        lemma_fib_monotonic(i, (j - 1) as nat);
        if j >= 2 {
        }
    }
}

/// The doubling identities: the Fibonacci numbers at `2k` and `2k + 1` in
/// terms of those at `k` and `k + 1`.
pub proof fn lemma_fib_doubling(k: nat)
    ensures
        fib(k) <= 2 * fib(k + 1),
        fib(2 * k) == fib(k) * (2 * fib(k + 1) - fib(k)),
        fib(2 * k + 1) == fib(k) * fib(k) + fib(k + 1) * fib(k + 1),
    decreases k,
{
    lemma_fib_monotonic(k, k + 1);
    if k == 0 {
        assert(fib(1) == 1);
    } else {
        let j = (k - 1) as nat;
        lemma_fib_doubling(j);
        let a = fib(j) as int;
        let b = fib(j + 1) as int;
        assert(fib(k + 1) == a + b);
        assert(fib(2 * j) == a * (2 * b - a));
        assert(fib(2 * j + 1) == a * a + b * b);
        assert(fib(2 * k) == fib(2 * j + 1) + fib(2 * j));
        assert(fib(2 * k + 1) == fib(2 * k) + fib(2 * j + 1));
        assert(a * a + b * b + a * (2 * b - a) == b * (2 * (a + b) - b)) by (nonlinear_arith);
        assert(b * (2 * (a + b) - b) + (a * a + b * b) == b * b + (a + b) * (a + b))
            by (nonlinear_arith);
    }
}

/// The Fibonacci numbers at 5, 6 and 7.
proof fn lemma_fib_at_small()
    ensures
        fib(5) == 5,
        fib(6) == 8,
        fib(7) == 13,
{
    reveal_with_fuel(fib, 8);
}

/// The Fibonacci numbers at 10, 11 and 12.
proof fn lemma_fib_at_10()
    ensures
        fib(10) == 55,
        fib(11) == 89,
        fib(12) == 144,
{
    lemma_fib_at_small();
    lemma_fib_doubling(5);
    let a: int = 5;
    let b: int = 8;
    assert(fib(5) == a && fib(6) == b);
    assert(a * (2 * b - a) == 55) by (nonlinear_arith)
        requires
            a == 5,
            b == 8,
    ;
    assert(a * a + b * b == 89) by (nonlinear_arith)
        requires
            a == 5,
            b == 8,
    ;
    assert(fib(12) == fib(11) + fib(10));
}

/// The Fibonacci numbers at 22, 23 and 24.
proof fn lemma_fib_at_22()
    ensures
        fib(22) == 17711,
        fib(23) == 28657,
        fib(24) == 46368,
{
    lemma_fib_at_10();
    lemma_fib_doubling(11);
    let a: int = 89;
    let b: int = 144;
    assert(fib(11) == a && fib(12) == b);
    assert(a * (2 * b - a) == 17711) by (nonlinear_arith)
        requires
            a == 89,
            b == 144,
    ;
    assert(a * a + b * b == 28657) by (nonlinear_arith)
        requires
            a == 89,
            b == 144,
    ;
    assert(fib(24) == fib(23) + fib(22));
}

/// The Fibonacci numbers at 46, 47 and 48.
proof fn lemma_fib_at_46()
    ensures
        fib(46) == 1836311903,
        fib(47) == 2971215073,
        fib(48) == 4807526976,
{
    lemma_fib_at_22();
    lemma_fib_doubling(23);
    let a: int = 28657;
    let b: int = 46368;
    assert(fib(23) == a && fib(24) == b);
    assert(a * (2 * b - a) == 1836311903) by (nonlinear_arith)
        requires
            a == 28657,
            b == 46368,
    ;
    assert(a * a + b * b == 2971215073) by (nonlinear_arith)
        requires
            a == 28657,
            b == 46368,
    ;
    assert(fib(48) == fib(47) + fib(46));
}

/// The Fibonacci numbers at 92, 93 and 94.
proof fn lemma_fib_at_92()
    ensures
        fib(92) == 7540113804746346429,
        fib(93) == 12200160415121876738,
        fib(94) == 19740274219868223167,
{
    lemma_fib_at_46();
    lemma_fib_doubling(46);
    let a: int = 1836311903;
    let b: int = 2971215073;
    assert(fib(46) == a && fib(47) == b);
    assert(a * (2 * b - a) == 7540113804746346429) by (nonlinear_arith)
        requires
            a == 1836311903,
            b == 2971215073,
    ;
    assert(a * a + b * b == 12200160415121876738) by (nonlinear_arith)
        requires
            a == 1836311903,
            b == 2971215073,
    ;
    assert(fib(94) == fib(93) + fib(92));
}

/// The Fibonacci numbers at 186, 187 and 188.
proof fn lemma_fib_at_186()
    ensures
        fib(186) == 332825110087067562321196029789634457848,
        fib(187) == 538522340430300790495419781092981030533,
        fib(188) == 871347450517368352816615810882615488381,
{
    lemma_fib_at_92();
    lemma_fib_doubling(93);
    let a: int = 12200160415121876738;
    let b: int = 19740274219868223167;
    assert(fib(93) == a && fib(94) == b);
    assert(a * (2 * b - a) == 332825110087067562321196029789634457848) by (nonlinear_arith)
        requires
            a == 12200160415121876738,
            b == 19740274219868223167,
    ;
    assert(a * a + b * b == 538522340430300790495419781092981030533) by (nonlinear_arith)
        requires
            a == 12200160415121876738,
            b == 19740274219868223167,
    ;
    assert(fib(188) == fib(187) + fib(186));
}

/// Some Fibonacci numbers, the last that fits in a `u128` among them.
pub proof fn lemma_fib_values()
    ensures
        fib(93) == 12200160415121876738,
        fib(94) == 19740274219868223167,
        fib(186) == 332825110087067562321196029789634457848,
        fib(187) == 538522340430300790495419781092981030533,
        fib(186) <= u128::MAX < fib(187),
{
    lemma_fib_at_92();
    lemma_fib_at_186();
}

/// The Fibonacci numbers up to the one at `LAST_INDEX` fit in a `u128`, and
/// those up to the one at half that index in a `u64`.
pub proof fn lemma_fib_fits(n: nat)
    ensures
        n <= LAST_INDEX ==> fib(n) <= u128::MAX,
        n <= 93 ==> fib(n) <= u64::MAX,
{
    lemma_fib_values();
    if n <= 186 {
        lemma_fib_monotonic(n, 186);
    }
    if n <= 93 {
        lemma_fib_monotonic(n, 93);
    }
}

/// The Fibonacci number at `nth`, by the recurrence itself: the sum of the
/// two numbers before, each computed in the same way.
///
/// The number fits in a `u128` for every index up to `LAST_INDEX`.
pub fn recursive_fibonacci(nth: u128) -> (number: u128)
    requires
        nth <= LAST_INDEX,
    ensures
        number == fib(nth as nat),
    decreases nth,
{
    if nth == 0 {
        0
    } else if nth == 1 || nth == 2 {
        proof {
            reveal_with_fuel(fib, 3);
        }
        1
    } else {
        proof {
            lemma_fib_fits(nth as nat);
        }
        recursive_fibonacci(nth - 1) + recursive_fibonacci(nth - 2)
    }
}

/// The Fibonacci number at `nth`, by stepping from the first two numbers
/// `nth` times.
///
/// Each step computes the number after the one that it reaches, so the
/// index stays below `LAST_INDEX`.
pub fn dynamic_fibonacci(nth: u128) -> (number: u128)
    requires
        nth < LAST_INDEX,
    ensures
        number == fib(nth as nat),
{
    let mut a: u128 = 0;
    let mut b: u128 = 1;
    let mut done: u128 = 0;
    while done < nth
        invariant
            done <= nth < LAST_INDEX,
            a == fib(done as nat),
            b == fib(done as nat + 1),
        decreases nth - done,
    {
        proof {
            lemma_fib_fits(done as nat + 2);
        }
        let c: u128 = a + b;
        a = b;
        b = c;
        done += 1;
    }
    a
}

/// The Fibonacci number at `nth`, by fast doubling: the numbers at `2k` and
/// `2k + 1` are computed from those at `k` and `k + 1`.
///
/// The number after the one asked for is computed with it, so the index
/// stays below `LAST_INDEX`.
pub fn fast_doubling_fibonacci(nth: u128) -> (number: u128)
    requires
        nth < LAST_INDEX,
    ensures
        number == fib(nth as nat),
{
    _fib(nth).0
}

/// The Fibonacci numbers at `nth` and at `nth + 1`, by fast doubling.
fn _fib(nth: u128) -> (pair: (u128, u128))
    requires
        nth < LAST_INDEX,
    ensures
        pair.0 == fib(nth as nat),
        pair.1 == fib(nth as nat + 1),
    decreases nth,
{
    if nth == 0 {
        (0, 1)
    } else {
        let half: (u128, u128) = _fib(nth / 2);
        let a: u128 = half.0;
        let b: u128 = half.1;
        proof {
            let k = (nth / 2) as nat;
            lemma_fib_doubling(k);
            lemma_fib_fits(k + 1);
            lemma_fib_fits(2 * k);
            lemma_fib_fits(2 * k + 1);
            lemma_fib_fits(2 * k + 2);
            assert(0 <= a * a) by (nonlinear_arith);
            assert(0 <= b * b) by (nonlinear_arith);
        }
        let c: u128 = a * (b * 2 - a);
        let d: u128 = a * a + b * b;
        if nth % 2 == 0 {
            (c, d)
        } else {
            (d, c + d)
        }
    }
}

/// A source of the Fibonacci sequence, one number at a call of `next`.
///
/// It holds the number that comes next and the one after it, and steps by
/// replacing them with the second and the sum of the two.
///
/// # Warning
/// The numbers are held in `u128`: a source that starts at zero can step
/// 185 times, after which the sum of the two numbers held no longer fits.
#[derive(Debug)]
pub struct Fib {
    val: (u128, u128),
}

impl View for Fib {
    type V = (nat, nat);

    /// The number that comes next, and the one after it.
    closed spec fn view(&self) -> (nat, nat) {
        (self.val.0 as nat, self.val.1 as nat)
    }
}

impl Clone for Fib {
    /// A source that stands where this one stands.
    fn clone(&self) -> (copy: Self)
        ensures
            copy@ == self@,
    {
        Fib { val: (self.val.0, self.val.1) }
    }
}

impl Default for Fib {
    /// The source that starts with two zeros, and so yields zeros only.
    fn default() -> (start: Self)
        ensures
            start@ == (0nat, 0nat),
    {
        Fib { val: (0, 0) }
    }
}

impl Fib {
    /// The source stands at index `n` of the Fibonacci sequence.
    pub open spec fn at_index(&self, n: nat) -> bool {
        self@ == (fib(n), fib(n + 1))
    }

    /// The step that `next` takes can be computed in a `u128`.
    pub open spec fn can_step(&self) -> bool {
        self@.0 + self@.1 <= u128::MAX
    }

    /// A source that starts at the first Fibonacci number, zero.
    pub fn new() -> (start: Self)
        ensures
            start.at_index(0),
            start.can_step(),
    {
        proof {
            reveal_with_fuel(fib, 2);
        }
        Self { val: (0, 1) }
    }

    /// A source that starts at the Fibonacci number at `nth`.
    pub fn at<I: Into<u128>>(nth: I) -> (start: Self)
        requires
            I::obeys_into_spec(),
            nth.into_spec() < LAST_INDEX,
        ensures
            start.at_index(nth.into_spec() as nat),
    {
        Self { val: _fib(nth.into()) }
    }

    /// Whether `next` may be called: whether the sum of the two numbers
    /// held fits in a `u128`.
    pub fn has_next(&self) -> (fits: bool)
        ensures
            fits == self.can_step(),
    {
        self.val.0.checked_add(self.val.1).is_some()
    }

    /// Yields the number that comes next and steps to the one after it.
    pub fn next(&mut self) -> (number: Option<u128>)
        requires
            old(self).can_step(),
        ensures
            number == Some(old(self)@.0 as u128),
            final(self)@ == (old(self)@.1, old(self)@.0 + old(self)@.1),
            forall|n: nat| old(self).at_index(n) ==> final(self).at_index(n + 1),
    {
        let next: u128 = self.val.0;
        self.val = (self.val.1, self.val.0 + self.val.1);
        Some(next)
    }
}

/// A source that stands at index `n` can step as long as the number at
/// `n + 2` fits in a `u128`, that is up to two below `LAST_INDEX`.
pub proof fn lemma_fib_can_step(source: Fib, n: nat)
    requires
        source.at_index(n),
    ensures
        source.can_step() <==> n + 2 <= LAST_INDEX,
{
    lemma_fib_values();
    if n + 2 <= LAST_INDEX {
        lemma_fib_fits(n + 2);
    } else {
        lemma_fib_monotonic(187, n + 2);
    }
}

/// A source of the Fibonacci sequence in arbitrary precision, one number at
/// a call of `next`.
///
/// It holds the number that comes next and the one after it, and steps by
/// replacing them with the second and the sum of the two.
#[derive(Debug)]
pub struct BigFib {
    val: (BigUint, BigUint),
}

impl View for BigFib {
    type V = (nat, nat);

    /// The number that comes next, and the one after it.
    closed spec fn view(&self) -> (nat, nat) {
        (big_nat(self.val.0), big_nat(self.val.1))
    }
}

impl Clone for BigFib {
    /// A source that stands where this one stands.
    fn clone(&self) -> (copy: Self)
        ensures
            copy@ == self@,
    {
        BigFib { val: (big_clone(&self.val.0), big_clone(&self.val.1)) }
    }
}

impl Default for BigFib {
    /// The source that starts with two zeros, and so yields zeros only.
    fn default() -> (start: Self)
        ensures
            start@ == (0nat, 0nat),
    {
        BigFib { val: (big_zero(), big_zero()) }
    }
}

impl BigFib {
    /// The source stands at index `n` of the Fibonacci sequence.
    pub open spec fn at_index(&self, n: nat) -> bool {
        self@ == (fib(n), fib(n + 1))
    }

    /// A source that starts at the first Fibonacci number, zero.
    pub fn new() -> (start: Self)
        ensures
            start.at_index(0),
    {
        proof {
            reveal_with_fuel(fib, 2);
        }
        Self { val: (big_zero(), big_one()) }
    }

    /// A source that starts at the Fibonacci number at `nth`.
    pub fn at(nth: BigUint) -> (start: Self)
        ensures
            start.at_index(big_nat(nth)),
    {
        Self { val: _big_fib(&nth) }
    }

    /// Yields the number that comes next and steps to the one after it.
    pub fn next(&mut self) -> (number: Option<BigUint>)
        ensures
            number is Some,
            big_nat(number->0) == old(self)@.0,
            final(self)@ == (old(self)@.1, old(self)@.0 + old(self)@.1),
            forall|n: nat| old(self).at_index(n) ==> final(self).at_index(n + 1),
    {
        let next: BigUint = big_clone(&self.val.0);
        self.val = (big_clone(&self.val.1), big_add(&self.val.0, &self.val.1));
        Some(next)
    }
}

/// The Fibonacci number at `nth`, by fast doubling, in arbitrary precision.
pub fn big_fast_doubling_fibonacci(nth: BigUint) -> (number: BigUint)
    ensures
        big_nat(number) == fib(big_nat(nth)),
{
    _big_fib(&nth).0
}

/// The Fibonacci numbers at `nth` and at `nth + 1`, by fast doubling, in
/// arbitrary precision.
fn _big_fib(nth: &BigUint) -> (pair: (BigUint, BigUint))
    ensures
        big_nat(pair.0) == fib(big_nat(*nth)),
        big_nat(pair.1) == fib(big_nat(*nth) + 1),
    decreases big_nat(*nth),
{
    if big_eq(nth, &big_zero()) {
        (big_zero(), big_one())
    } else {
        let half: (BigUint, BigUint) = _big_fib(&big_div_small(nth, 2));
        let a: BigUint = half.0;
        let b: BigUint = half.1;
        proof {
            lemma_fib_doubling(big_nat(*nth) / 2);
        }
        let c: BigUint = big_mul(&a, &big_sub(&big_mul_small(&b, 2), &a));
        let d: BigUint = big_add(&big_mul(&a, &a), &big_mul(&b, &b));
        if big_eq(&big_rem_small(nth, 2), &big_zero()) {
            (c, d)
        } else {
            (big_clone(&d), big_add(&c, &d))
        }
    }
}

} // verus!
