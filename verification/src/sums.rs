//! Sums over sequences.

use vstd::prelude::*;

verus! {

/// The sum of `f` over the elements of `s`.
pub open spec fn total<A>(s: Seq<A>, f: spec_fn(A) -> int) -> int
    decreases s.len(),
{
    if s.len() == 0 {
        0
    } else {
        total(s.drop_last(), f) + f(s.last())
    }
}

pub proof fn lemma_total_push<A>(s: Seq<A>, f: spec_fn(A) -> int, x: A)
    ensures
        total(s.push(x), f) == total(s, f) + f(x),
{
    assert(s.push(x).drop_last() =~= s);
}

pub proof fn lemma_total_add<A>(s: Seq<A>, t: Seq<A>, f: spec_fn(A) -> int)
    ensures
        total(s + t, f) == total(s, f) + total(t, f),
    decreases t.len(),
{
    if t.len() == 0 {
        assert(s + t =~= s);
    } else {
        assert((s + t).drop_last() =~= s + t.drop_last());
        lemma_total_add(s, t.drop_last(), f);
    }
}

/// The sum splits at any one element.
pub proof fn lemma_total_split<A>(s: Seq<A>, f: spec_fn(A) -> int, i: int)
    requires
        0 <= i < s.len(),
    ensures
        total(s, f) == total(s.take(i), f) + f(s[i]) + total(s.skip(i + 1), f),
{
    assert(s =~= s.take(i + 1) + s.skip(i + 1));
    lemma_total_add(s.take(i + 1), s.skip(i + 1), f);
    assert(s.take(i + 1) =~= s.take(i).push(s[i]));
    lemma_total_push(s.take(i), f, s[i]);
}

pub proof fn lemma_total_update<A>(s: Seq<A>, f: spec_fn(A) -> int, i: int, x: A)
    requires
        0 <= i < s.len(),
    ensures
        total(s.update(i, x), f) == total(s, f) - f(s[i]) + f(x),
{
    let t = s.update(i, x);
    lemma_total_split(s, f, i);
    lemma_total_split(t, f, i);
    assert(s.take(i) =~= t.take(i));
    assert(s.skip(i + 1) =~= t.skip(i + 1));
}

pub proof fn lemma_total_remove<A>(s: Seq<A>, f: spec_fn(A) -> int, i: int)
    requires
        0 <= i < s.len(),
    ensures
        total(s.remove(i), f) == total(s, f) - f(s[i]),
{
    lemma_total_split(s, f, i);
    assert(s.remove(i) =~= s.take(i) + s.skip(i + 1));
    lemma_total_add(s.take(i), s.skip(i + 1), f);
}

pub proof fn lemma_total_insert<A>(s: Seq<A>, f: spec_fn(A) -> int, i: int, x: A)
    requires
        0 <= i <= s.len(),
    ensures
        total(s.insert(i, x), f) == total(s, f) + f(x),
{
    let t = s.insert(i, x);
    lemma_total_remove(t, f, i);
    assert(t.remove(i) =~= s);
}

/// A sum of terms that are not negative is at least each of them.
pub proof fn lemma_total_bounds<A>(s: Seq<A>, f: spec_fn(A) -> int)
    requires
        forall|i: int| 0 <= i < s.len() ==> f(#[trigger] s[i]) >= 0,
    ensures
        total(s, f) >= 0,
        forall|i: int| 0 <= i < s.len() ==> f(#[trigger] s[i]) <= total(s, f),
    decreases s.len(),
{
    if s.len() > 0 {
        let t = s.drop_last();
        assert forall|i: int| 0 <= i < t.len() implies f(#[trigger] t[i]) >= 0 by {
            assert(t[i] == s[i]);
        }
        lemma_total_bounds(t, f);
        assert forall|i: int| 0 <= i < s.len() implies f(#[trigger] s[i]) <= total(s, f) by {
            if i < t.len() {
                assert(t[i] == s[i]);
            }
            assert(f(s[s.len() - 1]) >= 0);
        }
    }
}

/// The product of two numbers, which always fits in twice the width.
pub fn product(a: u64, b: u64) -> (p: u128)
    ensures
        p == a * b,
{
    assert(0 <= a * b <= u64::MAX * u64::MAX) by (nonlinear_arith)
        requires
            0 <= a <= u64::MAX,
            0 <= b <= u64::MAX,
    ;
    a as u128 * b as u128
}

/// The first number that 64 bits do not hold. It stands for all that follow it.
pub const BEYOND: u128 = 18_446_744_073_709_551_616;

/// `n`, or [`BEYOND`] where `n` is at least that.
pub open spec fn capped(n: int) -> int {
    if n >= BEYOND {
        BEYOND as int
    } else {
        n
    }
}

proof fn lemma_capped_product(a: int, b: int)
    requires
        0 <= a,
        0 <= b,
    ensures
        capped(capped(a) * capped(b)) == capped(a * b),
        0 <= a * b,
        capped(a) == BEYOND && b > 0 ==> capped(a * b) == BEYOND,
        capped(b) == BEYOND && a > 0 ==> capped(a * b) == BEYOND,
{
    let x = capped(a);
    let y = capped(b);
    assert(0 <= a * b) by (nonlinear_arith)
        requires
            0 <= a,
            0 <= b,
    ;
    if a == 0 || b == 0 {
        assert(a * b == 0 && x * y == 0) by (nonlinear_arith)
            requires
                a == 0 || b == 0,
                a == 0 ==> x == 0,
                b == 0 ==> y == 0,
        ;
    } else {
        assert(a * b >= a && a * b >= b && x * y >= x && x * y >= y) by (nonlinear_arith)
            requires
                a >= 1,
                b >= 1,
                x >= 1,
                y >= 1,
        ;
    }
}

/// A number that is counted exactly as long as 64 bits hold it, and as [`BEYOND`] from there on.
#[derive(Clone, Copy)]
pub struct Capped {
    n: u128,
    exact: Ghost<int>,
}

impl View for Capped {
    type V = int;

    /// What the number would be without a cap.
    closed spec fn view(&self) -> int {
        self.exact@
    }
}

impl Capped {
    #[verifier::type_invariant]
    spec fn is_sound(self) -> bool {
        &&& self.exact@ >= 0
        &&& self.n == capped(self.exact@)
    }

    pub fn of(n: u64) -> (c: Self)
        ensures
            c@ == n,
    {
        Capped { n: n as u128, exact: Ghost(n as int) }
    }

    pub fn times(self, other: Capped) -> (c: Self)
        ensures
            c@ == self@ * other@,
            c@ >= 0,
    {
        proof {
            use_type_invariant(self);
            use_type_invariant(other);
            lemma_capped_product(self.exact@, other.exact@);
            lemma_capped_product(self.n as int, other.n as int);
        }
        let exact = Ghost(self.exact@ * other.exact@);
        if self.n == 0 || other.n == 0 {
            assert(self.n * other.n == 0) by (nonlinear_arith)
                requires
                    self.n == 0 || other.n == 0,
            ;
            return Capped { n: 0, exact };
        }
        if self.n == BEYOND || other.n == BEYOND {
            return Capped { n: BEYOND, exact };
        }
        let p: u128 = product(self.n as u64, other.n as u64);
        Capped {
            n: if p >= BEYOND {
                BEYOND
            } else {
                p
            },
            exact,
        }
    }

    pub fn plus(self, other: Capped) -> (c: Self)
        ensures
            c@ == self@ + other@,
            c@ >= 0,
    {
        proof {
            use_type_invariant(self);
            use_type_invariant(other);
        }
        let sum: u128 = self.n + other.n;
        Capped {
            n: if sum >= BEYOND {
                BEYOND
            } else {
                sum
            },
            exact: Ghost(self.exact@ + other.exact@),
        }
    }

    /// Whether 64 bits hold it.
    pub fn fits(self) -> (b: bool)
        ensures
            b == (self@ <= u64::MAX),
    {
        proof {
            use_type_invariant(self);
        }
        self.n < BEYOND
    }
}

/// A capped number is the number or the cap, whichever is less.
pub proof fn law_a_capped_number_is_the_lesser(n: int)
    ensures
        capped(n) <= n && capped(n) <= 0x1_0000_0000_0000_0000,
        capped(n) == n || capped(n) == 0x1_0000_0000_0000_0000,
{
}

/// A sum grows by each element, once.
pub proof fn law_a_sum_grows_by_each_element<A>(s: Seq<A>, f: spec_fn(A) -> int, x: A)
    ensures
        total(s.push(x), f) == total(s, f) + f(x),
        total(Seq::empty(), f) == 0,
{
    lemma_total_push(s, f, x);
}

} // verus!
