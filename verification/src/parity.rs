//! Sums modulo two of a function over a range of integers.

use vstd::prelude::*;

verus! {

/// The sum modulo two of `f(0)`, ..., `f(n - 1)`.
pub open spec fn parity(n: int, f: spec_fn(int) -> bool) -> bool
    decreases n,
{
    if n <= 0 {
        false
    } else {
        parity(n - 1, f) != f(n - 1)
    }
}

/// The function that holds at `p` alone.
pub open spec fn only_at(p: int) -> spec_fn(int) -> bool {
    |i: int| i == p
}

/// Functions that agree on the range have the same sum.
pub proof fn lemma_parity_congruent(n: int, f: spec_fn(int) -> bool, g: spec_fn(int) -> bool)
    requires
        forall|i: int| 0 <= i < n ==> #[trigger] f(i) == g(i),
    ensures
        parity(n, f) == parity(n, g),
    decreases n,
{
    if n > 0 {
        lemma_parity_congruent(n - 1, f, g);
    }
}

/// A function that holds nowhere on the range sums to zero.
pub proof fn lemma_parity_zero(n: int, f: spec_fn(int) -> bool)
    requires
        forall|i: int| 0 <= i < n ==> !#[trigger] f(i),
    ensures
        !parity(n, f),
    decreases n,
{
    if n > 0 {
        lemma_parity_zero(n - 1, f);
    }
}

/// A function that holds at most at `p` sums to its value at `p`, if `p` is
/// in the range, and to zero if not.
pub proof fn lemma_parity_single(n: int, f: spec_fn(int) -> bool, p: int)
    requires
        forall|i: int| 0 <= i < n && i != p ==> !#[trigger] f(i),
    ensures
        parity(n, f) == (0 <= p < n && f(p)),
    decreases n,
{
    if n > 0 {
        lemma_parity_single(n - 1, f, p);
    }
}

/// The sum is linear: where `h` is, point by point, a combination of four
/// functions with fixed coefficients, its sum is that combination of their
/// sums.
pub proof fn lemma_parity_combination(
    n: int,
    h: spec_fn(int) -> bool,
    c1: bool,
    f1: spec_fn(int) -> bool,
    c2: bool,
    f2: spec_fn(int) -> bool,
    c3: bool,
    f3: spec_fn(int) -> bool,
    c4: bool,
    f4: spec_fn(int) -> bool,
)
    requires
        forall|i: int|
            0 <= i < n ==> #[trigger] h(i) == (((c1 && f1(i)) != (c2 && f2(i))) != ((c3 && f3(i)) != (c4
                && f4(i)))),
    ensures
        parity(n, h) == (((c1 && parity(n, f1)) != (c2 && parity(n, f2))) != ((c3 && parity(n, f3))
            != (c4 && parity(n, f4)))),
    decreases n,
{
    if n > 0 {
        lemma_parity_combination(n - 1, h, c1, f1, c2, f2, c3, f3, c4, f4);
    }
}

/// Functions that differ at most at `a` and `b`, and there by the same
/// amount in total, have the same sum.
pub proof fn lemma_parity_two_changed(
    n: int,
    f: spec_fn(int) -> bool,
    g: spec_fn(int) -> bool,
    a: int,
    b: int,
)
    requires
        0 <= a < n,
        0 <= b < n,
        a != b,
        forall|i: int| 0 <= i < n && i != a && i != b ==> #[trigger] f(i) == g(i),
        (f(a) != f(b)) == (g(a) != g(b)),
    ensures
        parity(n, f) == parity(n, g),
{
    let delta = f(a) != g(a);
    let at_a = only_at(a);
    let at_b = only_at(b);
    lemma_parity_combination(n, f, true, g, delta, at_a, delta, at_b, false, g);
    lemma_parity_single(n, at_a, a);
    lemma_parity_single(n, at_b, b);
}

/// `f` with its first argument fixed.
pub open spec fn along(f: spec_fn(int, int) -> bool, j: int) -> spec_fn(int) -> bool {
    |k: int| f(j, k)
}

/// `f` with its second argument fixed.
pub open spec fn across(f: spec_fn(int, int) -> bool, k: int) -> spec_fn(int) -> bool {
    |j: int| f(j, k)
}

/// For each first argument, the sum of `f` over `m` second arguments.
pub open spec fn sums_along(m: int, f: spec_fn(int, int) -> bool) -> spec_fn(int) -> bool {
    |j: int| parity(m, along(f, j))
}

/// For each second argument, the sum of `f` over `n` first arguments.
pub open spec fn sums_across(n: int, f: spec_fn(int, int) -> bool) -> spec_fn(int) -> bool {
    |k: int| parity(n, across(f, k))
}

/// A double sum can be taken in either order.
pub proof fn lemma_parity_exchange(n: int, m: int, f: spec_fn(int, int) -> bool)
    ensures
        parity(n, sums_along(m, f)) == parity(m, sums_across(n, f)),
    decreases n,
{
    if n <= 0 {
        lemma_parity_zero(m, sums_across(n, f));
    } else {
        lemma_parity_exchange(n - 1, m, f);
        lemma_parity_combination(
            m,
            sums_across(n, f),
            true,
            sums_across(n - 1, f),
            true,
            along(f, n - 1),
            false,
            along(f, n - 1),
            false,
            along(f, n - 1),
        );
    }
}

} // verus!
