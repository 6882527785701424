//! The group that the rows of a tableau generate, and the forced outcome of
//! a measurement as the sign of one of its elements.

use crate::elimination::{
    echelon, lemma_clear_columns_echelon, lemma_forced_middle, lemma_forced_outcome_defined,
    lemma_forced_start, lemma_pivot_applied_step, Pivot,
};
use crate::measurement::{
    all_rows, clear_column, clear_columns, first_anticommuting, first_live, forced, forced_outcome,
    has_factor, isolate, lemma_first_anticommuting_found, lemma_first_live_found, live_rows,
    measure_step, pivot_applied, Elimination, Register,
};
use crate::parity::{lemma_parity_combination, lemma_parity_single, parity};
use crate::stabilizer::{
    chosen, factor, lemma_collapse_keeps_stabilizer, lemma_stabilizer_independent, product_factor,
    stabilizer, within, Place,
};
use crate::tableau::{row_product, square, z_row, PauliRow, Tableau};
use vstd::prelude::*;

verus! {

/// What row `i` adds to the sign of the product of the rows that `c`
/// chooses.
pub open spec fn chosen_sign(t: Tableau, c: Seq<bool>) -> spec_fn(int) -> bool {
    |i: int| c[i] && t[i].sign
}

/// The sign of the product of the rows of `t` that `c` chooses.
pub open spec fn product_sign(t: Tableau, c: Seq<bool>) -> bool {
    parity(t.len() as int, chosen_sign(t, c))
}

/// Row `r` is the product of the rows of `t` that `c` chooses.
pub open spec fn is_product(t: Tableau, c: Seq<bool>, r: PauliRow) -> bool {
    &&& c.len() == t.len()
    &&& forall|a: Place|
        within(a, t.len() as int) ==> #[trigger] factor(r, a) == product_factor(t, c, a)
    &&& r.sign == product_sign(t, c)
}

/// Row `r` is in the group that the rows of `t` generate.
pub open spec fn in_group(t: Tableau, r: PauliRow) -> bool {
    exists|c: Seq<bool>| is_product(t, c, r)
}

/// Every row of `t` is in the group that the rows of `base` generate.
pub open spec fn generated(base: Tableau, t: Tableau) -> bool {
    &&& t.len() == base.len()
    &&& forall|k: int| 0 <= k < t.len() ==> in_group(base, #[trigger] t[k])
}

/// The choice that chooses both or neither of the rows that exactly one of
/// `a` and `b` chooses.
pub open spec fn either(a: Seq<bool>, b: Seq<bool>) -> Seq<bool> {
    Seq::new(a.len(), |i: int| a[i] != b[i])
}

/// The product of two choices of rows is the product of the rows that
/// exactly one of them chooses.
pub proof fn lemma_product_of_choices(t: Tableau, a: Seq<bool>, b: Seq<bool>)
    requires
        a.len() == t.len(),
        b.len() == t.len(),
    ensures
        forall|p: Place|
            #[trigger] product_factor(t, either(a, b), p) == (product_factor(t, a, p)
                != product_factor(t, b, p)),
        product_sign(t, either(a, b)) == (product_sign(t, a) != product_sign(t, b)),
{
    let n = t.len() as int;
    assert forall|p: Place|
        #[trigger] product_factor(t, either(a, b), p) == (product_factor(t, a, p) != product_factor(
            t,
            b,
            p,
        )) by {
        lemma_parity_combination(
            n,
            chosen(t, either(a, b), p),
            true,
            chosen(t, a, p),
            true,
            chosen(t, b, p),
            false,
            chosen(t, a, p),
            false,
            chosen(t, a, p),
        );
    }
    lemma_parity_combination(
        n,
        chosen_sign(t, either(a, b)),
        true,
        chosen_sign(t, a),
        true,
        chosen_sign(t, b),
        false,
        chosen_sign(t, a),
        false,
        chosen_sign(t, a),
    );
}

/// A row of a tableau is in the group that its rows generate.
pub proof fn lemma_row_in_group(t: Tableau, k: int)
    requires
        0 <= k < t.len(),
    ensures
        in_group(t, t[k]),
{
    let n = t.len() as int;
    let c = Seq::new(t.len(), |i: int| i == k);
    assert forall|a: Place| within(a, n) implies #[trigger] factor(t[k], a) == product_factor(
        t,
        c,
        a,
    ) by {
        lemma_parity_single(n, chosen(t, c, a), k);
    }
    lemma_parity_single(n, chosen_sign(t, c), k);
    assert(is_product(t, c, t[k]));
}

/// The product of two rows of the group is in the group.
pub proof fn lemma_product_in_group(t: Tableau, x: PauliRow, y: PauliRow)
    requires
        in_group(t, x),
        in_group(t, y),
        x.x.len() == t.len() && x.z.len() == t.len(),
        y.x.len() == t.len() && y.z.len() == t.len(),
    ensures
        in_group(t, row_product(x, y)),
{
    let a = choose|c: Seq<bool>| is_product(t, c, x);
    let b = choose|c: Seq<bool>| is_product(t, c, y);
    lemma_product_of_choices(t, a, b);
    let both = either(a, b);
    let r = row_product(x, y);
    assert forall|p: Place| within(p, t.len() as int) implies #[trigger] factor(r, p)
        == product_factor(t, both, p) by {
        assert(factor(r, p) == (factor(x, p) != factor(y, p)));
        assert(factor(x, p) == product_factor(t, a, p));
        assert(factor(y, p) == product_factor(t, b, p));
    }
    assert(is_product(t, both, r));
}

/// While the pivot is multiplied into the live rows, every row stays in the
/// group that the rows of `base` generate.
pub proof fn lemma_pivot_applied_generated(
    base: Tableau,
    t: Tableau,
    live: Seq<int>,
    in_x: bool,
    col: int,
    at: int,
    upto: int,
)
    requires
        generated(base, t),
        square(t),
        live_rows(live, t.len() as int),
        0 <= at < live.len(),
        0 <= upto <= live.len(),
    ensures
        generated(base, pivot_applied(t, live, in_x, col, live[at], upto)),
    decreases upto,
{
    let p = live[at];
    let now = pivot_applied(t, live, in_x, col, p, upto);
    if upto == 0 {
        assert(now =~= t);
    } else {
        lemma_pivot_applied_generated(base, t, live, in_x, col, at, upto - 1);
        lemma_pivot_applied_step(t, live, in_x, col, at, upto);
        let before = pivot_applied(t, live, in_x, col, p, upto - 1);
        let row = live[upto - 1];
        if row != p && has_factor(t[row], in_x, col) {
            assert(in_group(base, before[row]));
            assert(in_group(base, before[p]));
            lemma_product_in_group(base, before[row], before[p]);
            assert forall|k: int| 0 <= k < now.len() implies in_group(base, #[trigger] now[k]) by {
                if k != row {
                    assert(now[k] == before[k]);
                }
            }
        }
    }
}

/// After one step of elimination every row is still in the group that the
/// rows of `base` generate.
pub proof fn lemma_clear_column_generated(base: Tableau, e: Elimination, in_x: bool, col: int)
    requires
        generated(base, e.tableau),
        square(e.tableau),
        live_rows(e.live, e.tableau.len() as int),
    ensures
        generated(base, clear_column(e, in_x, col).tableau),
{
    let at = first_live(e.tableau, e.live, in_x, col, 0);
    lemma_first_live_found(e.tableau, e.live, in_x, col, 0);
    if at < e.live.len() {
        lemma_pivot_applied_generated(base, e.tableau, e.live, in_x, col, at, e.live.len() as int);
        assert(e.live.take(e.live.len() as int) =~= e.live);
        assert(clear_column(e, in_x, col).tableau =~= pivot_applied(
            e.tableau,
            e.live,
            in_x,
            col,
            e.live[at],
            e.live.len() as int,
        ));
    }
}

/// After a round of elimination for a forced measurement every row is still
/// in the group that the rows of `base` generate.
pub proof fn lemma_clear_columns_generated(
    base: Tableau,
    e: Elimination,
    pivots: Seq<Pivot>,
    in_x: bool,
    skip: int,
    upto: int,
    q: int,
)
    requires
        generated(base, e.tableau),
        echelon(e, pivots, in_x, 0, q),
        stabilizer(e.tableau),
        0 <= upto <= e.tableau.len(),
        0 <= q < e.tableau.len(),
        if in_x {
            skip < 0
        } else {
            skip == q
        },
    ensures
        generated(base, clear_columns(e, in_x, skip, upto).tableau),
    decreases upto,
{
    if upto > 0 {
        lemma_clear_columns_generated(base, e, pivots, in_x, skip, upto - 1, q);
        let so_far = lemma_clear_columns_echelon(e, pivots, in_x, skip, upto - 1, q);
        if upto - 1 != skip {
            lemma_clear_column_generated(base, clear_columns(e, in_x, skip, upto - 1), in_x, upto - 1);
        }
    }
}

/// On a stabilizer tableau two choices of rows with the same factors in
/// their products are the same choice.
pub proof fn lemma_choice_unique(t: Tableau, a: Seq<bool>, b: Seq<bool>)
    requires
        stabilizer(t),
        a.len() == t.len(),
        b.len() == t.len(),
        forall|p: Place|
            within(p, t.len() as int) ==> product_factor(t, a, p) == #[trigger] product_factor(
                t,
                b,
                p,
            ),
    ensures
        a == b,
{
    lemma_product_of_choices(t, a, b);
    let both = either(a, b);
    assert forall|p: Place| within(p, t.len() as int) implies !#[trigger] product_factor(
        t,
        both,
        p,
    ) by {
        assert(product_factor(t, a, p) == product_factor(t, b, p));
    }
    lemma_stabilizer_independent(t, both);
    assert forall|i: int| 0 <= i < a.len() implies a[i] == b[i] by {
        assert(!both[i]);
    }
    assert(a =~= b);
}

/// Where the measurement of qubit `q` of a stabilizer tableau is forced, `Z`
/// on `q` with the forced outcome as its sign is in the group that the rows
/// generate.
pub proof fn lemma_forced_outcome_in_group(t: Tableau, q: int)
    requires
        stabilizer(t),
        0 <= q < t.len(),
        forced(t, q),
    ensures
        in_group(t, z_row(t.len(), q, forced_outcome(t, q))),
{
    let n = t.len() as int;
    let start = Elimination { tableau: t, live: all_rows(t.len()) };
    assert forall|k: int| 0 <= k < n implies in_group(t, #[trigger] t[k]) by {
        lemma_row_in_group(t, k);
    }
    lemma_forced_start(t, q);
    lemma_clear_columns_generated(t, start, Seq::<Pivot>::empty(), true, -1, n, q);
    let first = lemma_forced_middle(t, q);
    let mid = clear_columns(start, true, -1, n);
    lemma_clear_columns_generated(t, mid, first, false, q, n, q);
    lemma_forced_outcome_defined(t, q);
    let e = isolate(t, q);
    let left = e.tableau[e.live[0]];
    assert(in_group(t, left));
    let c = choose|c: Seq<bool>| is_product(t, c, left);
    let zq = z_row(t.len(), q, forced_outcome(t, q));
    assert forall|a: Place| within(a, n) implies #[trigger] factor(zq, a) == product_factor(
        t,
        c,
        a,
    ) by {
        assert(factor(left, a) == product_factor(t, c, a));
        assert(factor(left, a) == (a == (Place { in_x: false, col: q })));
    }
    assert(is_product(t, c, zq));
}

/// The forced outcome of a measurement is the sign with which `Z` on the
/// measured qubit is in the group that the rows generate: whatever rows
/// multiply to `Z` on `q` up to sign, their product has the forced outcome
/// as its sign.
pub proof fn lemma_forced_outcome_is_group_sign(t: Tableau, q: int, c: Seq<bool>, sign: bool)
    requires
        stabilizer(t),
        0 <= q < t.len(),
        forced(t, q),
        is_product(t, c, z_row(t.len(), q, sign)),
    ensures
        sign == forced_outcome(t, q),
{
    let n = t.len() as int;
    lemma_forced_outcome_in_group(t, q);
    let zq = z_row(t.len(), q, forced_outcome(t, q));
    let c0 = choose|c0: Seq<bool>| is_product(t, c0, zq);
    assert forall|p: Place| within(p, n) implies product_factor(t, c, p)
        == #[trigger] product_factor(t, c0, p) by {
        assert(factor(zq, p) == product_factor(t, c0, p));
        assert(factor(z_row(t.len(), q, sign), p) == product_factor(t, c, p));
    }
    lemma_choice_unique(t, c, c0);
}

/// A row of a stabilizer tableau that is `Z` on qubit `q` up to sign forces
/// the measurement of `q`, with its sign as the outcome.
pub proof fn lemma_z_row_forces(t: Tableau, q: int, k: int)
    requires
        stabilizer(t),
        0 <= q < t.len(),
        0 <= k < t.len(),
        forall|j: int| 0 <= j < t.len() ==> !(#[trigger] t[j]).x[q],
        forall|a: Place|
            within(a, t.len() as int) ==> #[trigger] factor(t[k], a) == (a == (Place {
                in_x: false,
                col: q,
            })),
    ensures
        forced(t, q),
        forced_outcome(t, q) == t[k].sign,
{
    lemma_first_anticommuting_found(t, q, 0);
    lemma_row_in_group(t, k);
    let c = choose|c: Seq<bool>| is_product(t, c, t[k]);
    let zq = z_row(t.len(), q, t[k].sign);
    assert forall|a: Place| within(a, t.len() as int) implies #[trigger] factor(zq, a)
        == product_factor(t, c, a) by {
        assert(factor(t[k], a) == product_factor(t, c, a));
    }
    lemma_forced_outcome_is_group_sign(t, q, c, t[k].sign);
}

/// Measuring a qubit again gives the same outcome: after a measurement of
/// qubit `q` of a stabilizer tableau, whether forced or random, a second
/// measurement of `q` is forced and records what the first recorded.
pub proof fn lemma_measure_again(r: Register, q: int, slot: int, word: u32)
    requires
        stabilizer(r.tableau),
        0 <= q < r.tableau.len(),
        0 <= slot < r.slots.len(),
    ensures
        forced(measure_step(r, q, slot, word).tableau, q),
        forced_outcome(measure_step(r, q, slot, word).tableau, q) == measure_step(
            r,
            q,
            slot,
            word,
        ).slots[slot],
{
    let t = r.tableau;
    let n = t.len() as int;
    let after = measure_step(r, q, slot, word).tableau;
    if forced(t, q) {
        lemma_forced_outcome_defined(t, q);
        let e = isolate(t, q);
        lemma_first_anticommuting_found(after, q, 0);
        lemma_z_row_forces(after, q, e.live[0]);
    } else {
        lemma_first_anticommuting_found(t, q, 0);
        let p = first_anticommuting(t, q, 0);
        let bit = word & 1 != 0;
        lemma_collapse_keeps_stabilizer(t, q, p, bit);
        assert forall|j: int| 0 <= j < n implies !(#[trigger] after[j]).x[q] by {}
        lemma_z_row_forces(after, q, p);
    }
}

} // verus!
