//! Why the elimination of a forced measurement leaves exactly one
//! generator when the tableau is that of a stabilizer state.

use crate::measurement::{
    all_rows, clear_column, clear_columns, first_live, forced, has_factor, isolate,
    lemma_first_anticommuting_found, lemma_first_live_found, live_rows, pivot_applied, Elimination,
};
use crate::parity::{lemma_parity_single, lemma_parity_zero};
use crate::stabilizer::{
    anticommute, clash, destabilizes, expansion, factor, lemma_product_keeps_stabilizer,
    share, stabilizer, within, Place,
};
use crate::tableau::{row_product, square, Tableau};
use vstd::prelude::*;

verus! {

/// What one more live row adds while the pivot is multiplied in: the row at
/// position `upto - 1` is multiplied by the pivot if it has the factor and
/// is not the pivot itself, and nothing else changes.
pub proof fn lemma_pivot_applied_step(
    t: Tableau,
    live: Seq<int>,
    in_x: bool,
    col: int,
    at: int,
    upto: int,
)
    requires
        live_rows(live, t.len() as int),
        0 <= at < live.len(),
        0 < upto <= live.len(),
    ensures
        ({
            let p = live[at];
            let row = live[upto - 1];
            let before = pivot_applied(t, live, in_x, col, p, upto - 1);
            &&& before[row] == t[row]
            &&& before[p] == t[p]
            &&& pivot_applied(t, live, in_x, col, p, upto) == (if row != p && has_factor(
                t[row],
                in_x,
                col,
            ) {
                before.update(row, row_product(before[row], before[p]))
            } else {
                before
            })
        }),
{
    let p = live[at];
    let now = pivot_applied(t, live, in_x, col, p, upto);
    let before = pivot_applied(t, live, in_x, col, p, upto - 1);
    let row = live[upto - 1];
    let head = live.take(upto - 1);
    assert(!head.contains(row)) by {
        if head.contains(row) {
            let i = choose|i: int| 0 <= i < head.len() && head[i] == row;
            assert(live[i] == live[upto - 1]);
        }
    }
    assert forall|k: int| 0 <= k < t.len() implies (live.take(upto).contains(k) <==> (
    head.contains(k) || k == row)) by {
        if head.contains(k) {
            let i = choose|i: int| 0 <= i < head.len() && head[i] == k;
            assert(live.take(upto)[i] == k);
        }
        if k == row {
            assert(live.take(upto)[upto - 1] == k);
        }
        if live.take(upto).contains(k) {
            let i = choose|i: int| 0 <= i < live.take(upto).len() && live.take(upto)[i] == k;
            if i < upto - 1 {
                assert(head[i] == k);
            }
        }
    }
    if row != p && has_factor(t[row], in_x, col) {
        assert(now =~= before.update(row, row_product(before[row], before[p])));
    } else {
        assert(now =~= before);
    }
}

/// Multiplying the pivot into the live rows one after the other leaves a
/// stabilizer tableau at every stage.
pub proof fn lemma_pivot_applied_stabilizer(
    t: Tableau,
    live: Seq<int>,
    in_x: bool,
    col: int,
    at: int,
    upto: int,
)
    requires
        stabilizer(t),
        live_rows(live, t.len() as int),
        0 <= at < live.len(),
        0 <= upto <= live.len(),
    ensures
        stabilizer(pivot_applied(t, live, in_x, col, live[at], upto)),
    decreases upto,
{
    let p = live[at];
    if upto == 0 {
        assert(pivot_applied(t, live, in_x, col, p, upto) =~= t);
    } else {
        lemma_pivot_applied_stabilizer(t, live, in_x, col, at, upto - 1);
        lemma_pivot_applied_step(t, live, in_x, col, at, upto);
        let row = live[upto - 1];
        if row != p && has_factor(t[row], in_x, col) {
            lemma_product_keeps_stabilizer(
                pivot_applied(t, live, in_x, col, p, upto - 1),
                row,
                p,
            );
        }
    }
}

/// One step of elimination leaves a stabilizer tableau.
pub proof fn lemma_clear_column_stabilizer(e: Elimination, in_x: bool, col: int)
    requires
        stabilizer(e.tableau),
        live_rows(e.live, e.tableau.len() as int),
        0 <= col < e.tableau.len(),
    ensures
        stabilizer(clear_column(e, in_x, col).tableau),
{
    let at = first_live(e.tableau, e.live, in_x, col, 0);
    lemma_first_live_found(e.tableau, e.live, in_x, col, 0);
    if at < e.live.len() {
        lemma_pivot_applied_stabilizer(e.tableau, e.live, in_x, col, at, e.live.len() as int);
        assert(e.live.take(e.live.len() as int) =~= e.live);
        assert(clear_column(e, in_x, col).tableau =~= pivot_applied(
            e.tableau,
            e.live,
            in_x,
            col,
            e.live[at],
            e.live.len() as int,
        ));
    }
}

/// A row that has served as a pivot, with the place that it was chosen for.
pub struct Pivot {
    pub row: int,
    pub place: Place,
}

/// The places that the elimination has dealt with when it has come to
/// column `upto` of its round: in the first round (`in_x`) the `X` factors
/// of the columns before, in the second all `X` factors and the `Z` factors
/// of the columns before, but for qubit `q`.
pub open spec fn dealt_with(p: Place, in_x: bool, upto: int, q: int) -> bool {
    if in_x {
        p.in_x && p.col < upto
    } else {
        p.in_x || (p.col < upto && p.col != q)
    }
}

/// Row `k` is among the pivots.
pub open spec fn is_pivot(pivots: Seq<Pivot>, k: int) -> bool {
    exists|j: int| 0 <= j < pivots.len() && (#[trigger] pivots[j]).row == k
}

/// Row `k` is live or has been a pivot.
pub open spec fn accounted(e: Elimination, pivots: Seq<Pivot>, k: int) -> bool {
    e.live.contains(k) || is_pivot(pivots, k)
}

/// Pivot `j` has the factor at its place, which is not the `Z` factor on
/// qubit `q`; no later pivot and no live row has a factor there.
pub open spec fn pivot_stands(e: Elimination, pivots: Seq<Pivot>, j: int, q: int) -> bool {
    let t = e.tableau;
    let n = t.len() as int;
    let pv = pivots[j];
    &&& 0 <= pv.row < n
    &&& within(pv.place, n)
    &&& pv.place != (Place { in_x: false, col: q })
    &&& factor(t[pv.row], pv.place)
    &&& forall|j2: int| j < j2 < pivots.len() ==> !factor(t[(#[trigger] pivots[j2]).row], pv.place)
    &&& forall|i: int| 0 <= i < e.live.len() ==> !factor(t[#[trigger] e.live[i]], pv.place)
}

/// The shape of a tableau under elimination for a forced measurement of
/// qubit `q`: no row has an `X` factor on `q`, every row is live or a
/// pivot, every pivot stands, and no live row has a factor at a place dealt
/// with.
pub open spec fn echelon(e: Elimination, pivots: Seq<Pivot>, in_x: bool, upto: int, q: int) -> bool {
    let t = e.tableau;
    let n = t.len() as int;
    &&& square(t)
    &&& live_rows(e.live, n)
    &&& forall|k: int| 0 <= k < n ==> !(#[trigger] t[k]).x[q]
    &&& forall|k: int| 0 <= k < n ==> #[trigger] accounted(e, pivots, k)
    &&& forall|j: int| 0 <= j < pivots.len() ==> #[trigger] pivot_stands(e, pivots, j, q)
    &&& forall|i: int, p: Place|
        0 <= i < e.live.len() && within(p, n) && dealt_with(p, in_x, upto, q) ==> !#[trigger] factor(
            t[e.live[i]],
            p,
        )
}

/// One step of elimination, on the column that is next in its round, keeps
/// the shape. The result lists the pivots after the step.
pub proof fn lemma_clear_column_echelon(
    e: Elimination,
    pivots: Seq<Pivot>,
    in_x: bool,
    col: int,
    q: int,
) -> (after: Seq<Pivot>)
    requires
        echelon(e, pivots, in_x, col, q),
        0 <= col < e.tableau.len(),
        0 <= q < e.tableau.len(),
        in_x || col != q,
    ensures
        echelon(clear_column(e, in_x, col), after, in_x, col + 1, q),
        clear_column(e, in_x, col).tableau.len() == e.tableau.len(),
{
    let t = e.tableau;
    let n = t.len() as int;
    let live = e.live;
    let here = Place { in_x, col };
    let at = first_live(t, live, in_x, col, 0);
    lemma_first_live_found(t, live, in_x, col, 0);
    let e2 = clear_column(e, in_x, col);
    if at >= live.len() {
        assert forall|i: int, p: Place|
            0 <= i < live.len() && within(p, n) && dealt_with(p, in_x, col + 1, q) implies !#[trigger] factor(
            t[live[i]],
            p,
        ) by {
            if !dealt_with(p, in_x, col, q) {
                assert(p == here);
                assert(!has_factor(t[live[i]], in_x, col));
            }
        }
        pivots
    } else {
        let p = live[at];
        let t2 = e2.tableau;
        let live2 = e2.live;
        let after = pivots.push(Pivot { row: p, place: here });
        let last = live.len() - 1;
        assert forall|i: int| 0 <= i < live2.len() implies #[trigger] live2[i] == (if i == at {
            live[last]
        } else {
            live[i]
        }) by {}
        // every row that is a pivot is not live, so it is as it was
        assert forall|j: int| 0 <= j < pivots.len() implies !live.contains(
            (#[trigger] pivots[j]).row,
        ) by {
            assert(pivot_stands(e, pivots, j, q));
            if live.contains(pivots[j].row) {
                let i = choose|i: int| 0 <= i < live.len() && live[i] == pivots[j].row;
                assert(!factor(t[live[i]], pivots[j].place));
            }
        }
        // a live row has lost the factor here, and gained none at a place dealt with
        assert(live.contains(p));
        assert forall|i: int| 0 <= i < live.len() implies {
            &&& live[i] != p ==> !factor(t2[#[trigger] live[i]], here)
            &&& forall|pl: Place|
                within(pl, n) && !factor(t[live[i]], pl) && !factor(t[p], pl) ==> !factor(
                    t2[live[i]],
                    pl,
                )
        } by {
            assert(live.contains(live[i]));
        }
        assert(square(t2));
        assert(live_rows(live2, n));
        assert forall|k: int| 0 <= k < n implies !(#[trigger] t2[k]).x[q] by {
            assert(!t[k].x[q] && !t[p].x[q]);
        }
        assert forall|k: int| 0 <= k < n implies #[trigger] accounted(e2, after, k) by {
            assert(accounted(e, pivots, k));
            if is_pivot(pivots, k) {
                let j = choose|j: int| 0 <= j < pivots.len() && (#[trigger] pivots[j]).row == k;
                assert(after[j].row == k);
            } else {
                let i = choose|i: int| 0 <= i < live.len() && live[i] == k;
                if i == at {
                    assert(after[pivots.len() as int].row == k);
                } else if i == last {
                    assert(live2[at] == k);
                } else {
                    assert(live2[i] == k);
                }
            }
        }
        assert forall|j: int| 0 <= j < after.len() implies #[trigger] pivot_stands(
            e2,
            after,
            j,
            q,
        ) by {
            if j < pivots.len() {
                assert(pivot_stands(e, pivots, j, q));
                let pv = pivots[j];
                assert(after[j] == pv);
                assert(!live.contains(pv.row));
                assert(t2[pv.row] == t[pv.row]);
                assert(!factor(t[live[at]], pv.place));
                assert forall|j2: int| j < j2 < after.len() implies !factor(
                    t2[(#[trigger] after[j2]).row],
                    pv.place,
                ) by {
                    if j2 < pivots.len() {
                        assert(pivot_stands(e, pivots, j2, q));
                        assert(after[j2] == pivots[j2]);
                        assert(!live.contains(pivots[j2].row));
                        assert(t2[pivots[j2].row] == t[pivots[j2].row]);
                        assert(!factor(t[pivots[j2].row], pv.place));
                    } else {
                        assert(after[j2].row == p);
                        assert(t2[p] == t[p]);
                    }
                }
                assert forall|i: int| 0 <= i < live2.len() implies !factor(
                    t2[#[trigger] live2[i]],
                    pv.place,
                ) by {
                    let i0 = if i == at { last } else { i };
                    assert(live2[i] == live[i0]);
                    assert(!factor(t[live[i0]], pv.place));
                }
            } else {
                assert(after[j] == (Pivot { row: p, place: here }));
                assert(t2[p] == t[p]);
                assert forall|i: int| 0 <= i < live2.len() implies !factor(
                    t2[#[trigger] live2[i]],
                    here,
                ) by {
                    let i0 = if i == at { last } else { i };
                    assert(live2[i] == live[i0]);
                    assert(live[i0] != p);
                }
            }
        }
        assert forall|i: int, pl: Place|
            0 <= i < live2.len() && within(pl, n) && dealt_with(pl, in_x, col + 1, q) implies !#[trigger] factor(
            t2[live2[i]],
            pl,
        ) by {
            let i0 = if i == at { last } else { i };
            assert(live2[i] == live[i0]);
            assert(live[i0] != p);
            if dealt_with(pl, in_x, col, q) {
                assert(!factor(t[live[i0]], pl));
                assert(!factor(t[live[at]], pl));
            } else {
                assert(pl == here);
            }
        }
        after
    }
}

/// A round of elimination up to column `upto` keeps the shape and leaves a
/// stabilizer tableau. The result lists the pivots after the round.
pub proof fn lemma_clear_columns_echelon(
    e: Elimination,
    pivots: Seq<Pivot>,
    in_x: bool,
    skip: int,
    upto: int,
    q: int,
) -> (after: Seq<Pivot>)
    requires
        echelon(e, pivots, in_x, 0, q),
        stabilizer(e.tableau),
        0 <= upto <= e.tableau.len(),
        0 <= q < e.tableau.len(),
        if in_x {
            skip < 0
        } else {
            skip == q
        },
    ensures
        echelon(clear_columns(e, in_x, skip, upto), after, in_x, upto, q),
        stabilizer(clear_columns(e, in_x, skip, upto).tableau),
        clear_columns(e, in_x, skip, upto).tableau.len() == e.tableau.len(),
    decreases upto,
{
    if upto <= 0 {
        pivots
    } else {
        let so_far = lemma_clear_columns_echelon(e, pivots, in_x, skip, upto - 1, q);
        let mid = clear_columns(e, in_x, skip, upto - 1);
        if upto - 1 == skip {
            assert forall|i: int, p: Place|
                0 <= i < mid.live.len() && within(p, mid.tableau.len() as int) && dealt_with(
                    p,
                    in_x,
                    upto,
                    q,
                ) implies !#[trigger] factor(mid.tableau[mid.live[i]], p) by {
                assert(dealt_with(p, in_x, upto - 1, q));
            }
            so_far
        } else {
            lemma_clear_column_stabilizer(mid, in_x, upto - 1);
            lemma_clear_column_echelon(mid, so_far, in_x, upto - 1, q)
        }
    }
}

/// In the expansion of `Z` on qubit `q` over a tableau in echelon shape, no
/// pivot takes part.
proof fn lemma_pivot_takes_no_part(d: Tableau, e: Elimination, pivots: Seq<Pivot>, q: int, j: int)
    requires
        destabilizes(d, e.tableau),
        echelon(e, pivots, false, e.tableau.len() as int, q),
        0 <= q < e.tableau.len(),
        0 <= j < pivots.len(),
    ensures
        !d[pivots[j].row].x[q],
    decreases j,
{
    let t = e.tableau;
    let n = t.len() as int;
    let zq = Place { in_x: false, col: q };
    let pv = pivots[j];
    assert(pivot_stands(e, pivots, j, q));
    assert forall|i: int| 0 <= i < n && i != pv.row implies !#[trigger] share(d, t, pv.place, zq)(
        i,
    ) by {
        assert(!t[i].x[q]);
        assert(accounted(e, pivots, i));
        if e.live.contains(i) {
            let l = choose|l: int| 0 <= l < e.live.len() && e.live[l] == i;
            assert(!factor(t[e.live[l]], pv.place));
        } else {
            let j2 = choose|j2: int| 0 <= j2 < pivots.len() && (#[trigger] pivots[j2]).row == i;
            if j2 < j {
                lemma_pivot_takes_no_part(d, e, pivots, q, j2);
            } else {
                assert(j2 > j);
                assert(!factor(t[pivots[j2].row], pv.place));
            }
        }
    }
    lemma_parity_single(n, share(d, t, pv.place, zq), pv.row);
    assert(expansion(d, t, pv.place, zq) == (pv.place == zq));
    assert(!t[pv.row].x[q]);
}

/// A stabilizer tableau in echelon shape at the end of the second round has
/// exactly one live row, which is `Z` on qubit `q` up to sign.
pub proof fn lemma_echelon_one_left(e: Elimination, pivots: Seq<Pivot>, q: int)
    requires
        stabilizer(e.tableau),
        echelon(e, pivots, false, e.tableau.len() as int, q),
        0 <= q < e.tableau.len(),
    ensures
        e.live.len() == 1,
        forall|a: Place|
            within(a, e.tableau.len() as int) ==> #[trigger] factor(e.tableau[e.live[0]], a) == (a
                == (Place { in_x: false, col: q })),
{
    let t = e.tableau;
    let n = t.len() as int;
    let d = choose|d: Tableau| destabilizes(d, t);
    let zq = Place { in_x: false, col: q };
    if e.live.len() == 0 {
        assert forall|i: int| 0 <= i < n implies !#[trigger] share(d, t, zq, zq)(i) by {
            assert(!t[i].x[q]);
            assert(accounted(e, pivots, i));
            let j = choose|j: int| 0 <= j < pivots.len() && (#[trigger] pivots[j]).row == i;
            lemma_pivot_takes_no_part(d, e, pivots, q, j);
        }
        lemma_parity_zero(n, share(d, t, zq, zq));
        assert(expansion(d, t, zq, zq) == (zq == zq));
        assert(false);
    }
    if e.live.len() >= 2 {
        let u = e.live[0];
        let v = e.live[1];
        assert(u != v);
        assert forall|l: int, j: int| 0 <= l < 2 && 0 <= j < n && j != q implies !#[trigger] clash(
            d[u],
            t[e.live[l]],
        )(j) by {
            assert(!factor(t[e.live[l]], Place { in_x: true, col: j }));
            assert(!factor(t[e.live[l]], Place { in_x: false, col: j }));
        }
        lemma_parity_single(n, clash(d[u], t[u]), q);
        lemma_parity_single(n, clash(d[u], t[v]), q);
        assert forall|j: int| 0 <= j < n && j != q implies !#[trigger] clash(d[v], t[v])(j) by {
            assert(!factor(t[e.live[1]], Place { in_x: true, col: j }));
            assert(!factor(t[e.live[1]], Place { in_x: false, col: j }));
        }
        lemma_parity_single(n, clash(d[v], t[v]), q);
        assert(anticommute(d[u], t[u]) == (u == u));
        assert(anticommute(d[v], t[v]) == (v == v));
        assert(anticommute(d[u], t[v]) == (u == v));
        assert(false);
    }
    let u = e.live[0];
    assert forall|j: int| 0 <= j < n && j != q implies !#[trigger] clash(d[u], t[u])(j) by {
        assert(!factor(t[e.live[0]], Place { in_x: true, col: j }));
        assert(!factor(t[e.live[0]], Place { in_x: false, col: j }));
    }
    lemma_parity_single(n, clash(d[u], t[u]), q);
    assert(anticommute(d[u], t[u]) == (u == u));
    assert forall|a: Place| within(a, n) implies #[trigger] factor(t[e.live[0]], a) == (a
        == zq) by {
        if a != zq {
            assert(dealt_with(a, false, n, q));
        }
    }
}

/// The elimination for a forced measurement starts in echelon shape, with
/// every row live and no pivot.
pub proof fn lemma_forced_start(t: Tableau, q: int)
    requires
        square(t),
        0 <= q < t.len(),
        forced(t, q),
    ensures
        echelon(
            (Elimination { tableau: t, live: all_rows(t.len()) }),
            Seq::<Pivot>::empty(),
            true,
            0,
            q,
        ),
{
    let start = Elimination { tableau: t, live: all_rows(t.len()) };
    let none = Seq::<Pivot>::empty();
    lemma_first_anticommuting_found(t, q, 0);
    assert forall|k: int| 0 <= k < t.len() implies #[trigger] accounted(start, none, k) by {
        assert(start.live[k] == k);
    }
}

/// Between its two rounds the elimination for a forced measurement on a
/// stabilizer tableau is in echelon shape, ready for the second round. The
/// result lists the pivots of the first round.
pub proof fn lemma_forced_middle(t: Tableau, q: int) -> (pivots: Seq<Pivot>)
    requires
        stabilizer(t),
        0 <= q < t.len(),
        forced(t, q),
    ensures
        ({
            let start = Elimination { tableau: t, live: all_rows(t.len()) };
            let mid = clear_columns(start, true, -1, t.len() as int);
            &&& echelon(mid, pivots, false, 0, q)
            &&& stabilizer(mid.tableau)
            &&& mid.tableau.len() == t.len()
        }),
{
    let n = t.len() as int;
    let start = Elimination { tableau: t, live: all_rows(t.len()) };
    lemma_forced_start(t, q);
    let first = lemma_clear_columns_echelon(start, Seq::<Pivot>::empty(), true, -1, n, q);
    let mid = clear_columns(start, true, -1, n);
    assert forall|i: int, p: Place|
        0 <= i < mid.live.len() && within(p, n) && dealt_with(p, false, 0, q) implies !#[trigger] factor(
        mid.tableau[mid.live[i]],
        p,
    ) by {
        assert(dealt_with(p, true, n, q));
    }
    first
}

/// On a stabilizer tableau a forced measurement has an outcome: the
/// elimination leaves exactly one generator, which is `Z` on the measured
/// qubit up to sign. The tableau that it leaves is a stabilizer tableau
/// again, on which the measurement is still forced.
pub proof fn lemma_forced_outcome_defined(t: Tableau, q: int)
    requires
        stabilizer(t),
        0 <= q < t.len(),
        forced(t, q),
    ensures
        isolate(t, q).live.len() == 1,
        isolate(t, q).tableau.len() == t.len(),
        stabilizer(isolate(t, q).tableau),
        forced(isolate(t, q).tableau, q),
        0 <= isolate(t, q).live[0] < t.len(),
        forall|a: Place|
            within(a, t.len() as int) ==> #[trigger] factor(
                isolate(t, q).tableau[isolate(t, q).live[0]],
                a,
            ) == (a == (Place { in_x: false, col: q })),
{
    let n = t.len() as int;
    let start = Elimination { tableau: t, live: all_rows(t.len()) };
    let first = lemma_forced_middle(t, q);
    let mid = clear_columns(start, true, -1, n);
    let second = lemma_clear_columns_echelon(mid, first, false, q, n, q);
    lemma_echelon_one_left(isolate(t, q), second, q);
    lemma_first_anticommuting_found(isolate(t, q).tableau, q, 0);
}

} // verus!
