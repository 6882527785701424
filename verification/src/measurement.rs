//! The mathematical model of a measurement in the computational basis.
//!
//! A row with an `X` factor on the measured qubit anticommutes with the
//! observable. If there is one, the outcome is random and the tableau
//! collapses; if there is none, the outcome is forced and is read off the
//! one generator that two rounds of elimination leave.

use crate::tableau::{row_product, z_row, PauliRow, Tableau};
use vstd::prelude::*;

verus! {

/// The first row at or after `from` with an `X` factor on qubit `q`, or the
/// number of rows if there is none.
pub open spec fn first_anticommuting(t: Tableau, q: int, from: int) -> int
    decreases t.len() - from,
{
    if from < 0 || from >= t.len() {
        t.len() as int
    } else if t[from].x[q] {
        from
    } else {
        first_anticommuting(t, q, from + 1)
    }
}

/// Where the search for a row that anticommutes comes to the end, no row
/// from `from` on anticommutes; where it stops, the row it stops on does.
pub proof fn lemma_first_anticommuting_found(t: Tableau, q: int, from: int)
    requires
        0 <= from <= t.len(),
    ensures
        from <= first_anticommuting(t, q, from) <= t.len(),
        first_anticommuting(t, q, from) < t.len() ==> t[first_anticommuting(t, q, from)].x[q],
        forall|k: int| from <= k < first_anticommuting(t, q, from) ==> !(#[trigger] t[k]).x[q],
    decreases t.len() - from,
{
    if from < t.len() && !t[from].x[q] {
        lemma_first_anticommuting_found(t, q, from + 1);
    }
}

/// No row anticommutes with `Z` on qubit `q`: its measurement has a forced
/// outcome.
pub open spec fn forced(t: Tableau, q: int) -> bool {
    first_anticommuting(t, q, 0) >= t.len()
}

/// The tableau after a measurement of qubit `q` gave the random outcome
/// `bit`: row `p` becomes `Z` on `q` with that sign, and every other row that
/// anticommuted is multiplied by what row `p` was.
pub open spec fn collapse(t: Tableau, q: int, p: int, bit: bool) -> Tableau {
    Seq::new(
        t.len(),
        |k: int|
            if k == p {
                z_row(t.len(), q, bit)
            } else if t[k].x[q] {
                row_product(t[k], t[p])
            } else {
                t[k]
            },
    )
}

/// Whether a row has a factor on qubit `col`: an `X` factor if `in_x`, a `Z`
/// factor if not.
pub open spec fn has_factor(r: PauliRow, in_x: bool, col: int) -> bool {
    if in_x {
        r.x[col]
    } else {
        r.z[col]
    }
}

/// A tableau under elimination: its rows, and the rows not yet used as a
/// pivot, in the order in which they are searched.
pub struct Elimination {
    pub tableau: Tableau,
    pub live: Seq<int>,
}

/// The rows that `live` lists are rows of a tableau of `n` rows, and none is
/// listed twice.
pub open spec fn live_rows(live: Seq<int>, n: int) -> bool {
    &&& forall|i: int| 0 <= i < live.len() ==> 0 <= #[trigger] live[i] < n
    &&& forall|i: int, j: int| 0 <= i < j < live.len() ==> live[i] != live[j]
}

/// The first position at or after `from` in `live` whose row has a factor
/// on qubit `col`, or the length of `live` if there is none.
pub open spec fn first_live(t: Tableau, live: Seq<int>, in_x: bool, col: int, from: int) -> int
    decreases live.len() - from,
{
    if from < 0 || from >= live.len() {
        live.len() as int
    } else if has_factor(t[live[from]], in_x, col) {
        from
    } else {
        first_live(t, live, in_x, col, from + 1)
    }
}

/// What the search for a live row with a factor finds: a position with the
/// factor before which no live row has it, or the end.
pub proof fn lemma_first_live_found(t: Tableau, live: Seq<int>, in_x: bool, col: int, from: int)
    requires
        0 <= from <= live.len(),
    ensures
        from <= first_live(t, live, in_x, col, from) <= live.len(),
        first_live(t, live, in_x, col, from) < live.len() ==> has_factor(
            t[live[first_live(t, live, in_x, col, from)]],
            in_x,
            col,
        ),
        forall|i: int|
            from <= i < first_live(t, live, in_x, col, from) ==> !has_factor(
                t[#[trigger] live[i]],
                in_x,
                col,
            ),
    decreases live.len() - from,
{
    if from < live.len() && !has_factor(t[live[from]], in_x, col) {
        lemma_first_live_found(t, live, in_x, col, from + 1);
    }
}

/// The tableau while one step of elimination is under way: the pivot `p`
/// has been multiplied into those of the live rows listed below position
/// `upto` that have the factor.
pub open spec fn pivot_applied(t: Tableau, live: Seq<int>, in_x: bool, col: int, p: int, upto: int) -> Tableau {
    Seq::new(
        t.len(),
        |k: int|
            if k != p && live.take(upto).contains(k) && has_factor(t[k], in_x, col) {
                row_product(t[k], t[p])
            } else {
                t[k]
            },
    )
}

/// One step of elimination. The first live row with a factor on `col` is the
/// pivot: it is multiplied into every other live row that has the factor,
/// and leaves the live rows, the last of which takes its place. Without such
/// a row nothing changes.
pub open spec fn clear_column(e: Elimination, in_x: bool, col: int) -> Elimination {
    let at = first_live(e.tableau, e.live, in_x, col, 0);
    if at >= e.live.len() {
        e
    } else {
        let p = e.live[at];
        Elimination {
            tableau: Seq::new(
                e.tableau.len(),
                |k: int|
                    if k != p && e.live.contains(k) && has_factor(e.tableau[k], in_x, col) {
                        row_product(e.tableau[k], e.tableau[p])
                    } else {
                        e.tableau[k]
                    },
            ),
            live: e.live.update(at, e.live.last()).drop_last(),
        }
    }
}

/// Elimination over the columns below `upto` in ascending order, leaving
/// out column `skip`.
pub open spec fn clear_columns(e: Elimination, in_x: bool, skip: int, upto: int) -> Elimination
    decreases upto,
{
    if upto <= 0 {
        e
    } else {
        let before = clear_columns(e, in_x, skip, upto - 1);
        if upto - 1 == skip {
            before
        } else {
            clear_column(before, in_x, upto - 1)
        }
    }
}

/// All rows of a tableau of `n` rows, in order.
pub open spec fn all_rows(n: nat) -> Seq<int> {
    Seq::new(n, |k: int| k)
}

/// The two rounds of elimination that single out the generator equal to
/// `Z` on qubit `q` up to sign: first over the `X` factors of every column,
/// then over the `Z` factors of every column but `q`.
pub open spec fn isolate(t: Tableau, q: int) -> Elimination {
    let n = t.len() as int;
    let start = Elimination { tableau: t, live: all_rows(t.len()) };
    clear_columns(clear_columns(start, true, -1, n), false, q, n)
}

/// The measurement of qubit `q` has an outcome: it is random, or the
/// elimination leaves exactly one generator.
pub open spec fn outcome_defined(t: Tableau, q: int) -> bool {
    forced(t, q) ==> isolate(t, q).live.len() == 1
}

/// The forced outcome of measuring qubit `q`: the sign of the generator
/// that the elimination leaves.
pub open spec fn forced_outcome(t: Tableau, q: int) -> bool {
    let e = isolate(t, q);
    e.tableau[e.live[0]].sign
}

/// A tableau together with the recorded measurement results.
pub struct Register {
    pub tableau: Tableau,
    pub slots: Seq<bool>,
}

/// The effect of measuring qubit `q` into slot `slot`. Where the outcome is
/// random it is the lowest bit of `word`.
pub open spec fn measure_step(r: Register, q: int, slot: int, word: u32) -> Register {
    let t = r.tableau;
    if forced(t, q) {
        Register { tableau: isolate(t, q).tableau, slots: r.slots.update(slot, forced_outcome(t, q)) }
    } else {
        let bit = word & 1 != 0;
        Register {
            tableau: collapse(t, q, first_anticommuting(t, q, 0), bit),
            slots: r.slots.update(slot, bit),
        }
    }
}

} // verus!
