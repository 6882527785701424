//! States of the computational basis: what `X` gates do to them, and what
//! measuring them gives.

use crate::measurement::{
    all_rows, clear_column, clear_columns, first_live, forced, forced_outcome, has_factor, isolate,
    lemma_first_anticommuting_found, lemma_first_live_found, live_rows, measure_step, Elimination,
    Register,
};
use crate::tableau::{clear_bits, gate_x, z_row, zero_state, Tableau};
use vstd::prelude::*;

verus! {

/// The tableau of the basis state in which qubit `k` has the value
/// `bits[k]`: row `k` is `Z` on qubit `k`, negated where the bit is set.
pub open spec fn basis_state(bits: Seq<bool>) -> Tableau {
    Seq::new(bits.len(), |k: int| z_row(bits.len(), k, bits[k]))
}

/// The state in which every qubit is zero is the basis state of the clear
/// bits.
pub proof fn lemma_zero_state_is_basis(n: nat)
    ensures
        zero_state(n) == basis_state(clear_bits(n)),
{
    assert(zero_state(n) =~= basis_state(clear_bits(n)));
}

/// `X` on qubit `q` of a basis state flips bit `q`.
pub proof fn lemma_x_on_basis(bits: Seq<bool>, q: int)
    requires
        0 <= q < bits.len(),
    ensures
        gate_x(basis_state(bits), q) == basis_state(bits.update(q, !bits[q])),
{
    assert(gate_x(basis_state(bits), q) =~= basis_state(bits.update(q, !bits[q])));
}

/// The first round of elimination finds nothing to do on a basis state.
proof fn lemma_basis_first_round(bits: Seq<bool>, upto: int)
    requires
        0 <= upto <= bits.len(),
    ensures
        clear_columns(
            (Elimination { tableau: basis_state(bits), live: all_rows(bits.len()) }),
            true,
            -1,
            upto,
        ) == (Elimination { tableau: basis_state(bits), live: all_rows(bits.len()) }),
    decreases upto,
{
    if upto > 0 {
        lemma_basis_first_round(bits, upto - 1);
        let e = Elimination { tableau: basis_state(bits), live: all_rows(bits.len()) };
        lemma_first_live_found(e.tableau, e.live, true, upto - 1, 0);
    }
}

/// What the second round has made of a basis state when it has come to
/// column `upto`: the tableau is as it was, and the live rows are those not
/// yet come to, and row `q`.
spec fn second_round_stage(e: Elimination, bits: Seq<bool>, q: int, upto: int) -> bool {
    &&& e.tableau == basis_state(bits)
    &&& live_rows(e.live, bits.len() as int)
    &&& forall|k: int| 0 <= k < bits.len() ==> (e.live.contains(k) <==> (k >= upto || k == q))
}

proof fn lemma_basis_second_round(bits: Seq<bool>, q: int, upto: int)
    requires
        0 <= q < bits.len(),
        0 <= upto <= bits.len(),
    ensures
        second_round_stage(
            clear_columns(
                (Elimination { tableau: basis_state(bits), live: all_rows(bits.len()) }),
                false,
                q,
                upto,
            ),
            bits,
            q,
            upto,
        ),
    decreases upto,
{
    let t = basis_state(bits);
    let n = bits.len() as int;
    let start = Elimination { tableau: t, live: all_rows(bits.len()) };
    if upto == 0 {
        assert forall|k: int| 0 <= k < n implies start.live.contains(k) by {
            assert(start.live[k] == k);
        }
    } else {
        lemma_basis_second_round(bits, q, upto - 1);
        let col = upto - 1;
        let e = clear_columns(start, false, q, col);
        if col != q {
            let live = e.live;
            let at = first_live(t, live, false, col, 0);
            lemma_first_live_found(t, live, false, col, 0);
            assert(live.contains(col));
            let i0 = choose|i: int| 0 <= i < live.len() && live[i] == col;
            assert(has_factor(t[live[i0]], false, col));
            assert(at < live.len());
            assert(live[at] == col);
            let e2 = clear_column(e, false, col);
            assert(e2.tableau =~= t);
            let last = live.len() - 1;
            assert forall|k: int| 0 <= k < n implies (e2.live.contains(k) <==> (k >= upto || k
                == q)) by {
                if e2.live.contains(k) {
                    let i = choose|i: int| 0 <= i < e2.live.len() && e2.live[i] == k;
                    let i1 = if i == at { last } else { i };
                    assert(live[i1] == k);
                    assert(live.contains(k));
                }
                if k != col && live.contains(k) {
                    let i = choose|i: int| 0 <= i < live.len() && live[i] == k;
                    if i == last {
                        assert(e2.live[at] == k);
                    } else {
                        assert(e2.live[i] == k);
                    }
                }
            }
        }
    }
}

/// The measurement of a qubit of a basis state is forced, gives the
/// qubit's bit, and leaves the state as it was.
pub proof fn lemma_basis_measurement(bits: Seq<bool>, q: int)
    requires
        0 <= q < bits.len(),
    ensures
        forced(basis_state(bits), q),
        isolate(basis_state(bits), q).live == seq![q],
        isolate(basis_state(bits), q).tableau == basis_state(bits),
        forced_outcome(basis_state(bits), q) == bits[q],
{
    let t = basis_state(bits);
    let n = bits.len() as int;
    lemma_first_anticommuting_found(t, q, 0);
    lemma_basis_first_round(bits, n);
    lemma_basis_second_round(bits, q, n);
    let e = isolate(t, q);
    assert(e.live.contains(q));
    if e.live.len() >= 2 {
        assert(e.live.contains(e.live[0]));
        assert(e.live.contains(e.live[1]));
    }
    assert(e.live.contains(e.live[0]));
    assert(e.live =~= seq![q]);
}

/// Measuring qubit `q` of a basis state into slot `slot` records the
/// qubit's bit and changes nothing else, whatever word might be drawn.
pub proof fn lemma_measure_basis(bits: Seq<bool>, slots: Seq<bool>, q: int, slot: int, word: u32)
    requires
        0 <= q < bits.len(),
    ensures
        measure_step((Register { tableau: basis_state(bits), slots }), q, slot, word) == (Register {
            tableau: basis_state(bits),
            slots: slots.update(slot, bits[q]),
        }),
{
    lemma_basis_measurement(bits, q);
}

} // verus!
