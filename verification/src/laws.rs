//! Identities between the gates, stated over the model of the tableau.

use crate::fakerng::{lemma_repeat_words, RepeatSeqFakeRng};
use crate::measurement::Register;
use crate::operation::{emits_all, lemma_run_reads_drawn, run, Operation};
use crate::tableau::{
    cx_on_row, gate_cx, gate_h, gate_s, gate_sdg, gate_x, gate_y, gate_z, s_on_row, square,
    PauliRow, Tableau,
};
use vstd::prelude::*;

verus! {

/// Two tableaus of the same height are equal if their rows agree factor by
/// factor.
proof fn lemma_tableau_equal(a: Tableau, b: Tableau)
    requires
        a.len() == b.len(),
        forall|k: int|
            0 <= k < a.len() ==> {
                &&& (#[trigger] a[k]).x =~= b[k].x
                &&& a[k].z =~= b[k].z
                &&& a[k].sign == b[k].sign
            },
    ensures
        a == b,
{
    assert(a =~= b);
}

/// `X` twice is the identity.
pub proof fn lemma_x_twice(t: Tableau, q: int)
    ensures
        gate_x(gate_x(t, q), q) == t,
{
    lemma_tableau_equal(gate_x(gate_x(t, q), q), t);
}

/// `Y` twice is the identity.
pub proof fn lemma_y_twice(t: Tableau, q: int)
    ensures
        gate_y(gate_y(t, q), q) == t,
{
    lemma_tableau_equal(gate_y(gate_y(t, q), q), t);
}

/// `Z` twice is the identity.
pub proof fn lemma_z_twice(t: Tableau, q: int)
    ensures
        gate_z(gate_z(t, q), q) == t,
{
    lemma_tableau_equal(gate_z(gate_z(t, q), q), t);
}

/// `H` twice is the identity.
pub proof fn lemma_h_twice(t: Tableau, q: int)
    requires
        square(t),
        0 <= q < t.len(),
    ensures
        gate_h(gate_h(t, q), q) == t,
{
    lemma_tableau_equal(gate_h(gate_h(t, q), q), t);
}

/// `S` four times is the identity.
pub proof fn lemma_s_four_times(t: Tableau, q: int)
    requires
        square(t),
        0 <= q < t.len(),
    ensures
        gate_s(gate_s(gate_s(gate_s(t, q), q), q), q) == t,
{
    let once = gate_s(t, q);
    let twice = gate_s(once, q);
    let thrice = gate_s(twice, q);
    assert forall|k: int| 0 <= k < t.len() implies {
        &&& (#[trigger] gate_s(thrice, q)[k]).x =~= t[k].x
        &&& gate_s(thrice, q)[k].z =~= t[k].z
        &&& gate_s(thrice, q)[k].sign == t[k].sign
    } by {
        assert(once[k] == s_on_row(t[k], q));
        assert(twice[k] == s_on_row(once[k], q));
        assert(thrice[k] == s_on_row(twice[k], q));
    }
    lemma_tableau_equal(gate_s(thrice, q), t);
}

/// `S` and its inverse cancel, in either order. The tableau is the same
/// again, so every measurement that follows is the same too.
pub proof fn lemma_s_sdg_cancel(t: Tableau, q: int)
    requires
        square(t),
        0 <= q < t.len(),
    ensures
        gate_sdg(gate_s(t, q), q) == t,
        gate_s(gate_sdg(t, q), q) == t,
{
    lemma_tableau_equal(gate_sdg(gate_s(t, q), q), t);
    lemma_tableau_equal(gate_s(gate_sdg(t, q), q), t);
}

/// `CX` twice on two different qubits puts every factor back where it was,
/// and negates a row that has an `X` factor on the control and a `Z` factor
/// on the target.
pub proof fn lemma_cx_twice_on_row(r: PauliRow, c: int, t: int)
    requires
        0 <= c < r.x.len(),
        0 <= t < r.x.len(),
        r.z.len() == r.x.len(),
        c != t,
    ensures
        cx_on_row(cx_on_row(r, c, t), c, t) == (PauliRow { sign: r.sign != (r.x[c] && r.z[t]), ..r }),
{
    let twice = cx_on_row(cx_on_row(r, c, t), c, t);
    assert(twice.x =~= r.x);
    assert(twice.z =~= r.z);
}

/// `CX` twice on two different qubits is the identity on a tableau in which
/// no row has both an `X` factor on the control and a `Z` factor on the
/// target.
pub proof fn lemma_cx_twice(t: Tableau, c: int, tgt: int)
    requires
        square(t),
        0 <= c < t.len(),
        0 <= tgt < t.len(),
        c != tgt,
        forall|k: int| 0 <= k < t.len() ==> !((#[trigger] t[k]).x[c] && t[k].z[tgt]),
    ensures
        gate_cx(gate_cx(t, c, tgt), c, tgt) == t,
{
    let twice = gate_cx(gate_cx(t, c, tgt), c, tgt);
    assert forall|k: int| 0 <= k < t.len() implies {
        &&& (#[trigger] twice[k]).x =~= t[k].x
        &&& twice[k].z =~= t[k].z
        &&& twice[k].sign == t[k].sign
    } by {
        lemma_cx_twice_on_row(t[k], c, tgt);
    }
    lemma_tableau_equal(twice, t);
}

/// With a repeating source a batch is deterministic: two runs of the same
/// operations from the same register, with sources in the same state, draw
/// the same words, end in the same register and leave their sources in the
/// same state.
pub proof fn lemma_repeat_deterministic(
    r: Register,
    ops: Seq<Operation>,
    from: RepeatSeqFakeRng,
    first: Seq<u32>,
    first_to: RepeatSeqFakeRng,
    second: Seq<u32>,
    second_to: RepeatSeqFakeRng,
)
    requires
        emits_all(from, first, first_to),
        run(r, ops, first).drawn == first.len(),
        emits_all(from, second, second_to),
        run(r, ops, second).drawn == second.len(),
    ensures
        first == second,
        run(r, ops, first) == run(r, ops, second),
        first_to.words() == second_to.words(),
        first_to.position() == second_to.position(),
{
    lemma_repeat_words(from, first, first_to);
    lemma_repeat_words(from, second, second_to);
    if first.len() <= second.len() {
        lemma_run_reads_drawn(r, ops, first, second);
    } else {
        lemma_run_reads_drawn(r, ops, second, first);
    }
    assert(first =~= second);
}

} // verus!
