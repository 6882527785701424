//! The stabilizer property is kept by every operation, so that every
//! measurement in a batch has an outcome.

use crate::elimination::lemma_forced_outcome_defined;
use crate::measurement::{
    first_anticommuting, forced, lemma_first_anticommuting_found, measure_step, outcome_defined,
    Register,
};
use crate::operation::{apply, defined, run, run_defined, supported, Operation};
use crate::stabilizer::{
    lemma_collapse_keeps_stabilizer, lemma_cx_keeps_stabilizer, lemma_h_keeps_stabilizer,
    lemma_pauli_gates_keep_stabilizer, lemma_s_keeps_stabilizer, lemma_zero_state_stabilizer,
    stabilizer,
};
use vstd::prelude::*;

verus! {

/// `op` is supported and, if it is a `CX`, its control and target differ.
pub open spec fn coherent(op: Operation, n: int) -> bool {
    &&& supported(op, n)
    &&& match op {
        Operation::QQ(id, c, t) => c != t,
        _ => true,
    }
}

/// On a stabilizer tableau every measurement has an outcome, and leaves a
/// stabilizer tableau of the same size, whatever word is drawn.
pub proof fn lemma_measure_keeps_stabilizer(r: Register, q: int, slot: int, word: u32)
    requires
        stabilizer(r.tableau),
        0 <= q < r.tableau.len(),
    ensures
        outcome_defined(r.tableau, q),
        stabilizer(measure_step(r, q, slot, word).tableau),
        measure_step(r, q, slot, word).tableau.len() == r.tableau.len(),
{
    let t = r.tableau;
    if forced(t, q) {
        lemma_forced_outcome_defined(t, q);
    } else {
        lemma_first_anticommuting_found(t, q, 0);
        lemma_collapse_keeps_stabilizer(t, q, first_anticommuting(t, q, 0), word & 1 != 0);
    }
}

/// A coherent operation can be applied to a stabilizer tableau, and leaves a
/// stabilizer tableau of the same size.
pub proof fn lemma_apply_keeps_stabilizer(r: Register, op: Operation, word: u32)
    requires
        stabilizer(r.tableau),
        coherent(op, r.tableau.len() as int),
    ensures
        defined(r, op),
        stabilizer(apply(r, op, word).tableau),
        apply(r, op, word).tableau.len() == r.tableau.len(),
{
    let t = r.tableau;
    match op {
        Operation::Empty(id) => {
            lemma_zero_state_stabilizer(t.len());
        },
        Operation::Q(id, q) => {
            lemma_pauli_gates_keep_stabilizer(t, q as int);
            lemma_h_keeps_stabilizer(t, q as int);
            lemma_s_keeps_stabilizer(t, q as int);
        },
        Operation::QQ(id, c, tgt) => {
            lemma_cx_keeps_stabilizer(t, c as int, tgt as int);
        },
        Operation::QS(id, q, s) => {
            lemma_measure_keeps_stabilizer(r, q as int, s as int, word);
        },
    }
}

/// A batch of coherent operations can be applied to a stabilizer tableau,
/// whatever words are drawn, and leaves a stabilizer tableau of the same
/// size.
pub proof fn lemma_run_keeps_stabilizer(r: Register, ops: Seq<Operation>, words: Seq<u32>)
    requires
        stabilizer(r.tableau),
        forall|i: int| 0 <= i < ops.len() ==> coherent(#[trigger] ops[i], r.tableau.len() as int),
    ensures
        run_defined(r, ops, words),
        stabilizer(run(r, ops, words).register.tableau),
        run(r, ops, words).register.tableau.len() == r.tableau.len(),
    decreases ops.len(),
{
    if ops.len() > 0 {
        let head = ops.drop_last();
        assert forall|i: int| 0 <= i < head.len() implies coherent(
            #[trigger] head[i],
            r.tableau.len() as int,
        ) by {
            assert(head[i] == ops[i]);
        }
        lemma_run_keeps_stabilizer(r, head, words);
        let before = run(r, head, words);
        lemma_apply_keeps_stabilizer(before.register, ops.last(), words[before.drawn as int]);
        lemma_apply_keeps_stabilizer(before.register, ops.last(), 0);
    }
}

} // verus!
