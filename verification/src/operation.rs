//! Operations as a client submits them, and what a batch of them does.

use crate::measurement::{forced, isolate, measure_step, outcome_defined, Register};
use crate::opid;
use crate::rng::RandomSource;
use crate::tableau::{
    clear_bits, gate_cx, gate_h, gate_s, gate_sdg, gate_x, gate_y, gate_z, zero_state, Tableau,
};
use vstd::prelude::*;

verus! {

/// One operation: an identifier from [`opid`] with its arguments, in one of
/// four shapes.
#[derive(Clone, Copy, Debug, PartialEq, Eq)]
pub enum Operation {
    /// No argument.
    Empty(u16),
    /// One qubit.
    Q(u16, u32),
    /// Two qubits: control, then target.
    QQ(u16, u32, u32),
    /// A qubit and a result slot.
    QS(u16, u32, u32),
}

impl Operation {
    /// The operation that puts every qubit back to zero.
    pub fn initialize() -> (op: Self)
        ensures
            op == Operation::Empty(opid::INIT),
    {
        Operation::Empty(opid::INIT)
    }

    /// The measurement of qubit `q` into slot `s`.
    pub fn measure(q: u32, s: u32) -> (op: Self)
        ensures
            op == Operation::QS(opid::MEAS, q, s),
    {
        Operation::QS(opid::MEAS, q, s)
    }

    /// `X` on qubit `q`.
    pub fn x(q: u32) -> (op: Self)
        ensures
            op == Operation::Q(opid::X, q),
    {
        Operation::Q(opid::X, q)
    }

    /// `Y` on qubit `q`.
    pub fn y(q: u32) -> (op: Self)
        ensures
            op == Operation::Q(opid::Y, q),
    {
        Operation::Q(opid::Y, q)
    }

    /// `Z` on qubit `q`.
    pub fn z(q: u32) -> (op: Self)
        ensures
            op == Operation::Q(opid::Z, q),
    {
        Operation::Q(opid::Z, q)
    }

    /// `H` on qubit `q`.
    pub fn h(q: u32) -> (op: Self)
        ensures
            op == Operation::Q(opid::H, q),
    {
        Operation::Q(opid::H, q)
    }

    /// `S` on qubit `q`.
    pub fn s(q: u32) -> (op: Self)
        ensures
            op == Operation::Q(opid::S, q),
    {
        Operation::Q(opid::S, q)
    }

    /// The inverse of `S` on qubit `q`.
    pub fn sdg(q: u32) -> (op: Self)
        ensures
            op == Operation::Q(opid::SDG, q),
    {
        Operation::Q(opid::SDG, q)
    }

    /// `CX` with control `c` and target `t`.
    pub fn cx(c: u32, t: u32) -> (op: Self)
        ensures
            op == Operation::QQ(opid::CX, c, t),
    {
        Operation::QQ(opid::CX, c, t)
    }
}

/// A simulator of `n` qubits understands `op`: the identifier is one that
/// goes with the shape, and every qubit and slot is below `n`.
pub open spec fn supported(op: Operation, n: int) -> bool {
    match op {
        Operation::Empty(id) => id == opid::INIT,
        Operation::Q(id, q) => {
            &&& id == opid::X || id == opid::Y || id == opid::Z || id == opid::H || id == opid::S
                || id == opid::SDG
            &&& q < n
        },
        Operation::QQ(id, c, t) => id == opid::CX && c < n && t < n,
        Operation::QS(id, q, s) => id == opid::MEAS && q < n && s < n,
    }
}

/// `op` is a measurement whose outcome on `t` is random, so that it draws a
/// word.
pub open spec fn draws(t: Tableau, op: Operation) -> bool {
    match op {
        Operation::QS(id, q, s) => !forced(t, q as int),
        _ => false,
    }
}

/// `op` can be applied to `r`: it is supported, and if it is a measurement
/// it has an outcome.
pub open spec fn defined(r: Register, op: Operation) -> bool {
    &&& supported(op, r.tableau.len() as int)
    &&& match op {
        Operation::QS(id, q, s) => outcome_defined(r.tableau, q as int),
        _ => true,
    }
}

/// The effect of a supported operation. `word` is the word drawn, which
/// matters only where [`draws`] holds.
pub open spec fn apply(r: Register, op: Operation, word: u32) -> Register {
    match op {
        Operation::Empty(id) => Register {
            tableau: zero_state(r.tableau.len()),
            slots: clear_bits(r.slots.len()),
        },
        Operation::Q(id, q) => Register {
            tableau: if id == opid::X {
                gate_x(r.tableau, q as int)
            } else if id == opid::Y {
                gate_y(r.tableau, q as int)
            } else if id == opid::Z {
                gate_z(r.tableau, q as int)
            } else if id == opid::H {
                gate_h(r.tableau, q as int)
            } else if id == opid::S {
                gate_s(r.tableau, q as int)
            } else {
                gate_sdg(r.tableau, q as int)
            },
            slots: r.slots,
        },
        Operation::QQ(id, c, t) => Register {
            tableau: gate_cx(r.tableau, c as int, t as int),
            slots: r.slots,
        },
        Operation::QS(id, q, s) => measure_step(r, q as int, s as int, word),
    }
}

/// What is left of `r` when `op` turns out not to be defined: a measurement
/// without an outcome has run its elimination; anything else has changed
/// nothing.
pub open spec fn stalled(r: Register, op: Operation) -> Register {
    match op {
        Operation::QS(id, q, s) => if supported(op, r.tableau.len() as int) {
            Register { tableau: isolate(r.tableau, q as int).tableau, slots: r.slots }
        } else {
            r
        },
        _ => r,
    }
}

/// How far a batch has come: the register, and how many words were drawn.
pub struct Progress {
    pub register: Register,
    pub drawn: nat,
}

/// One operation of a batch. The word for a random outcome is the next of
/// `words` not yet used.
pub open spec fn step(p: Progress, op: Operation, words: Seq<u32>) -> Progress {
    if draws(p.register.tableau, op) {
        Progress { register: apply(p.register, op, words[p.drawn as int]), drawn: p.drawn + 1 }
    } else {
        Progress { register: apply(p.register, op, 0), drawn: p.drawn }
    }
}

/// The operations of `ops` applied in order from `r`, with the words drawn
/// taken from `words` in order.
pub open spec fn run(r: Register, ops: Seq<Operation>, words: Seq<u32>) -> Progress
    decreases ops.len(),
{
    if ops.len() == 0 {
        Progress { register: r, drawn: 0 }
    } else {
        step(run(r, ops.drop_last(), words), ops.last(), words)
    }
}

/// Every operation of `ops` can be applied when its turn comes, if the words
/// drawn are those of `words`.
pub open spec fn run_defined(r: Register, ops: Seq<Operation>, words: Seq<u32>) -> bool
    decreases ops.len(),
{
    ops.len() == 0 || {
        &&& run_defined(r, ops.drop_last(), words)
        &&& defined(run(r, ops.drop_last(), words).register, ops.last())
    }
}

/// The source `from` can hand out the words of `words` in order and be left
/// as `to`.
pub open spec fn emits_all<R: RandomSource>(from: R, words: Seq<u32>, to: R) -> bool
    decreases words.len(),
{
    if words.len() == 0 {
        from == to
    } else {
        exists|mid: R| emits_all(from, words.drop_last(), mid) && #[trigger] mid.emits(words.last(), to)
    }
}

/// A source that has handed out `words` and then hands out `word` has handed
/// out `words` followed by `word`.
pub proof fn lemma_emits_one_more<R: RandomSource>(from: R, words: Seq<u32>, mid: R, word: u32, to: R)
    requires
        emits_all(from, words, mid),
        mid.emits(word, to),
    ensures
        emits_all(from, words.push(word), to),
{
    let longer = words.push(word);
    assert(longer.drop_last() =~= words);
    assert(longer.last() == word);
    assert(emits_all(from, longer.drop_last(), mid));
    assert(mid.emits(longer.last(), to));
}

/// A run reads no word beyond those it draws: two lists of words that agree
/// on as many entries as the run draws give the same run.
pub proof fn lemma_run_reads_drawn(r: Register, ops: Seq<Operation>, a: Seq<u32>, b: Seq<u32>)
    requires
        forall|i: int| 0 <= i < run(r, ops, a).drawn ==> a[i] == b[i],
    ensures
        run(r, ops, a) == run(r, ops, b),
        run_defined(r, ops, a) == run_defined(r, ops, b),
    decreases ops.len(),
{
    if ops.len() > 0 {
        lemma_run_reads_drawn(r, ops.drop_last(), a, b);
    }
}

/// What holds of a whole batch holds of each of its beginnings.
pub proof fn lemma_run_defined_prefix(r: Register, ops: Seq<Operation>, words: Seq<u32>, upto: int)
    requires
        run_defined(r, ops, words),
        0 <= upto <= ops.len(),
    ensures
        run_defined(r, ops.take(upto), words),
    decreases ops.len(),
{
    if upto < ops.len() {
        lemma_run_defined_prefix(r, ops.drop_last(), words, upto);
        assert(ops.drop_last().take(upto) =~= ops.take(upto));
    } else {
        assert(ops.take(upto) =~= ops);
    }
}

} // verus!
