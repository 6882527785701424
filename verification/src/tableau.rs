//! The mathematical model of a stabilizer tableau and of the rules that
//! rewrite it.

use crate::bitarray::xor_bits;
use vstd::prelude::*;

verus! {

/// One Pauli generator: the operator with an `X` factor on every qubit `j`
/// where `x[j]` holds and a `Z` factor where `z[j]` holds, negated if `sign`
/// holds.
pub struct PauliRow {
    pub x: Seq<bool>,
    pub z: Seq<bool>,
    pub sign: bool,
}

/// A tableau is the list of its generators.
pub type Tableau = Seq<PauliRow>;

/// Every one of the `t.len()` rows spans `t.len()` qubits.
pub open spec fn square(t: Tableau) -> bool {
    forall|k: int| 0 <= k < t.len() ==> (#[trigger] t[k]).x.len() == t.len() && t[k].z.len() == t.len()
}

/// `n` clear bits.
pub open spec fn clear_bits(n: nat) -> Seq<bool> {
    Seq::new(n, |j: int| false)
}

/// `n` bits of which only bit `q` is set.
pub open spec fn unit_bits(n: nat, q: int) -> Seq<bool> {
    Seq::new(n, |j: int| j == q)
}

/// The generator `Z` on qubit `q` alone, with the given sign.
pub open spec fn z_row(n: nat, q: int, sign: bool) -> PauliRow {
    PauliRow { x: clear_bits(n), z: unit_bits(n, q), sign }
}

/// The tableau of the state in which all `n` qubits are zero: row `k` is
/// `+Z` on qubit `k`.
pub open spec fn zero_state(n: nat) -> Tableau {
    Seq::new(n, |k: int| z_row(n, k, false))
}

/// The product of two generators, up to the phase that a tableau does not
/// track: supports add modulo two, signs too.
pub open spec fn row_product(a: PauliRow, b: PauliRow) -> PauliRow {
    PauliRow { x: xor_bits(a.x, b.x), z: xor_bits(a.z, b.z), sign: a.sign != b.sign }
}

/// `X` on qubit `q` negates a generator that has a `Z` factor there.
pub open spec fn x_on_row(r: PauliRow, q: int) -> PauliRow {
    PauliRow { sign: r.sign != r.z[q], ..r }
}

/// `Z` on qubit `q` negates a generator that has an `X` factor there.
pub open spec fn z_on_row(r: PauliRow, q: int) -> PauliRow {
    PauliRow { sign: r.sign != r.x[q], ..r }
}

/// `Y` on qubit `q` negates a generator that has exactly one of the two
/// factors there.
pub open spec fn y_on_row(r: PauliRow, q: int) -> PauliRow {
    PauliRow { sign: r.sign != (r.x[q] != r.z[q]), ..r }
}

/// `H` on qubit `q` exchanges the `X` and `Z` factors there, and negates a
/// generator that has both.
pub open spec fn h_on_row(r: PauliRow, q: int) -> PauliRow {
    PauliRow {
        x: r.x.update(q, r.z[q]),
        z: r.z.update(q, r.x[q]),
        sign: r.sign != (r.x[q] && r.z[q]),
    }
}

/// `S` on qubit `q` toggles the `Z` factor of a generator that has an `X`
/// factor there, and negates it if it had both.
pub open spec fn s_on_row(r: PauliRow, q: int) -> PauliRow {
    PauliRow { x: r.x, z: r.z.update(q, r.z[q] != r.x[q]), sign: r.sign != (r.x[q] && r.z[q]) }
}

/// The inverse of `S` on qubit `q` toggles the `Z` factor of a generator
/// that has an `X` factor there, and negates it if it had no `Z` factor.
pub open spec fn sdg_on_row(r: PauliRow, q: int) -> PauliRow {
    PauliRow { x: r.x, z: r.z.update(q, r.z[q] != r.x[q]), sign: r.sign != (r.x[q] && !r.z[q]) }
}

/// `CX` with control `c` and target `t` copies the `X` factor from control
/// to target and the `Z` factor from target to control, and negates a
/// generator that has both factors on the control.
pub open spec fn cx_on_row(r: PauliRow, c: int, t: int) -> PauliRow {
    PauliRow {
        x: r.x.update(t, r.x[t] != r.x[c]),
        z: r.z.update(c, r.z[c] != r.z[t]),
        sign: r.sign != (r.x[c] && r.z[c]),
    }
}

pub open spec fn gate_x(t: Tableau, q: int) -> Tableau {
    Seq::new(t.len(), |k: int| x_on_row(t[k], q))
}

pub open spec fn gate_y(t: Tableau, q: int) -> Tableau {
    Seq::new(t.len(), |k: int| y_on_row(t[k], q))
}

pub open spec fn gate_z(t: Tableau, q: int) -> Tableau {
    Seq::new(t.len(), |k: int| z_on_row(t[k], q))
}

pub open spec fn gate_h(t: Tableau, q: int) -> Tableau {
    Seq::new(t.len(), |k: int| h_on_row(t[k], q))
}

pub open spec fn gate_s(t: Tableau, q: int) -> Tableau {
    Seq::new(t.len(), |k: int| s_on_row(t[k], q))
}

pub open spec fn gate_sdg(t: Tableau, q: int) -> Tableau {
    Seq::new(t.len(), |k: int| sdg_on_row(t[k], q))
}

pub open spec fn gate_cx(t: Tableau, c: int, tgt: int) -> Tableau {
    Seq::new(t.len(), |k: int| cx_on_row(t[k], c, tgt))
}

} // verus!
