//! What makes a tableau the tableau of a stabilizer state, and why every
//! rule of the simulator keeps it one.
//!
//! The `n` rows of such a tableau commute with each other and are
//! independent. Both follow from a second set of `n` rows, the
//! destabilizers, which the simulator does not store: together the two sets
//! form a basis in which every Pauli operator has a unique expansion.

use crate::measurement::{collapse, has_factor};
use crate::parity::{
    across, along, lemma_parity_combination, lemma_parity_congruent, lemma_parity_exchange,
    lemma_parity_single, lemma_parity_two_changed, lemma_parity_zero, only_at, parity, sums_across,
    sums_along,
};
use crate::tableau::{
    clear_bits, cx_on_row, gate_cx, gate_h, gate_s, gate_sdg, gate_x, gate_y, gate_z, row_product,
    square, unit_bits, z_row, zero_state, PauliRow, Tableau,
};
use vstd::prelude::*;

verus! {

/// One of the `2n` places of a row: the `X` factor or the `Z` factor on a
/// qubit.
pub struct Place {
    pub in_x: bool,
    pub col: int,
}

/// The other factor on the same qubit.
pub open spec fn dual(p: Place) -> Place {
    Place { in_x: !p.in_x, col: p.col }
}

/// The place is that of one of `n` qubits.
pub open spec fn within(p: Place, n: int) -> bool {
    0 <= p.col < n
}

/// Whether row `r` has the factor at place `p`.
pub open spec fn factor(r: PauliRow, p: Place) -> bool {
    has_factor(r, p.in_x, p.col)
}

/// What qubit `j` adds to the count of places where one row has an `X`
/// factor and the other a `Z` factor.
pub open spec fn clash(a: PauliRow, b: PauliRow) -> spec_fn(int) -> bool {
    |j: int| (a.x[j] && b.z[j]) != (a.z[j] && b.x[j])
}

/// Two rows anticommute: the places where one has an `X` factor and the
/// other a `Z` factor are odd in number.
pub open spec fn anticommute(a: PauliRow, b: PauliRow) -> bool {
    parity(a.x.len() as int, clash(a, b))
}

/// What the pair of rows `i` adds to the expansion of the unit at place
/// `b`, read at place `a`.
pub open spec fn share(d: Tableau, t: Tableau, a: Place, b: Place) -> spec_fn(int) -> bool {
    |i: int| (factor(t[i], dual(b)) && factor(d[i], a)) != (factor(d[i], dual(b)) && factor(t[i], a))
}

/// The factor at place `a` of the expansion over the rows of `d` and `t` of
/// the operator that has the one factor at place `b`.
pub open spec fn expansion(d: Tableau, t: Tableau, a: Place, b: Place) -> bool {
    parity(t.len() as int, share(d, t, a, b))
}

/// The rows of `d` are destabilizers for the rows of `t`: rows of `t`
/// commute, rows of `d` commute, a row of `d` anticommutes with the row of
/// `t` of the same number and no other, and every operator with a single
/// factor is its own expansion over the two sets.
pub open spec fn destabilizes(d: Tableau, t: Tableau) -> bool {
    let n = t.len() as int;
    &&& square(t)
    &&& square(d)
    &&& d.len() == t.len()
    &&& forall|i: int, j: int| 0 <= i < n && 0 <= j < n ==> !#[trigger] anticommute(t[i], t[j])
    &&& forall|i: int, j: int| 0 <= i < n && 0 <= j < n ==> !#[trigger] anticommute(d[i], d[j])
    &&& forall|i: int, j: int|
        0 <= i < n && 0 <= j < n ==> #[trigger] anticommute(d[i], t[j]) == (i == j)
    &&& forall|a: Place, b: Place|
        within(a, n) && within(b, n) ==> #[trigger] expansion(d, t, a, b) == (a == b)
}

/// The tableau is that of a stabilizer state: it has destabilizers.
pub open spec fn stabilizer(t: Tableau) -> bool {
    exists|d: Tableau| destabilizes(d, t)
}

/// The generator `X` on qubit `q` alone.
pub open spec fn x_row(n: nat, q: int) -> PauliRow {
    PauliRow { x: unit_bits(n, q), z: clear_bits(n), sign: false }
}

/// The destabilizers of the state in which all `n` qubits are zero: row `k`
/// is `X` on qubit `k`.
pub open spec fn zero_destabilizers(n: nat) -> Tableau {
    Seq::new(n, |k: int| x_row(n, k))
}

/// The state in which every qubit is zero is a stabilizer state.
pub proof fn lemma_zero_state_stabilizer(n: nat)
    ensures
        stabilizer(zero_state(n)),
{
    let t = zero_state(n);
    let d = zero_destabilizers(n);
    assert forall|i: int, j: int| 0 <= i < n && 0 <= j < n implies !#[trigger] anticommute(
        t[i],
        t[j],
    ) by {
        lemma_parity_zero(n as int, clash(t[i], t[j]));
    }
    assert forall|i: int, j: int| 0 <= i < n && 0 <= j < n implies !#[trigger] anticommute(
        d[i],
        d[j],
    ) by {
        lemma_parity_zero(n as int, clash(d[i], d[j]));
    }
    assert forall|i: int, j: int| 0 <= i < n && 0 <= j < n implies #[trigger] anticommute(
        d[i],
        t[j],
    ) == (i == j) by {
        lemma_parity_single(n as int, clash(d[i], t[j]), i);
    }
    assert forall|a: Place, b: Place| within(a, n as int) && within(b, n as int) implies #[trigger] expansion(
        d,
        t,
        a,
        b,
    ) == (a == b) by {
        lemma_parity_single(n as int, share(d, t, a, b), a.col);
    }
    assert(destabilizes(d, t));
}

/// Whether rows anticommute depends on their factors alone, not on their
/// signs.
pub proof fn lemma_anticommute_by_factors(a: PauliRow, b: PauliRow, a2: PauliRow, b2: PauliRow)
    requires
        a.x == a2.x,
        a.z == a2.z,
        b.x == b2.x,
        b.z == b2.z,
    ensures
        anticommute(a, b) == anticommute(a2, b2),
{
    lemma_parity_congruent(a.x.len() as int, clash(a, b), clash(a2, b2));
}

/// Destabilizers stay destabilizers when signs change.
pub proof fn lemma_destabilizes_by_factors(d: Tableau, t: Tableau, t2: Tableau)
    requires
        destabilizes(d, t),
        t2.len() == t.len(),
        forall|k: int| 0 <= k < t.len() ==> (#[trigger] t2[k]).x == t[k].x && t2[k].z == t[k].z,
    ensures
        destabilizes(d, t2),
{
    let n = t.len() as int;
    assert forall|i: int, j: int| 0 <= i < n && 0 <= j < n implies !#[trigger] anticommute(
        t2[i],
        t2[j],
    ) by {
        lemma_anticommute_by_factors(t[i], t[j], t2[i], t2[j]);
    }
    assert forall|i: int, j: int| 0 <= i < n && 0 <= j < n implies #[trigger] anticommute(
        d[i],
        t2[j],
    ) == (i == j) by {
        lemma_anticommute_by_factors(d[i], t[j], d[i], t2[j]);
    }
    assert forall|a: Place, b: Place| within(a, n) && within(b, n) implies #[trigger] expansion(
        d,
        t2,
        a,
        b,
    ) == (a == b) by {
        lemma_parity_congruent(n, share(d, t2, a, b), share(d, t, a, b));
        assert(expansion(d, t, a, b) == (a == b));
    }
}

/// `X`, `Y` and `Z` change signs only, so they keep a stabilizer state one.
pub proof fn lemma_pauli_gates_keep_stabilizer(t: Tableau, q: int)
    requires
        stabilizer(t),
    ensures
        stabilizer(gate_x(t, q)),
        stabilizer(gate_y(t, q)),
        stabilizer(gate_z(t, q)),
{
    let d = choose|d: Tableau| destabilizes(d, t);
    lemma_destabilizes_by_factors(d, t, gate_x(t, q));
    lemma_destabilizes_by_factors(d, t, gate_y(t, q));
    lemma_destabilizes_by_factors(d, t, gate_z(t, q));
}

/// `H` on qubit `q` exchanges the two places on that qubit.
pub open spec fn h_place(p: Place, q: int) -> Place {
    if p.col == q {
        dual(p)
    } else {
        p
    }
}

/// `H` keeps a stabilizer state one.
pub proof fn lemma_h_keeps_stabilizer(t: Tableau, q: int)
    requires
        stabilizer(t),
        0 <= q < t.len(),
    ensures
        stabilizer(gate_h(t, q)),
{
    let n = t.len() as int;
    let d = choose|d: Tableau| destabilizes(d, t);
    let t2 = gate_h(t, q);
    let d2 = gate_h(d, q);
    assert forall|i: int, j: int| 0 <= i < n && 0 <= j < n implies !#[trigger] anticommute(
        t2[i],
        t2[j],
    ) by {
        lemma_parity_congruent(n, clash(t2[i], t2[j]), clash(t[i], t[j]));
        assert(!anticommute(t[i], t[j]));
    }
    assert forall|i: int, j: int| 0 <= i < n && 0 <= j < n implies !#[trigger] anticommute(
        d2[i],
        d2[j],
    ) by {
        lemma_parity_congruent(n, clash(d2[i], d2[j]), clash(d[i], d[j]));
        assert(!anticommute(d[i], d[j]));
    }
    assert forall|i: int, j: int| 0 <= i < n && 0 <= j < n implies #[trigger] anticommute(
        d2[i],
        t2[j],
    ) == (i == j) by {
        lemma_parity_congruent(n, clash(d2[i], t2[j]), clash(d[i], t[j]));
        assert(anticommute(d[i], t[j]) == (i == j));
    }
    assert forall|a: Place, b: Place| within(a, n) && within(b, n) implies #[trigger] expansion(
        d2,
        t2,
        a,
        b,
    ) == (a == b) by {
        let a0 = h_place(a, q);
        let b0 = h_place(b, q);
        lemma_parity_congruent(n, share(d2, t2, a, b), share(d, t, a0, b0));
        assert(expansion(d, t, a0, b0) == (a0 == b0));
    }
    assert(destabilizes(d2, t2));
}

/// A rule that adds to the factor at some places the factor at another
/// place: `moved` tells the places that receive, `source` from where.
pub open spec fn shears(
    before: Tableau,
    after: Tableau,
    moved: spec_fn(Place) -> bool,
    source: spec_fn(Place) -> Place,
) -> bool {
    &&& after.len() == before.len()
    &&& square(after)
    &&& forall|i: int, p: Place|
        0 <= i < before.len() && within(p, before.len() as int) ==> #[trigger] factor(after[i], p)
            == (factor(before[i], p) != (moved(p) && factor(before[i], source(p))))
}

/// After a rule that shears both sets of rows alike, the expansion of a unit
/// is a sum of four expansions from before.
proof fn lemma_sheared_expansion(
    d: Tableau,
    t: Tableau,
    d2: Tableau,
    t2: Tableau,
    moved: spec_fn(Place) -> bool,
    source: spec_fn(Place) -> Place,
    a: Place,
    b: Place,
)
    requires
        d.len() == t.len(),
        shears(d, d2, moved, source),
        shears(t, t2, moved, source),
        within(a, t.len() as int),
        within(b, t.len() as int),
    ensures
        expansion(d2, t2, a, b) == ((expansion(d, t, a, b) != (moved(a) && expansion(
            d,
            t,
            source(a),
            b,
        ))) != ((moved(dual(b)) && expansion(d, t, a, dual(source(dual(b))))) != (moved(a) && moved(
            dual(b),
        ) && expansion(d, t, source(a), dual(source(dual(b))))))),
{
    let n = t.len() as int;
    let sa = source(a);
    let sb = dual(source(dual(b)));
    assert forall|i: int| 0 <= i < n implies #[trigger] share(d2, t2, a, b)(i) == (((true && share(
        d,
        t,
        a,
        b,
    )(i)) != (moved(a) && share(d, t, sa, b)(i))) != ((moved(dual(b)) && share(d, t, a, sb)(i)) != ((
    moved(a) && moved(dual(b))) && share(d, t, sa, sb)(i)))) by {
        assert(factor(t2[i], a) == (factor(t[i], a) != (moved(a) && factor(t[i], sa))));
        assert(factor(d2[i], a) == (factor(d[i], a) != (moved(a) && factor(d[i], sa))));
        assert(factor(t2[i], dual(b)) == (factor(t[i], dual(b)) != (moved(dual(b)) && factor(
            t[i],
            source(dual(b)),
        ))));
        assert(factor(d2[i], dual(b)) == (factor(d[i], dual(b)) != (moved(dual(b)) && factor(
            d[i],
            source(dual(b)),
        ))));
        assert(dual(sb) == source(dual(b)));
    }
    lemma_parity_combination(
        n,
        share(d2, t2, a, b),
        true,
        share(d, t, a, b),
        moved(a),
        share(d, t, sa, b),
        moved(dual(b)),
        share(d, t, a, sb),
        moved(a) && moved(dual(b)),
        share(d, t, sa, sb),
    );
}

/// The places that `S` on qubit `q` adds to: the `Z` factor on `q`.
pub open spec fn s_moved(q: int) -> spec_fn(Place) -> bool {
    |p: Place| !p.in_x && p.col == q
}

/// From where `S` on qubit `q` adds: the `X` factor on `q`.
pub open spec fn s_source(q: int) -> spec_fn(Place) -> Place {
    |p: Place| Place { in_x: true, col: q }
}

/// `S` and its inverse keep a stabilizer state one.
pub proof fn lemma_s_keeps_stabilizer(t: Tableau, q: int)
    requires
        stabilizer(t),
        0 <= q < t.len(),
    ensures
        stabilizer(gate_s(t, q)),
        stabilizer(gate_sdg(t, q)),
{
    let n = t.len() as int;
    let d = choose|d: Tableau| destabilizes(d, t);
    let t2 = gate_s(t, q);
    let d2 = gate_s(d, q);
    assert forall|i: int, j: int| 0 <= i < n && 0 <= j < n implies !#[trigger] anticommute(
        t2[i],
        t2[j],
    ) by {
        lemma_parity_congruent(n, clash(t2[i], t2[j]), clash(t[i], t[j]));
        assert(!anticommute(t[i], t[j]));
    }
    assert forall|i: int, j: int| 0 <= i < n && 0 <= j < n implies !#[trigger] anticommute(
        d2[i],
        d2[j],
    ) by {
        lemma_parity_congruent(n, clash(d2[i], d2[j]), clash(d[i], d[j]));
        assert(!anticommute(d[i], d[j]));
    }
    assert forall|i: int, j: int| 0 <= i < n && 0 <= j < n implies #[trigger] anticommute(
        d2[i],
        t2[j],
    ) == (i == j) by {
        lemma_parity_congruent(n, clash(d2[i], t2[j]), clash(d[i], t[j]));
        assert(anticommute(d[i], t[j]) == (i == j));
    }
    let moved = s_moved(q);
    let source = s_source(q);
    assert(shears(d, d2, moved, source));
    assert(shears(t, t2, moved, source));
    assert forall|a: Place, b: Place| within(a, n) && within(b, n) implies #[trigger] expansion(
        d2,
        t2,
        a,
        b,
    ) == (a == b) by {
        lemma_sheared_expansion(d, t, d2, t2, moved, source, a, b);
        let sa = source(a);
        let sb = dual(source(dual(b)));
        assert(expansion(d, t, a, b) == (a == b));
        assert(expansion(d, t, sa, b) == (sa == b));
        assert(expansion(d, t, a, sb) == (a == sb));
        assert(expansion(d, t, sa, sb) == (sa == sb));
    }
    assert(destabilizes(d2, t2));
    lemma_destabilizes_by_factors(d2, t2, gate_sdg(t, q));
}

/// The places that `CX` adds to: the `X` factor on the target and the `Z`
/// factor on the control.
pub open spec fn cx_moved(c: int, t: int) -> spec_fn(Place) -> bool {
    |p: Place| (p.in_x && p.col == t) || (!p.in_x && p.col == c)
}

/// From where `CX` adds: the same factor on the other of the two qubits.
pub open spec fn cx_source(c: int, t: int) -> spec_fn(Place) -> Place {
    |p: Place|
        if p.in_x {
            Place { in_x: true, col: c }
        } else {
            Place { in_x: false, col: t }
        }
}

/// `CX` keeps two rows commuting or anticommuting as they were.
proof fn lemma_cx_keeps_anticommute(a: PauliRow, b: PauliRow, c: int, t: int, n: int)
    requires
        a.x.len() == n,
        a.z.len() == n,
        b.x.len() == n,
        b.z.len() == n,
        0 <= c < n,
        0 <= t < n,
        c != t,
    ensures
        anticommute(cx_on_row(a, c, t), cx_on_row(b, c, t)) == anticommute(a, b),
{
    lemma_parity_two_changed(n, clash(cx_on_row(a, c, t), cx_on_row(b, c, t)), clash(a, b), c, t);
}

/// `CX` on two different qubits keeps a stabilizer state one.
pub proof fn lemma_cx_keeps_stabilizer(t: Tableau, c: int, tgt: int)
    requires
        stabilizer(t),
        0 <= c < t.len(),
        0 <= tgt < t.len(),
        c != tgt,
    ensures
        stabilizer(gate_cx(t, c, tgt)),
{
    let n = t.len() as int;
    let d = choose|d: Tableau| destabilizes(d, t);
    let t2 = gate_cx(t, c, tgt);
    let d2 = gate_cx(d, c, tgt);
    assert forall|i: int, j: int| 0 <= i < n && 0 <= j < n implies !#[trigger] anticommute(
        t2[i],
        t2[j],
    ) by {
        lemma_cx_keeps_anticommute(t[i], t[j], c, tgt, n);
        assert(!anticommute(t[i], t[j]));
    }
    assert forall|i: int, j: int| 0 <= i < n && 0 <= j < n implies !#[trigger] anticommute(
        d2[i],
        d2[j],
    ) by {
        lemma_cx_keeps_anticommute(d[i], d[j], c, tgt, n);
        assert(!anticommute(d[i], d[j]));
    }
    assert forall|i: int, j: int| 0 <= i < n && 0 <= j < n implies #[trigger] anticommute(
        d2[i],
        t2[j],
    ) == (i == j) by {
        lemma_cx_keeps_anticommute(d[i], t[j], c, tgt, n);
        assert(anticommute(d[i], t[j]) == (i == j));
    }
    let moved = cx_moved(c, tgt);
    let source = cx_source(c, tgt);
    assert(shears(d, d2, moved, source));
    assert(shears(t, t2, moved, source));
    assert forall|a: Place, b: Place| within(a, n) && within(b, n) implies #[trigger] expansion(
        d2,
        t2,
        a,
        b,
    ) == (a == b) by {
        lemma_sheared_expansion(d, t, d2, t2, moved, source, a, b);
        let sa = source(a);
        let sb = dual(source(dual(b)));
        assert(expansion(d, t, a, b) == (a == b));
        assert(expansion(d, t, sa, b) == (sa == b));
        assert(expansion(d, t, a, sb) == (a == sb));
        assert(expansion(d, t, sa, sb) == (sa == sb));
    }
    assert(destabilizes(d2, t2));
}

/// Row `r`, multiplied by row `s` if `c` holds.
pub open spec fn times(r: PauliRow, c: bool, s: PauliRow) -> PauliRow {
    if c {
        row_product(r, s)
    } else {
        r
    }
}

/// Whether two rows anticommute does not depend on their order.
pub proof fn lemma_anticommute_symmetric(a: PauliRow, b: PauliRow)
    requires
        a.x.len() == b.x.len(),
    ensures
        anticommute(a, b) == anticommute(b, a),
{
    lemma_parity_congruent(a.x.len() as int, clash(a, b), clash(b, a));
}

/// Whether products anticommute follows from whether their factors do.
pub proof fn lemma_anticommute_products(
    a: PauliRow,
    ca: bool,
    sa: PauliRow,
    b: PauliRow,
    cb: bool,
    sb: PauliRow,
    n: int,
)
    requires
        a.x.len() == n && a.z.len() == n,
        sa.x.len() == n && sa.z.len() == n,
        b.x.len() == n && b.z.len() == n,
        sb.x.len() == n && sb.z.len() == n,
    ensures
        anticommute(times(a, ca, sa), times(b, cb, sb)) == ((anticommute(a, b) != (ca
            && anticommute(sa, b))) != ((cb && anticommute(a, sb)) != ((ca && cb) && anticommute(
            sa,
            sb,
        )))),
{
    lemma_parity_combination(
        n,
        clash(times(a, ca, sa), times(b, cb, sb)),
        true,
        clash(a, b),
        ca,
        clash(sa, b),
        cb,
        clash(a, sb),
        ca && cb,
        clash(sa, sb),
    );
}

/// Multiplying one row of a stabilizer tableau into another leaves a
/// stabilizer tableau.
pub proof fn lemma_product_keeps_stabilizer(t: Tableau, k: int, p: int)
    requires
        stabilizer(t),
        0 <= k < t.len(),
        0 <= p < t.len(),
        k != p,
    ensures
        stabilizer(t.update(k, row_product(t[k], t[p]))),
{
    let n = t.len() as int;
    let d = choose|d: Tableau| destabilizes(d, t);
    let t2 = t.update(k, row_product(t[k], t[p]));
    let d2 = d.update(p, row_product(d[p], d[k]));
    assert forall|i: int, j: int| 0 <= i < n && 0 <= j < n implies !#[trigger] anticommute(
        t2[i],
        t2[j],
    ) by {
        lemma_anticommute_products(t[i], i == k, t[p], t[j], j == k, t[p], n);
        assert(!anticommute(t[i], t[j]) && !anticommute(t[p], t[j]) && !anticommute(t[i], t[p])
            && !anticommute(t[p], t[p]));
    }
    assert forall|i: int, j: int| 0 <= i < n && 0 <= j < n implies !#[trigger] anticommute(
        d2[i],
        d2[j],
    ) by {
        lemma_anticommute_products(d[i], i == p, d[k], d[j], j == p, d[k], n);
        assert(!anticommute(d[i], d[j]) && !anticommute(d[k], d[j]) && !anticommute(d[i], d[k])
            && !anticommute(d[k], d[k]));
    }
    assert forall|i: int, j: int| 0 <= i < n && 0 <= j < n implies #[trigger] anticommute(
        d2[i],
        t2[j],
    ) == (i == j) by {
        lemma_anticommute_products(d[i], i == p, d[k], t[j], j == k, t[p], n);
        assert(anticommute(d[i], t[j]) == (i == j));
        assert(anticommute(d[k], t[j]) == (k == j));
        assert(anticommute(d[i], t[p]) == (i == p));
        assert(anticommute(d[k], t[p]) == (k == p));
    }
    assert forall|a: Place, b: Place| within(a, n) && within(b, n) implies #[trigger] expansion(
        d2,
        t2,
        a,
        b,
    ) == (a == b) by {
        lemma_parity_two_changed(n, share(d2, t2, a, b), share(d, t, a, b), k, p);
        assert(expansion(d, t, a, b) == (a == b));
    }
    assert(destabilizes(d2, t2));
}

/// Whether a row anticommutes with `Z` on qubit `q` is whether it has an `X`
/// factor there.
pub proof fn lemma_anticommute_z_row(r: PauliRow, n: nat, q: int, sign: bool)
    requires
        r.x.len() == n,
        r.z.len() == n,
        0 <= q < n,
    ensures
        anticommute(z_row(n, q, sign), r) == r.x[q],
        anticommute(r, z_row(n, q, sign)) == r.x[q],
{
    lemma_parity_single(n as int, clash(z_row(n, q, sign), r), q);
    lemma_parity_single(n as int, clash(r, z_row(n, q, sign)), q);
}

/// The destabilizers after a collapse onto row `p`: what row `p` was takes
/// the place of its destabilizer, and is multiplied into every other
/// destabilizer that anticommutes with `Z` on qubit `q`.
pub open spec fn collapsed_destabilizers(d: Tableau, t: Tableau, q: int, p: int) -> Tableau {
    Seq::new(
        d.len(),
        |i: int|
            if i == p {
                t[p]
            } else {
                times(d[i], d[i].x[q], t[p])
            },
    )
}

/// The collapse of a stabilizer tableau onto a row that anticommutes with
/// `Z` on the measured qubit leaves a stabilizer tableau.
pub proof fn lemma_collapse_keeps_stabilizer(t: Tableau, q: int, p: int, bit: bool)
    requires
        stabilizer(t),
        0 <= q < t.len(),
        0 <= p < t.len(),
        t[p].x[q],
    ensures
        stabilizer(collapse(t, q, p, bit)),
{
    let n = t.len() as int;
    let d = choose|d: Tableau| destabilizes(d, t);
    let t2 = collapse(t, q, p, bit);
    let d2 = collapsed_destabilizers(d, t, q, p);
    let zq = z_row(t.len(), q, bit);
    assert forall|i: int, j: int| 0 <= i < n && 0 <= j < n implies !#[trigger] anticommute(
        t2[i],
        t2[j],
    ) by {
        if i == p {
            lemma_anticommute_z_row(t2[j], t.len(), q, bit);
        } else if j == p {
            lemma_anticommute_z_row(t2[i], t.len(), q, bit);
        } else {
            lemma_anticommute_products(t[i], t[i].x[q], t[p], t[j], t[j].x[q], t[p], n);
            assert(!anticommute(t[i], t[j]) && !anticommute(t[p], t[j]) && !anticommute(
                t[i],
                t[p],
            ) && !anticommute(t[p], t[p]));
        }
    }
    assert forall|i: int, j: int| 0 <= i < n && 0 <= j < n implies !#[trigger] anticommute(
        d2[i],
        d2[j],
    ) by {
        lemma_anticommute_products(
            if i == p { t[p] } else { d[i] },
            i != p && d[i].x[q],
            t[p],
            if j == p { t[p] } else { d[j] },
            j != p && d[j].x[q],
            t[p],
            n,
        );
        lemma_anticommute_symmetric(t[p], d[j]);
        assert(!anticommute(d[i], d[j]));
        assert(!anticommute(t[p], t[p]));
        assert(anticommute(d[i], t[p]) == (i == p));
        assert(anticommute(d[j], t[p]) == (j == p));
    }
    assert forall|i: int, j: int| 0 <= i < n && 0 <= j < n implies #[trigger] anticommute(
        d2[i],
        t2[j],
    ) == (i == j) by {
        if j == p {
            lemma_anticommute_z_row(d2[i], t.len(), q, bit);
        } else {
            lemma_anticommute_products(
                if i == p { t[p] } else { d[i] },
                i != p && d[i].x[q],
                t[p],
                t[j],
                t[j].x[q],
                t[p],
                n,
            );
            assert(anticommute(d[i], t[j]) == (i == j));
            assert(anticommute(d[i], t[p]) == (i == p));
            assert(!anticommute(t[p], t[j]) && !anticommute(t[p], t[p]));
        }
    }
    let xq = Place { in_x: true, col: q };
    let zqp = Place { in_x: false, col: q };
    assert forall|a: Place, b: Place| within(a, n) && within(b, n) implies #[trigger] expansion(
        d2,
        t2,
        a,
        b,
    ) == (a == b) by {
        let ca = factor(t[p], a);
        let cb = factor(t[p], dual(b));
        let fix = (b == xq && ca) != (cb && a == zqp);
        assert forall|i: int| 0 <= i < n implies #[trigger] share(d2, t2, a, b)(i) == (((true
            && share(d, t, a, b)(i)) != (ca && share(d, t, xq, b)(i))) != ((cb && share(
            d,
            t,
            a,
            zqp,
        )(i)) != (fix && only_at(p)(i)))) by {
            assert(dual(zqp) == xq);
        }
        lemma_parity_combination(
            n,
            share(d2, t2, a, b),
            true,
            share(d, t, a, b),
            ca,
            share(d, t, xq, b),
            cb,
            share(d, t, a, zqp),
            fix,
            only_at(p),
        );
        lemma_parity_single(n, only_at(p), p);
        assert(expansion(d, t, a, b) == (a == b));
        assert(expansion(d, t, xq, b) == (xq == b));
        assert(expansion(d, t, a, zqp) == (a == zqp));
    }
    assert(destabilizes(d2, t2));
}

/// What row `i` adds at place `a` to the product of the rows that `c`
/// chooses.
pub open spec fn chosen(t: Tableau, c: Seq<bool>, a: Place) -> spec_fn(int) -> bool {
    |i: int| c[i] && factor(t[i], a)
}

/// Whether the product of the rows of `t` that `c` chooses has the factor at
/// place `a`.
pub open spec fn product_factor(t: Tableau, c: Seq<bool>, a: Place) -> bool {
    parity(t.len() as int, chosen(t, c, a))
}

/// What qubit `j` and row `k` add to the count that tells whether `r`
/// anticommutes with the product of the rows that `c` chooses.
pub open spec fn chosen_clash(r: PauliRow, t: Tableau, c: Seq<bool>) -> spec_fn(int, int) -> bool {
    |j: int, k: int| c[k] && clash(r, t[k])(j)
}

/// The rows of a stabilizer tableau are independent: a choice of rows whose
/// product has no factor at all chooses no row.
pub proof fn lemma_stabilizer_independent(t: Tableau, c: Seq<bool>)
    requires
        stabilizer(t),
        c.len() == t.len(),
        forall|a: Place| within(a, t.len() as int) ==> !#[trigger] product_factor(t, c, a),
    ensures
        forall|i: int| 0 <= i < t.len() ==> !#[trigger] c[i],
{
    let n = t.len() as int;
    let d = choose|d: Tableau| destabilizes(d, t);
    assert forall|i: int| 0 <= i < n implies !#[trigger] c[i] by {
        let f = chosen_clash(d[i], t, c);
        lemma_parity_exchange(n, n, f);
        // qubit by qubit, the chosen rows add up to nothing
        assert forall|j: int| 0 <= j < n implies !#[trigger] sums_along(n, f)(j) by {
            let in_x = Place { in_x: true, col: j };
            let in_z = Place { in_x: false, col: j };
            lemma_parity_combination(
                n,
                along(f, j),
                d[i].x[j],
                chosen(t, c, in_z),
                d[i].z[j],
                chosen(t, c, in_x),
                false,
                chosen(t, c, in_x),
                false,
                chosen(t, c, in_x),
            );
            assert(!product_factor(t, c, in_x));
            assert(!product_factor(t, c, in_z));
        }
        lemma_parity_zero(n, sums_along(n, f));
        // row by row, only row `i` anticommutes with its destabilizer
        assert forall|k: int| 0 <= k < n && k != i implies !#[trigger] sums_across(n, f)(k) by {
            lemma_row_share(d[i], t, c, k, n);
            assert(anticommute(d[i], t[k]) == (i == k));
        }
        lemma_parity_single(n, sums_across(n, f), i);
        lemma_row_share(d[i], t, c, i, n);
        assert(anticommute(d[i], t[i]) == (i == i));
    }
}

/// What one row adds to the double sum is whether it is chosen and
/// anticommutes.
proof fn lemma_row_share(r: PauliRow, t: Tableau, c: Seq<bool>, k: int, n: int)
    requires
        r.x.len() == n,
    ensures
        sums_across(n, chosen_clash(r, t, c))(k) == (c[k] && anticommute(r, t[k])),
{
    let f = chosen_clash(r, t, c);
    lemma_parity_combination(
        n,
        across(f, k),
        c[k],
        clash(r, t[k]),
        false,
        clash(r, t[k]),
        false,
        clash(r, t[k]),
        false,
        clash(r, t[k]),
    );
}

} // verus!
