//! The simulator: a tableau in packed rows, a buffer of measurement results
//! and a source of random words.

use crate::bitarray::BitArray;
use crate::measurement::{
    all_rows, clear_column, clear_columns, collapse, first_anticommuting, forced, forced_outcome,
    has_factor, isolate, lemma_first_anticommuting_found, lemma_first_live_found, live_rows,
    measure_step, outcome_defined, pivot_applied, Elimination, Register,
};
use crate::operation::{
    apply, defined, draws, emits_all, lemma_emits_one_more, lemma_run_defined_prefix,
    lemma_run_reads_drawn, run, run_defined, stalled, supported, Operation, Progress,
};
use crate::opid;
use crate::rng::{xorshift_from_seed, DefaultRng, RandomSource};
use crate::tableau::{
    clear_bits, cx_on_row, gate_cx, gate_h, gate_s, gate_sdg, gate_x, gate_y, gate_z, h_on_row,
    row_product, s_on_row, sdg_on_row, square, unit_bits, z_row, zero_state, PauliRow, Tableau,
};
use vstd::prelude::*;
use vstd::string::StringExecFns;

verus! {

/// A stabilizer simulator of `n` qubits.
pub struct GottesmanKnillSimulator<Rng> {
    xs: Vec<BitArray>,
    zs: Vec<BitArray>,
    sgns: BitArray,
    measured: BitArray,
    rng: Rng,
}

/// The rows that a vector of row numbers lists.
pub open spec fn live_of(indices: Seq<usize>) -> Seq<int> {
    indices.map_values(|v: usize| v as int)
}

/// Bit vectors shown for debugging as a list: in square brackets, separated
/// by a comma and a space.
pub open spec fn rows_text(rows: Seq<BitArray>) -> Seq<char> {
    "["@ + joined_rows(rows) + "]"@
}

/// Bit vectors shown for debugging, separated by a comma and a space.
pub open spec fn joined_rows(rows: Seq<BitArray>) -> Seq<char>
    decreases rows.len(),
{
    if rows.len() == 0 {
        Seq::empty()
    } else if rows.len() == 1 {
        rows[0].debug_view()
    } else {
        joined_rows(rows.drop_last()) + ", "@ + rows.last().debug_view()
    }
}

/// Appends the list of `rows` to `out`.
fn push_rows(out: &mut String, rows: &Vec<BitArray>)
    ensures
        final(out)@ == old(out)@ + rows_text(rows@),
{
    let ghost head = out@;
    out.append("[");
    let count = rows.len();
    let mut k: usize = 0;
    while k < count
        invariant
            k <= count,
            count == rows@.len(),
            out@ == head + "["@ + joined_rows(rows@.take(k as int)),
        decreases count - k,
    {
        proof {
            assert(rows@.take(k + 1).drop_last() =~= rows@.take(k as int));
        }
        if k > 0 {
            out.append(", ");
        }
        let row = rows[k].debug_string();
        out.append(row.as_str());
        proof {
            assert(out@ =~= head + "["@ + joined_rows(rows@.take(k + 1)));
        }
        k = k + 1;
    }
    proof {
        assert(rows@.take(count as int) =~= rows@);
    }
    out.append("]");
    proof {
        assert(out@ =~= head + rows_text(rows@));
    }
}

impl<Rng> GottesmanKnillSimulator<Rng> {
    /// The invariant of the representation: `n` rows of `n` bits in each
    /// matrix, `n` signs and `n` result slots, with `n` a 32-bit number.
    pub closed spec fn wf(&self) -> bool {
        let n = self.xs@.len();
        &&& n <= u32::MAX
        &&& self.zs@.len() == n
        &&& self.sgns.wf()
        &&& self.sgns@.len() == n
        &&& self.measured.wf()
        &&& self.measured@.len() == n
        &&& forall|k: int| 0 <= k < n ==> (#[trigger] self.xs@[k]).wf() && self.xs@[k]@.len() == n
        &&& forall|k: int| 0 <= k < n ==> (#[trigger] self.zs@[k]).wf() && self.zs@[k]@.len() == n
    }

    /// The generators that the simulator holds.
    pub closed spec fn tableau(&self) -> Tableau {
        Seq::new(
            self.xs@.len(),
            |k: int| PauliRow { x: self.xs@[k]@, z: self.zs@[k]@, sign: self.sgns@[k] },
        )
    }

    /// The measurement results recorded so far, by slot.
    pub closed spec fn slots(&self) -> Seq<bool> {
        self.measured@
    }

    /// The tableau together with the recorded results.
    pub open spec fn register(&self) -> Register {
        Register { tableau: self.tableau(), slots: self.slots() }
    }

    /// The source of random words.
    pub closed spec fn source(&self) -> Rng {
        self.rng
    }

    /// A well-formed simulator holds a square tableau and one result slot
    /// per qubit.
    pub proof fn lemma_shape(&self)
        requires
            self.wf(),
        ensures
            square(self.tableau()),
            self.slots().len() == self.tableau().len(),
            self.tableau().len() <= u32::MAX,
    {
    }

    /// The rows of `X` factors as they are stored.
    pub closed spec fn x_rows(&self) -> Seq<BitArray> {
        self.xs@
    }

    /// The rows of `Z` factors as they are stored.
    pub closed spec fn z_rows(&self) -> Seq<BitArray> {
        self.zs@
    }

    /// The signs as they are stored.
    pub closed spec fn sign_row(&self) -> BitArray {
        self.sgns
    }

    /// The recorded results as they are stored.
    pub closed spec fn slot_row(&self) -> BitArray {
        self.measured
    }

    /// What is stored holds the tableau and the recorded results.
    pub proof fn lemma_rows(&self)
        requires
            self.wf(),
        ensures
            self.x_rows().len() == self.tableau().len(),
            self.z_rows().len() == self.tableau().len(),
            forall|k: int|
                0 <= k < self.tableau().len() ==> {
                    &&& (#[trigger] self.x_rows()[k]).wf()
                    &&& self.x_rows()[k]@ == self.tableau()[k].x
                },
            forall|k: int|
                0 <= k < self.tableau().len() ==> {
                    &&& (#[trigger] self.z_rows()[k]).wf()
                    &&& self.z_rows()[k]@ == self.tableau()[k].z
                },
            self.sign_row().wf(),
            forall|k: int| 0 <= k < self.tableau().len() ==> self.sign_row()@[k] == (
            #[trigger] self.tableau()[k]).sign,
            self.slot_row().wf(),
            self.slot_row()@ == self.slots(),
    {
    }

    /// The text of [`Self::dump`]: one line each for the `X` rows, the `Z`
    /// rows, the signs and the recorded results.
    pub open spec fn dump_text(&self) -> Seq<char> {
        "xs:   "@ + rows_text(self.x_rows()) + "\nzs:   "@ + rows_text(self.z_rows()) + "\nsgns: "@
            + self.sign_row().debug_view() + "\nmeasured: "@ + self.slot_row().debug_view() + "\n"@
    }

    /// Everything the simulator holds but its source of random words, shown
    /// for debugging.
    pub fn dump(&self) -> (text: String)
        ensures
            text@ == self.dump_text(),
    {
        let mut text = String::from_str("xs:   ");
        push_rows(&mut text, &self.xs);
        text.append("\nzs:   ");
        push_rows(&mut text, &self.zs);
        text.append("\nsgns: ");
        let signs = self.sgns.debug_string();
        text.append(signs.as_str());
        text.append("\nmeasured: ");
        let slots = self.measured.debug_string();
        text.append(slots.as_str());
        text.append("\n");
        proof {
            assert(text@ =~= self.dump_text());
        }
        text
    }

    /// A simulator of `n` qubits, all zero, that draws its random bits from
    /// `rng`.
    pub fn from_rng(n: u32, rng: Rng) -> (sim: Self)
        ensures
            sim.wf(),
            sim.tableau() == zero_state(n as nat),
            sim.slots() == clear_bits(n as nat),
            sim.source() == rng,
    {
        let size = n as usize;
        let mut xs: Vec<BitArray> = Vec::new();
        let mut zs: Vec<BitArray> = Vec::new();
        let mut k: usize = 0;
        while k < size
            invariant
                k <= size,
                xs@.len() == k,
                zs@.len() == k,
                forall|j: int| 0 <= j < k ==> (#[trigger] xs@[j]).wf() && xs@[j]@ == clear_bits(size as nat),
                forall|j: int| 0 <= j < k ==> (#[trigger] zs@[j]).wf() && zs@[j]@ == unit_bits(size as nat, j),
            decreases size - k,
        {
            xs.push(BitArray::zeros(size));
            let mut arr = BitArray::zeros(size);
            arr.negate(k);
            proof {
                assert(arr@ =~= unit_bits(size as nat, k as int));
            }
            zs.push(arr);
            k = k + 1;
        }
        let sgns = BitArray::zeros(size);
        let measured = BitArray::zeros(size);
        let sim = Self { xs, zs, sgns, measured, rng };
        proof {
            assert(sim.tableau() =~= zero_state(n as nat));
        }
        sim
    }

    /// The number of qubits.
    pub fn n_qubits(&self) -> (n: u32)
        requires
            self.wf(),
        ensures
            n == self.tableau().len(),
    {
        self.xs.len() as u32
    }

    /// Whether row `row` has an `X` factor on qubit `col`.
    pub fn x_bit(&self, row: u32, col: u32) -> (bit: bool)
        requires
            self.wf(),
            row < self.tableau().len(),
            col < self.tableau().len(),
        ensures
            bit == self.tableau()[row as int].x[col as int],
    {
        self.xs[row as usize].get_bool(col as usize)
    }

    /// Whether row `row` has a `Z` factor on qubit `col`.
    pub fn z_bit(&self, row: u32, col: u32) -> (bit: bool)
        requires
            self.wf(),
            row < self.tableau().len(),
            col < self.tableau().len(),
        ensures
            bit == self.tableau()[row as int].z[col as int],
    {
        self.zs[row as usize].get_bool(col as usize)
    }

    /// The sign of row `row`.
    pub fn sign_bit(&self, row: u32) -> (bit: bool)
        requires
            self.wf(),
            row < self.tableau().len(),
        ensures
            bit == self.tableau()[row as int].sign,
    {
        self.sgns.get_bool(row as usize)
    }

    /// `X` on qubit `q`.
    pub fn x(&mut self, q: u32)
        requires
            old(self).wf(),
            q < old(self).tableau().len(),
        ensures
            final(self).wf(),
            final(self).tableau() == gate_x(old(self).tableau(), q as int),
            final(self).slots() == old(self).slots(),
            final(self).source() == old(self).source(),
    {
        let n = self.xs.len();
        let mut k: usize = 0;
        while k < n
            invariant
                k <= n,
                q < n,
                n == old(self).xs@.len(),
                old(self).wf(),
                self.wf(),
                self.xs@ == old(self).xs@,
                self.zs@ == old(self).zs@,
                self.measured == old(self).measured,
                self.rng == old(self).rng,
                forall|j: int| 0 <= j < k ==> self.sgns@[j] == (old(self).sgns@[j] != old(self).zs@[j]@[q as int]),
                forall|j: int| k <= j < n ==> self.sgns@[j] == old(self).sgns@[j],
            decreases n - k,
        {
            if self.zs[k].get_bool(q as usize) {
                self.sgns.negate(k);
            }
            k = k + 1;
        }
        proof {
            assert(final(self).tableau() =~= gate_x(old(self).tableau(), q as int));
        }
    }

    /// `H` on qubit `q`.
    pub fn h(&mut self, q: u32)
        requires
            old(self).wf(),
            q < old(self).tableau().len(),
        ensures
            final(self).wf(),
            final(self).tableau() == gate_h(old(self).tableau(), q as int),
            final(self).slots() == old(self).slots(),
            final(self).source() == old(self).source(),
    {
        let n = self.xs.len();
        let at = q as usize;
        let mut k: usize = 0;
        while k < n
            invariant
                k <= n,
                at < n,
                at == q,
                n == old(self).xs@.len(),
                old(self).wf(),
                self.wf(),
                self.xs@.len() == n,
                self.measured == old(self).measured,
                self.rng == old(self).rng,
                forall|j: int| 0 <= j < k ==> #[trigger] self.tableau()[j] == h_on_row(old(self).tableau()[j], q as int),
                forall|j: int| k <= j < n ==> #[trigger] self.tableau()[j] == old(self).tableau()[j],
            decreases n - k,
        {
            let ghost before = *self;
            let x = self.xs[k].get_bool(at);
            let z = self.zs[k].get_bool(at);
            if x && z {
                self.sgns.negate(k);
            } else if x || z {
                self.xs[k].negate(at);
                self.zs[k].negate(at);
            }
            proof {
                let row = before.tableau()[k as int];
                assert(self.tableau()[k as int].x =~= h_on_row(row, q as int).x);
                assert(self.tableau()[k as int].z =~= h_on_row(row, q as int).z);
                assert(self.tableau()[k as int] == h_on_row(row, q as int));
                assert forall|j: int| 0 <= j < n && j != k implies #[trigger] self.tableau()[j]
                    == before.tableau()[j] by {}
            }
            k = k + 1;
        }
        proof {
            assert(final(self).tableau() =~= gate_h(old(self).tableau(), q as int));
        }
    }
    /// `Y` on qubit `q`.
    pub fn y(&mut self, q: u32)
        requires
            old(self).wf(),
            q < old(self).tableau().len(),
        ensures
            final(self).wf(),
            final(self).tableau() == gate_y(old(self).tableau(), q as int),
            final(self).slots() == old(self).slots(),
            final(self).source() == old(self).source(),
    {
        let n = self.xs.len();
        let mut k: usize = 0;
        while k < n
            invariant
                k <= n,
                q < n,
                n == old(self).xs@.len(),
                old(self).wf(),
                self.wf(),
                self.xs@ == old(self).xs@,
                self.zs@ == old(self).zs@,
                self.measured == old(self).measured,
                self.rng == old(self).rng,
                forall|j: int|
                    0 <= j < k ==> self.sgns@[j] == (old(self).sgns@[j] != (old(self).xs@[j]@[q as int] != old(self).zs@[j]@[q as int])),
                forall|j: int| k <= j < n ==> self.sgns@[j] == old(self).sgns@[j],
            decreases n - k,
        {
            let in_x = self.xs[k].get_masked(q as usize);
            let in_z = self.zs[k].get_masked(q as usize);
            assert(((in_x ^ in_z) != 0) == ((in_x != 0) != (in_z != 0))) by (bit_vector)
                requires
                    in_x == 0 || in_z == 0 || in_x == in_z,
            ;
            if (in_x ^ in_z) != 0 {
                self.sgns.negate(k);
            }
            k = k + 1;
        }
        proof {
            assert(final(self).tableau() =~= gate_y(old(self).tableau(), q as int));
        }
    }

    /// `Z` on qubit `q`.
    pub fn z(&mut self, q: u32)
        requires
            old(self).wf(),
            q < old(self).tableau().len(),
        ensures
            final(self).wf(),
            final(self).tableau() == gate_z(old(self).tableau(), q as int),
            final(self).slots() == old(self).slots(),
            final(self).source() == old(self).source(),
    {
        let n = self.xs.len();
        let mut k: usize = 0;
        while k < n
            invariant
                k <= n,
                q < n,
                n == old(self).xs@.len(),
                old(self).wf(),
                self.wf(),
                self.xs@ == old(self).xs@,
                self.zs@ == old(self).zs@,
                self.measured == old(self).measured,
                self.rng == old(self).rng,
                forall|j: int|
                    0 <= j < k ==> self.sgns@[j] == (old(self).sgns@[j] != old(self).xs@[j]@[q as int]),
                forall|j: int| k <= j < n ==> self.sgns@[j] == old(self).sgns@[j],
            decreases n - k,
        {
            if self.xs[k].get_bool(q as usize) {
                self.sgns.negate(k);
            }
            k = k + 1;
        }
        proof {
            assert(final(self).tableau() =~= gate_z(old(self).tableau(), q as int));
        }
    }

    /// `S` on qubit `q`.
    pub fn s(&mut self, q: u32)
        requires
            old(self).wf(),
            q < old(self).tableau().len(),
        ensures
            final(self).wf(),
            final(self).tableau() == gate_s(old(self).tableau(), q as int),
            final(self).slots() == old(self).slots(),
            final(self).source() == old(self).source(),
    {
        let n = self.xs.len();
        let at = q as usize;
        let mut k: usize = 0;
        while k < n
            invariant
                k <= n,
                at < n,
                at == q,
                n == old(self).xs@.len(),
                old(self).wf(),
                self.wf(),
                self.xs@.len() == n,
                self.measured == old(self).measured,
                self.rng == old(self).rng,
                forall|j: int|
                    0 <= j < k ==> #[trigger] self.tableau()[j] == s_on_row(
                        old(self).tableau()[j],
                        q as int,
                    ),
                forall|j: int| k <= j < n ==> #[trigger] self.tableau()[j] == old(self).tableau()[j],
            decreases n - k,
        {
            let ghost before = *self;
            if self.xs[k].get_bool(at) {
                if self.zs[k].get_bool(at) {
                    self.sgns.negate(k);
                }
                self.zs[k].negate(at);
            }
            proof {
                let row = before.tableau()[k as int];
                assert(self.tableau()[k as int].x =~= s_on_row(row, q as int).x);
                assert(self.tableau()[k as int].z =~= s_on_row(row, q as int).z);
                assert(self.tableau()[k as int] == s_on_row(row, q as int));
                assert forall|j: int| 0 <= j < n && j != k implies #[trigger] self.tableau()[j]
                    == before.tableau()[j] by {}
            }
            k = k + 1;
        }
        proof {
            assert(final(self).tableau() =~= gate_s(old(self).tableau(), q as int));
        }
    }

    /// The inverse of `S` on qubit `q`.
    pub fn sdg(&mut self, q: u32)
        requires
            old(self).wf(),
            q < old(self).tableau().len(),
        ensures
            final(self).wf(),
            final(self).tableau() == gate_sdg(old(self).tableau(), q as int),
            final(self).slots() == old(self).slots(),
            final(self).source() == old(self).source(),
    {
        let n = self.xs.len();
        let at = q as usize;
        let mut k: usize = 0;
        while k < n
            invariant
                k <= n,
                at < n,
                at == q,
                n == old(self).xs@.len(),
                old(self).wf(),
                self.wf(),
                self.xs@.len() == n,
                self.measured == old(self).measured,
                self.rng == old(self).rng,
                forall|j: int|
                    0 <= j < k ==> #[trigger] self.tableau()[j] == sdg_on_row(
                        old(self).tableau()[j],
                        q as int,
                    ),
                forall|j: int| k <= j < n ==> #[trigger] self.tableau()[j] == old(self).tableau()[j],
            decreases n - k,
        {
            let ghost before = *self;
            if self.xs[k].get_bool(at) {
                if !self.zs[k].get_bool(at) {
                    self.sgns.negate(k);
                }
                self.zs[k].negate(at);
            }
            proof {
                let row = before.tableau()[k as int];
                assert(self.tableau()[k as int].x =~= sdg_on_row(row, q as int).x);
                assert(self.tableau()[k as int].z =~= sdg_on_row(row, q as int).z);
                assert(self.tableau()[k as int] == sdg_on_row(row, q as int));
                assert forall|j: int| 0 <= j < n && j != k implies #[trigger] self.tableau()[j]
                    == before.tableau()[j] by {}
            }
            k = k + 1;
        }
        proof {
            assert(final(self).tableau() =~= gate_sdg(old(self).tableau(), q as int));
        }
    }

    /// `CX` with control `c` and target `t`.
    pub fn cx(&mut self, c: u32, t: u32)
        requires
            old(self).wf(),
            c < old(self).tableau().len(),
            t < old(self).tableau().len(),
        ensures
            final(self).wf(),
            final(self).tableau() == gate_cx(old(self).tableau(), c as int, t as int),
            final(self).slots() == old(self).slots(),
            final(self).source() == old(self).source(),
    {
        let n = self.xs.len();
        let ctl = c as usize;
        let tgt = t as usize;
        let mut k: usize = 0;
        while k < n
            invariant
                k <= n,
                ctl < n,
                tgt < n,
                ctl == c,
                tgt == t,
                n == old(self).xs@.len(),
                old(self).wf(),
                self.wf(),
                self.xs@.len() == n,
                self.measured == old(self).measured,
                self.rng == old(self).rng,
                forall|j: int|
                    0 <= j < k ==> #[trigger] self.tableau()[j] == cx_on_row(
                        old(self).tableau()[j],
                        c as int,
                        t as int,
                    ),
                forall|j: int| k <= j < n ==> #[trigger] self.tableau()[j] == old(self).tableau()[j],
            decreases n - k,
        {
            let ghost before = *self;
            if self.xs[k].get_bool(ctl) {
                self.xs[k].negate(tgt);
                if self.zs[k].get_bool(ctl) {
                    self.sgns.negate(k);
                }
            }
            if self.zs[k].get_bool(tgt) {
                self.zs[k].negate(ctl);
            }
            proof {
                let row = before.tableau()[k as int];
                assert(self.tableau()[k as int].x =~= cx_on_row(row, c as int, t as int).x);
                assert(self.tableau()[k as int].z =~= cx_on_row(row, c as int, t as int).z);
                assert(self.tableau()[k as int] == cx_on_row(row, c as int, t as int));
                assert forall|j: int| 0 <= j < n && j != k implies #[trigger] self.tableau()[j]
                    == before.tableau()[j] by {}
            }
            k = k + 1;
        }
        proof {
            assert(final(self).tableau() =~= gate_cx(old(self).tableau(), c as int, t as int));
        }
    }

    /// Puts every qubit back to zero and clears the result slots.
    pub fn initialize(&mut self)
        requires
            old(self).wf(),
        ensures
            final(self).wf(),
            final(self).tableau() == zero_state(old(self).tableau().len()),
            final(self).slots() == clear_bits(old(self).slots().len()),
            final(self).source() == old(self).source(),
    {
        let n = self.xs.len();
        let mut k: usize = 0;
        while k < n
            invariant
                k <= n,
                n == old(self).xs@.len(),
                self.wf(),
                self.xs@.len() == n,
                self.sgns == old(self).sgns,
                self.measured == old(self).measured,
                self.rng == old(self).rng,
                forall|j: int| 0 <= j < k ==> (#[trigger] self.xs@[j])@ == clear_bits(n as nat),
                forall|j: int| 0 <= j < k ==> (#[trigger] self.zs@[j])@ == unit_bits(n as nat, j),
            decreases n - k,
        {
            self.xs[k].reset();
            self.zs[k].reset();
            self.zs[k].negate(k);
            proof {
                assert(self.zs@[k as int]@ =~= unit_bits(n as nat, k as int));
            }
            k = k + 1;
        }
        self.sgns.reset();
        self.measured.reset();
        proof {
            assert(final(self).tableau() =~= zero_state(n as nat));
        }
    }
    /// Multiplies row `src` into row `dest`.
    pub fn mult_to(&mut self, dest: usize, src: usize)
        requires
            old(self).wf(),
            dest < old(self).tableau().len(),
            src < old(self).tableau().len(),
            dest != src,
        ensures
            final(self).wf(),
            final(self).tableau() == old(self).tableau().update(
                dest as int,
                row_product(old(self).tableau()[dest as int], old(self).tableau()[src as int]),
            ),
            final(self).slots() == old(self).slots(),
            final(self).source() == old(self).source(),
    {
        let from = self.xs[src].clone();
        self.xs[dest].xor_all(&from);
        let from = self.zs[src].clone();
        self.zs[dest].xor_all(&from);
        if self.sgns.get_bool(src) {
            self.sgns.negate(dest);
        }
        proof {
            assert(final(self).tableau() =~= old(self).tableau().update(
                dest as int,
                row_product(old(self).tableau()[dest as int], old(self).tableau()[src as int]),
            ));
        }
    }

    /// The first row that anticommutes with `Z` on qubit `q`, or the number
    /// of rows if none does.
    pub fn first_anticommuting(&self, q: u32) -> (p: usize)
        requires
            self.wf(),
            q < self.tableau().len(),
        ensures
            p == first_anticommuting(self.tableau(), q as int, 0),
            p <= self.tableau().len(),
    {
        let n = self.xs.len();
        let mut k: usize = 0;
        while k < n
            invariant_except_break
                k <= n,
                forall|j: int| 0 <= j < k ==> !(#[trigger] self.tableau()[j]).x[q as int],
            invariant
                n == self.xs@.len(),
                q < n,
                self.wf(),
            ensures
                k <= n,
                forall|j: int| 0 <= j < k ==> !(#[trigger] self.tableau()[j]).x[q as int],
                k < n ==> self.tableau()[k as int].x[q as int],
            decreases n - k,
        {
            if self.xs[k].get_bool(q as usize) {
                break;
            }
            k = k + 1;
        }
        proof {
            lemma_first_anticommuting_found(self.tableau(), q as int, 0);
        }
        k
    }

    /// Whether row `row` has a factor on qubit `col`: an `X` factor if
    /// `in_x`, a `Z` factor if not.
    fn row_has_factor(&self, row: usize, in_x: bool, col: usize) -> (has: bool)
        requires
            self.wf(),
            row < self.tableau().len(),
            col < self.tableau().len(),
        ensures
            has == has_factor(self.tableau()[row as int], in_x, col as int),
    {
        if in_x {
            self.xs[row].get_bool(col)
        } else {
            self.zs[row].get_bool(col)
        }
    }

    /// One step of elimination on qubit `col` among the rows in `indices`.
    fn clear_column(&mut self, indices: &mut Vec<usize>, in_x: bool, col: usize)
        requires
            old(self).wf(),
            col < old(self).tableau().len(),
            live_rows(live_of(old(indices)@), old(self).tableau().len() as int),
        ensures
            final(self).wf(),
            (Elimination { tableau: final(self).tableau(), live: live_of(final(indices)@) })
                == clear_column(
                (Elimination { tableau: old(self).tableau(), live: live_of(old(indices)@) }),
                in_x,
                col as int,
            ),
            final(self).tableau().len() == old(self).tableau().len(),
            live_rows(live_of(final(indices)@), final(self).tableau().len() as int),
            final(self).slots() == old(self).slots(),
            final(self).source() == old(self).source(),
    {
        let ghost t = self.tableau();
        let ghost live = live_of(indices@);
        let n = self.xs.len();
        let count = indices.len();
        let mut at: usize = 0;
        while at < count
            invariant_except_break
                at <= count,
                forall|i: int| 0 <= i < at ==> !has_factor(t[#[trigger] live[i]], in_x, col as int),
            invariant
                self.wf(),
                t == self.tableau(),
                live == live_of(indices@),
                count == indices@.len(),
                n == t.len(),
                col < n,
                live_rows(live, n as int),
            ensures
                at <= count,
                forall|i: int| 0 <= i < at ==> !has_factor(t[#[trigger] live[i]], in_x, col as int),
                at < count ==> has_factor(t[live[at as int]], in_x, col as int),
            decreases count - at,
        {
            proof {
                assert(live[at as int] == indices@[at as int]);
            }
            if self.row_has_factor(indices[at], in_x, col) {
                break;
            }
            at = at + 1;
        }
        proof {
            lemma_first_live_found(t, live, in_x, col as int, 0);
        }
        if at < count {
            let pivot = indices[at];
            proof {
                assert(live[at as int] == pivot);
                assert(self.tableau() =~= pivot_applied(t, live, in_x, col as int, pivot as int, at + 1))
                    by {
                    assert forall|k: int|
                        0 <= k < n && k != pivot && live.take(at + 1).contains(k) implies !has_factor(
                        t[k],
                        in_x,
                        col as int,
                    ) by {
                        let head = live.take(at + 1);
                        let i = choose|i: int| 0 <= i < head.len() && head[i] == k;
                        assert(live[i] == k);
                    }
                }
            }
            let mut j: usize = at + 1;
            while j < count
                invariant
                    at < j <= count,
                    self.wf(),
                    live == live_of(indices@),
                    count == indices@.len(),
                    n == t.len(),
                    col < n,
                    pivot == live[at as int],
                    live_rows(live, n as int),
                    self.tableau() == pivot_applied(t, live, in_x, col as int, pivot as int, j as int),
                    self.slots() == old(self).slots(),
                    self.source() == old(self).source(),
                decreases count - j,
            {
                let row = indices[j];
                let ghost before = self.tableau();
                proof {
                    assert(live[j as int] == row);
                    assert(!live.take(j as int).contains(row as int)) by {
                        if live.take(j as int).contains(row as int) {
                            let head = live.take(j as int);
                            let i = choose|i: int| 0 <= i < head.len() && head[i] == row;
                            assert(live[i] == live[j as int]);
                        }
                    }
                    assert(before[row as int] == t[row as int]);
                    assert(before[pivot as int] == t[pivot as int]);
                }
                if self.row_has_factor(row, in_x, col) {
                    self.mult_to(row, pivot);
                }
                proof {
                    assert(live.take(j + 1) =~= live.take(j as int).push(row as int));
                    assert forall|k: int| 0 <= k < n implies (live.take(j + 1).contains(k) <==> (
                    live.take(j as int).contains(k) || k == row)) by {
                        if live.take(j as int).contains(k) {
                            let head = live.take(j as int);
                            let i = choose|i: int| 0 <= i < head.len() && head[i] == k;
                            assert(live.take(j + 1)[i] == k);
                        }
                        if k == row {
                            assert(live.take(j + 1)[j as int] == k);
                        }
                    }
                    assert(self.tableau() =~= pivot_applied(
                        t,
                        live,
                        in_x,
                        col as int,
                        pivot as int,
                        j + 1,
                    ));
                }
                j = j + 1;
            }
            indices.swap_remove(at);
            proof {
                assert(live.take(count as int) =~= live);
                let after = live.update(at as int, live.last()).drop_last();
                assert(live_of(indices@) =~= after);
                assert(live_rows(after, n as int));
                assert(self.tableau() =~= clear_column(
                    (Elimination { tableau: t, live }),
                    in_x,
                    col as int,
                ).tableau);
            }
        }
    }

    /// The two rounds of elimination for a forced measurement of qubit `q`.
    /// The result lists the rows that are left.
    pub fn isolate(&mut self, q: u32) -> (indices: Vec<usize>)
        requires
            old(self).wf(),
            q < old(self).tableau().len(),
        ensures
            final(self).wf(),
            (Elimination { tableau: final(self).tableau(), live: live_of(indices@) }) == isolate(
                old(self).tableau(),
                q as int,
            ),
            final(self).tableau().len() == old(self).tableau().len(),
            live_rows(live_of(indices@), final(self).tableau().len() as int),
            final(self).slots() == old(self).slots(),
            final(self).source() == old(self).source(),
    {
        let n = self.xs.len();
        let mut indices: Vec<usize> = Vec::new();
        let mut k: usize = 0;
        while k < n
            invariant
                k <= n,
                indices@.len() == k,
                forall|j: int| 0 <= j < k ==> indices@[j] == j,
            decreases n - k,
        {
            indices.push(k);
            k = k + 1;
        }
        let ghost start = Elimination { tableau: self.tableau(), live: all_rows(n as nat) };
        proof {
            assert(live_of(indices@) =~= all_rows(n as nat));
        }
        let mut col: usize = 0;
        while col < n
            invariant
                col <= n,
                self.wf(),
                n == self.tableau().len(),
                live_rows(live_of(indices@), n as int),
                (Elimination { tableau: self.tableau(), live: live_of(indices@) }) == clear_columns(
                    start,
                    true,
                    -1,
                    col as int,
                ),
                self.slots() == old(self).slots(),
                self.source() == old(self).source(),
            decreases n - col,
        {
            self.clear_column(&mut indices, true, col);
            col = col + 1;
        }
        let ghost middle = Elimination { tableau: self.tableau(), live: live_of(indices@) };
        col = 0;
        while col < n
            invariant
                col <= n,
                q < n,
                self.wf(),
                n == self.tableau().len(),
                live_rows(live_of(indices@), n as int),
                (Elimination { tableau: self.tableau(), live: live_of(indices@) }) == clear_columns(
                    middle,
                    false,
                    q as int,
                    col as int,
                ),
                self.slots() == old(self).slots(),
                self.source() == old(self).source(),
            decreases n - col,
        {
            if col != q as usize {
                self.clear_column(&mut indices, false, col);
            }
            col = col + 1;
        }
        indices
    }

    /// The forced branch of a measurement of qubit `q`: eliminates until one
    /// generator is left and returns its sign.
    pub fn measure_forced(&mut self, q: u32) -> (bit: bool)
        requires
            old(self).wf(),
            q < old(self).tableau().len(),
            isolate(old(self).tableau(), q as int).live.len() == 1,
        ensures
            final(self).wf(),
            final(self).tableau() == isolate(old(self).tableau(), q as int).tableau,
            bit == forced_outcome(old(self).tableau(), q as int),
            final(self).slots() == old(self).slots(),
            final(self).source() == old(self).source(),
    {
        let indices = self.isolate(q);
        proof {
            assert(live_of(indices@)[0] == indices@[0]);
        }
        self.sgns.get_bool(indices[0])
    }

    /// The random branch of a measurement of qubit `q`, given the word that
    /// was drawn: multiplies row `p` into every other row that anticommutes,
    /// then replaces it by `Z` on `q` with the word's lowest bit as its sign.
    pub fn collapse(&mut self, q: u32, p: usize, word: u32) -> (bit: bool)
        requires
            old(self).wf(),
            q < old(self).tableau().len(),
            p < old(self).tableau().len(),
        ensures
            final(self).wf(),
            bit == (word & 1 != 0),
            final(self).tableau() == collapse(old(self).tableau(), q as int, p as int, bit),
            final(self).slots() == old(self).slots(),
            final(self).source() == old(self).source(),
    {
        let ghost t = self.tableau();
        let n = self.xs.len();
        let mut k: usize = 0;
        while k < n
            invariant
                k <= n,
                q < n,
                p < n,
                n == t.len(),
                self.wf(),
                self.tableau().len() == n,
                forall|j: int|
                    0 <= j < k && j != p ==> #[trigger] self.tableau()[j] == (if t[j].x[q as int] {
                        row_product(t[j], t[p as int])
                    } else {
                        t[j]
                    }),
                forall|j: int| (k <= j < n || j == p) ==> #[trigger] self.tableau()[j] == t[j],
                self.slots() == old(self).slots(),
                self.source() == old(self).source(),
            decreases n - k,
        {
            if k != p && self.xs[k].get_bool(q as usize) {
                self.mult_to(k, p);
            }
            k = k + 1;
        }
        let is_one = (word & 1) != 0;
        let ghost reduced = self.tableau();
        self.xs[p].reset();
        self.zs[p].reset();
        self.zs[p].negate(q as usize);
        self.sgns.set_bool(p, is_one);
        proof {
            assert(self.tableau()[p as int].x =~= z_row(n as nat, q as int, is_one).x);
            assert(self.tableau()[p as int].z =~= z_row(n as nat, q as int, is_one).z);
            assert(self.tableau()[p as int] == z_row(n as nat, q as int, is_one));
            assert forall|j: int| 0 <= j < n implies self.tableau()[j] == collapse(
                t,
                q as int,
                p as int,
                is_one,
            )[j] by {
                if j != p {
                    assert(self.tableau()[j] == reduced[j]);
                }
            }
            assert(final(self).tableau() =~= collapse(t, q as int, p as int, is_one));
        }
        is_one
    }
}

impl<Rng: RandomSource> GottesmanKnillSimulator<Rng> {
    /// Measures qubit `q` in the computational basis and records the outcome
    /// in slot `ch`, if there is an outcome, and says whether there was. A
    /// forced outcome leaves the source of random words alone; a random one
    /// draws one word and takes its lowest bit. Without an outcome the
    /// elimination has run, and nothing is recorded.
    pub fn try_measure(&mut self, q: u32, ch: u32) -> (done: bool)
        requires
            old(self).wf(),
            q < old(self).tableau().len(),
            ch < old(self).tableau().len(),
        ensures
            final(self).wf(),
            final(self).tableau().len() == old(self).tableau().len(),
            done == outcome_defined(old(self).tableau(), q as int),
            forced(old(self).tableau(), q as int) ==> final(self).source() == old(self).source(),
            done && forced(old(self).tableau(), q as int) ==> final(self).register()
                == measure_step(old(self).register(), q as int, ch as int, 0),
            !done ==> final(self).register() == (Register {
                tableau: isolate(old(self).tableau(), q as int).tableau,
                slots: old(self).slots(),
            }),
            !forced(old(self).tableau(), q as int) ==> exists|word: u32|
                {
                    &&& #[trigger] old(self).source().emits(word, final(self).source())
                    &&& final(self).register() == measure_step(
                        old(self).register(),
                        q as int,
                        ch as int,
                        word,
                    )
                },
    {
        let n = self.xs.len();
        let p = self.first_anticommuting(q);
        if p >= n {
            let indices = self.isolate(q);
            if indices.len() != 1 {
                return false;
            }
            proof {
                assert(live_of(indices@)[0] == indices@[0]);
            }
            let bit = self.sgns.get_bool(indices[0]);
            self.measured.set_bool(ch as usize, bit);
        } else {
            let word = self.rng.next_u32();
            let bit = self.collapse(q, p, word);
            self.measured.set_bool(ch as usize, bit);
            proof {
                assert(old(self).source().emits(word, self.source()));
                assert(self.register() == measure_step(
                    old(self).register(),
                    q as int,
                    ch as int,
                    word,
                ));
            }
        }
        true
    }

    /// Measures qubit `q` in the computational basis and records the outcome
    /// in slot `ch`. A forced outcome leaves the source of random words
    /// alone; a random one draws one word and takes its lowest bit.
    pub fn measure(&mut self, q: u32, ch: u32)
        requires
            old(self).wf(),
            q < old(self).tableau().len(),
            ch < old(self).tableau().len(),
            outcome_defined(old(self).tableau(), q as int),
        ensures
            final(self).wf(),
            final(self).tableau().len() == old(self).tableau().len(),
            forced(old(self).tableau(), q as int) ==> {
                &&& final(self).source() == old(self).source()
                &&& final(self).register() == measure_step(
                    old(self).register(),
                    q as int,
                    ch as int,
                    0,
                )
            },
            !forced(old(self).tableau(), q as int) ==> exists|word: u32|
                {
                    &&& #[trigger] old(self).source().emits(word, final(self).source())
                    &&& final(self).register() == measure_step(
                        old(self).register(),
                        q as int,
                        ch as int,
                        word,
                    )
                },
    {
        let _ = self.try_measure(q, ch);
    }

    /// Whether this simulator understands `op`.
    pub fn supports(&self, op: &Operation) -> (yes: bool)
        requires
            self.wf(),
        ensures
            yes == supported(*op, self.tableau().len() as int),
    {
        let n = self.xs.len();
        match op {
            Operation::Empty(id) => *id == opid::INIT,
            Operation::Q(id, q) => {
                (*id == opid::X || *id == opid::Y || *id == opid::Z || *id == opid::H || *id
                    == opid::S || *id == opid::SDG) && (*q as usize) < n
            },
            Operation::QQ(id, c, t) => *id == opid::CX && (*c as usize) < n && (*t as usize) < n,
            Operation::QS(id, q, s) => *id == opid::MEAS && (*q as usize) < n && (*s as usize) < n,
        }
    }

    /// Applies one operation, if it is defined, and says whether it was.
    pub fn try_apply(&mut self, op: &Operation) -> (done: bool)
        requires
            old(self).wf(),
        ensures
            final(self).wf(),
            final(self).tableau().len() == old(self).tableau().len(),
            done == defined(old(self).register(), *op),
            !done ==> final(self).register() == stalled(old(self).register(), *op),
            !draws(old(self).tableau(), *op) || !supported(
                *op,
                old(self).tableau().len() as int,
            ) ==> final(self).source() == old(self).source(),
            done && !draws(old(self).tableau(), *op) ==> final(self).register() == apply(
                old(self).register(),
                *op,
                0,
            ),
            done && draws(old(self).tableau(), *op) ==> exists|word: u32|
                {
                    &&& #[trigger] old(self).source().emits(word, final(self).source())
                    &&& final(self).register() == apply(old(self).register(), *op, word)
                },
    {
        proof {
            self.lemma_shape();
        }
        if !self.supports(op) {
            return false;
        }
        match op {
            Operation::Empty(_) => {
                self.initialize();
                true
            },
            Operation::Q(id, q) => {
                if *id == opid::X {
                    self.x(*q)
                } else if *id == opid::Y {
                    self.y(*q)
                } else if *id == opid::Z {
                    self.z(*q)
                } else if *id == opid::H {
                    self.h(*q)
                } else if *id == opid::S {
                    self.s(*q)
                } else {
                    self.sdg(*q)
                }
                true
            },
            Operation::QQ(_, c, t) => {
                self.cx(*c, *t);
                true
            },
            Operation::QS(_, q, s) => self.try_measure(*q, *s),
        }
    }

    /// Applies one operation.
    pub fn apply(&mut self, op: &Operation)
        requires
            old(self).wf(),
            defined(old(self).register(), *op),
        ensures
            final(self).wf(),
            final(self).tableau().len() == old(self).tableau().len(),
            !draws(old(self).tableau(), *op) ==> {
                &&& final(self).source() == old(self).source()
                &&& final(self).register() == apply(old(self).register(), *op, 0)
            },
            draws(old(self).tableau(), *op) ==> exists|word: u32|
                {
                    &&& #[trigger] old(self).source().emits(word, final(self).source())
                    &&& final(self).register() == apply(old(self).register(), *op, word)
                },
    {
        let _ = self.try_apply(op);
    }

    /// Applies the operations of `ops` in order as far as they are defined,
    /// and says how many it applied. Where it stops short, the operation it
    /// stopped at was not defined.
    pub fn try_send(&mut self, ops: &[Operation]) -> (done: usize)
        requires
            old(self).wf(),
        ensures
            final(self).wf(),
            final(self).tableau().len() == old(self).tableau().len(),
            done <= ops@.len(),
            exists|words: Seq<u32>|
                {
                    let reached = run(old(self).register(), ops@.take(done as int), words);
                    &&& #[trigger] emits_all(old(self).source(), words, final(self).source())
                    &&& run_defined(old(self).register(), ops@.take(done as int), words)
                    &&& reached.drawn == words.len()
                    &&& if done == ops@.len() {
                        final(self).register() == reached.register
                    } else {
                        &&& !defined(reached.register, ops@[done as int])
                        &&& final(self).register() == stalled(reached.register, ops@[done as int])
                    }
                },
    {
        let ghost start = self.register();
        let ghost mut words: Seq<u32> = Seq::empty();
        let count = ops.len();
        let mut i: usize = 0;
        while i < count
            invariant
                i <= count,
                count == ops@.len(),
                self.wf(),
                self.tableau().len() == old(self).tableau().len(),
                start == old(self).register(),
                emits_all(old(self).source(), words, self.source()),
                run_defined(start, ops@.take(i as int), words),
                run(start, ops@.take(i as int), words) == (Progress {
                    register: self.register(),
                    drawn: words.len(),
                }),
            decreases count - i,
        {
            let ghost before = *self;
            let ghost done = ops@.take(i as int);
            proof {
                assert(ops@.take(i + 1).drop_last() =~= done);
                assert(ops@.take(i + 1).last() == ops@[i as int]);
            }
            if !self.try_apply(&ops[i]) {
                return i;
            }
            proof {
                let op = ops@[i as int];
                if draws(before.tableau(), op) {
                    let word = choose|word: u32|
                        {
                            &&& #[trigger] before.source().emits(word, self.source())
                            &&& self.register() == apply(before.register(), op, word)
                        };
                    let longer = words.push(word);
                    lemma_run_reads_drawn(start, done, words, longer);
                    lemma_emits_one_more(
                        old(self).source(),
                        words,
                        before.source(),
                        word,
                        self.source(),
                    );
                    words = longer;
                }
            }
            i = i + 1;
        }
        proof {
            assert(ops@.take(count as int) =~= ops@);
        }
        count
    }

    /// Applies the operations of `ops` in order.
    pub fn send(&mut self, ops: &[Operation])
        requires
            old(self).wf(),
            forall|words: Seq<u32>| run_defined(old(self).register(), ops@, words),
        ensures
            final(self).wf(),
            final(self).tableau().len() == old(self).tableau().len(),
            exists|words: Seq<u32>|
                {
                    &&& #[trigger] emits_all(old(self).source(), words, final(self).source())
                    &&& run(old(self).register(), ops@, words) == (Progress {
                        register: final(self).register(),
                        drawn: words.len(),
                    })
                },
    {
        let done = self.try_send(ops);
        proof {
            let words = choose|words: Seq<u32>|
                {
                    let reached = run(old(self).register(), ops@.take(done as int), words);
                    &&& #[trigger] emits_all(old(self).source(), words, self.source())
                    &&& run_defined(old(self).register(), ops@.take(done as int), words)
                    &&& reached.drawn == words.len()
                    &&& if done == ops@.len() {
                        self.register() == reached.register
                    } else {
                        &&& !defined(reached.register, ops@[done as int])
                        &&& self.register() == stalled(reached.register, ops@[done as int])
                    }
                };
            if done < ops@.len() {
                lemma_run_defined_prefix(old(self).register(), ops@, words, done + 1);
                assert(ops@.take(done + 1).drop_last() =~= ops@.take(done as int));
                assert(ops@.take(done + 1).last() == ops@[done as int]);
                assert(false);
            }
            assert(ops@.take(done as int) =~= ops@);
        }
    }

    /// Copies the recorded results into `buf`, which takes their length.
    pub fn receive(&mut self, buf: &mut BitArray)
        requires
            old(self).wf(),
        ensures
            *final(self) == *old(self),
            final(buf).wf(),
            final(buf)@ == old(self).slots(),
    {
        buf.copy_from(&self.measured);
    }

    /// Applies the operations of `ops` in order, then copies the recorded
    /// results into `buf`.
    pub fn send_receive(&mut self, ops: &[Operation], buf: &mut BitArray)
        requires
            old(self).wf(),
            forall|words: Seq<u32>| run_defined(old(self).register(), ops@, words),
        ensures
            final(self).wf(),
            final(buf).wf(),
            final(buf)@ == final(self).slots(),
            exists|words: Seq<u32>|
                {
                    &&& #[trigger] emits_all(old(self).source(), words, final(self).source())
                    &&& run(old(self).register(), ops@, words) == (Progress {
                        register: final(self).register(),
                        drawn: words.len(),
                    })
                },
    {
        self.send(ops);
        self.receive(buf);
    }

    /// A fresh buffer for the results: one clear bit per qubit.
    pub fn make_buffer(&self) -> (buf: BitArray)
        requires
            self.wf(),
        ensures
            buf.wf(),
            buf@ == clear_bits(self.tableau().len()),
    {
        BitArray::zeros(self.measured.len())
    }
}

impl GottesmanKnillSimulator<DefaultRng> {
    /// A simulator of `n` qubits, all zero, that draws its random bits from
    /// the default generator seeded with `seed`.
    pub fn from_seed(n: u32, seed: u64) -> (sim: Self)
        ensures
            sim.wf(),
            sim.tableau() == zero_state(n as nat),
            sim.slots() == clear_bits(n as nat),
    {
        Self::from_rng(n, xorshift_from_seed(seed))
    }
}

} // verus!
