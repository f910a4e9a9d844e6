//! The PLONKish width-four gate backend and the checks it offers on a built
//! circuit: its shape, its sparse public inputs and its gate identities.

use vstd::prelude::*;

use crate::composer::{Composer, ComposerBackend};
use crate::constraint::{Constraint, Selector};
use crate::gate::{constraint_gate, Gate, GateModel};
use crate::identities::{
    arithmetic_identity, evaluate, fixed_base_identities, identities, logic_identities,
    range_identities, variable_base_identities, IdentityElement, WireValues,
};
use crate::scalar::{fadd, fmul, fneg, fsub, lemma_scalar_canonical, modulus, Scalar};
use crate::witness::Witness;

verus! {

broadcast use {lemma_scalar_canonical, Constraint::lemma_sizes};

/// Public inputs of the PLONKish rows that carry one, keyed by row.
#[verifier::external_body]
pub struct PublicRows {
    rows: hashbrown::HashMap<usize, Scalar>,
}

/// The row-to-value map held by a [`PublicRows`].
pub uninterp spec fn public_rows(rows: PublicRows) -> Map<usize, Scalar>;

impl PublicRows {
    /// An empty map (`hashbrown::HashMap::new`).
    #[verifier::external_body]
    fn new() -> (r: PublicRows)
        ensures
            public_rows(r).dom() == Set::<usize>::empty(),
    {
        PublicRows { rows: hashbrown::HashMap::new() }
    }

    /// Record `value` at `row`, replacing an earlier value
    /// (`hashbrown::HashMap::insert`).
    #[verifier::external_body]
    fn insert(&mut self, row: usize, value: Scalar)
        ensures
            public_rows(*final(self)) == public_rows(*old(self)).insert(row, value),
    {
        self.rows.insert(row, value);
    }

    /// The value recorded at `row` (`hashbrown::HashMap::get`).
    #[verifier::external_body]
    fn get(&self, row: usize) -> (r: Option<Scalar>)
        ensures
            public_rows(*self).dom().contains(row) ==> r == Some(public_rows(*self)[row]),
            !public_rows(*self).dom().contains(row) ==> r is None,
    {
        self.rows.get(&row).copied()
    }

    /// Every row with a value, each once, in the map's iteration order
    /// (`hashbrown::HashMap::keys`). The order is left open.
    #[verifier::external_body]
    fn keys(&self) -> (r: Vec<usize>)
        ensures
            r@.no_duplicates(),
            forall|k: usize| r@.contains(k) <==> public_rows(*self).dom().contains(k),
    {
        self.rows.keys().copied().collect()
    }
}

impl Clone for PublicRows {
    /// A copy of the map (`hashbrown::HashMap::clone`).
    #[verifier::external_body]
    fn clone(&self) -> (r: PublicRows)
        ensures
            public_rows(r) == public_rows(*self),
    {
        PublicRows { rows: self.rows.clone() }
    }
}

/// The public inputs of a constraint sequence, keyed by row.
pub open spec fn row_publics(cs: Seq<Constraint>) -> Map<usize, Scalar> {
    Map::new(
        |i: usize| i < cs.len() && cs[i as int].public_flag(),
        |i: usize| cs[i as int].coeffs()[6],
    )
}

/// PLONKish width-four gate backend.
pub struct Plonkish {
    constraints: Vec<Gate>,
    public_inputs: PublicRows,
    history: Ghost<Seq<Constraint>>,
}

impl Plonkish {
    /// Gate `i` is that of the `i`-th received constraint, and the public
    /// inputs are those of the received constraints.
    #[verifier::type_invariant]
    closed spec fn wf(self) -> bool {
        &&& self.constraints@.len() == self.history@.len()
        &&& forall|i: int|
            0 <= i < self.history@.len() ==> (#[trigger] self.constraints@[i]).model()
                == constraint_gate(self.history@[i])
        &&& public_rows(self.public_inputs) == row_publics(self.history@)
    }

    fn empty() -> (r: Plonkish)
        ensures
            r.emitted().len() == 0,
    {
        let public_inputs = PublicRows::new();
        assert(public_rows(public_inputs) =~= row_publics(Seq::<Constraint>::empty()));
        Plonkish { constraints: Vec::new(), public_inputs, history: Ghost(Seq::empty()) }
    }
}

impl Clone for Plonkish {
    fn clone(&self) -> (r: Plonkish)
        ensures
            r.emitted() == self.emitted(),
    {
        proof {
            use_type_invariant(self);
        }
        let mut constraints: Vec<Gate> = Vec::new();
        let mut i: usize = 0;
        while i < self.constraints.len()
            invariant
                i <= self.constraints@.len(),
                constraints@ == self.constraints@.subrange(0, i as int),
            decreases self.constraints.len() - i,
        {
            constraints.push(self.constraints[i]);
            i = i + 1;
            assert(constraints@ =~= self.constraints@.subrange(0, i as int));
        }
        assert(constraints@ =~= self.constraints@);
        Plonkish {
            constraints,
            public_inputs: self.public_inputs.clone(),
            history: Ghost(self.history@),
        }
    }
}

impl ComposerBackend for Plonkish {
    closed spec fn emitted(&self) -> Seq<Constraint> {
        self.history@
    }

    fn new() -> (r: Self) {
        Plonkish::empty()
    }

    fn constraints(&self) -> (r: usize)
        ensures
            r == self.emitted().len(),
    {
        proof {
            use_type_invariant(self);
        }
        self.constraints.len()
    }

    fn append_constraint(&mut self, constraint: &Constraint) {
        self.push_constraint(constraint);
    }

    /// The PLONKish backend appends the compatibility rows.
    open spec fn initialization(before: Composer<Self>, after: Composer<Self>) -> bool {
        compatibility_gates_appended(before, after)
    }

    fn initialize(composer: &mut Composer<Self>) {
        append_compatibility_gates(composer);
    }
}

impl Plonkish {
    /// The constraints received so far, in emission order.
    pub closed spec fn rows(&self) -> Seq<Constraint> {
        self.history@
    }

    /// The rows are the emitted constraints.
    pub proof fn lemma_rows_emitted(&self)
        ensures
            self.rows() == self.emitted(),
    {
    }

    fn push_constraint(&mut self, constraint: &Constraint)
        ensures
            final(self).history@ == old(self).history@.push(*constraint),
    {
        proof {
            use_type_invariant(&*self);
        }
        let mut taken = Plonkish::empty();
        std::mem::swap(self, &mut taken);
        proof {
            use_type_invariant(&taken);
        }
        let Plonkish { mut constraints, mut public_inputs, history } = taken;
        let row = constraints.len();
        if constraint.has_public_input() {
            public_inputs.insert(row, *constraint.coeff(Selector::PublicInput));
        }
        constraints.push(Gate::from_constraint(constraint));
        let ghost pushed = history@.push(*constraint);
        assert(public_rows(public_inputs) =~= row_publics(pushed));
        *self = Plonkish { constraints, public_inputs, history: Ghost(pushed) };
    }
}

/// Emit the arithmetic gate of `s` into a PLONKish composer, as
/// [`Composer::append_gate`] does.
fn append_plonkish_gate(composer: &mut Composer<Plonkish>, s: Constraint)
    ensures
        final(composer).assignment() == old(composer).assignment(),
        exists|c: Constraint|
            crate::composer::arithmetic_of(s, c) && final(composer).backend_state().history@
                == old(composer).backend_state().history@.push(c),
        final(composer).public_values() == if s.public_flag() {
            old(composer).public_values().push(s.coeffs()[6])
        } else {
            old(composer).public_values()
        },
{
    let c = Constraint::arithmetic(&s);
    if c.has_public_input() {
        composer.push_public(*c.coeff(Selector::PublicInput));
    }
    let ghost before = composer.backend_state();
    assert(before == old(composer).backend_state());
    let backend = composer.backend_mut();
    backend.push_constraint(&c);
    assert(composer.backend_state().history@ == old(composer).backend_state().history@.push(c));
    assert(crate::composer::arithmetic_of(s, c));
}

/// `c` is an arithmetic gate without public input whose multiplication,
/// left, right, output, fourth and constant coefficients have the values
/// `q` and whose four wires have the indexes `w`.
pub open spec fn plain_arithmetic_gate(c: Constraint, q: Seq<nat>, w: Seq<nat>) -> bool {
    &&& forall|i: int| 0 <= i < 6 ==> (#[trigger] c.coeffs()[i])@ == q[i]
    &&& c.coeffs()[6]@ == 0
    &&& c.coeffs()[7]@ == 1
    &&& forall|i: int| 8 <= i < 12 ==> (#[trigger] c.coeffs()[i])@ == 0
    &&& forall|i: int| 0 <= i < 4 ==> (#[trigger] c.wired()[i]).index() == w[i]
    &&& !c.public_flag()
}

/// From `before` to `after` the compatibility rows were appended: the
/// witnesses `6, 1, 7, -20` at the next four indexes `n..n+4`, then an
/// arithmetic row `6·7 + 2·6 + 3·7 + 4·(-20) + 1·1 + 4 = 0` over wires
/// `(n, n+2, n+3, n+1)` and an arithmetic row
/// `(-20)·6 + (-20) + 6 + 7 + 127 = 0` over wires `(n+3, n, n+2, 0)`, with
/// nothing else changed.
pub open spec fn compatibility_gates_appended(before: Composer<Plonkish>, after: Composer<Plonkish>) -> bool {
    let n = before.assignment().len();
    let e = before.backend_state().rows().len();
    &&& after.assignment().len() == n + 4
    &&& after.assignment().subrange(0, n as int) == before.assignment()
    &&& after.assignment()[n as int]@ == 6
    &&& after.assignment()[n + 1int]@ == 1
    &&& after.assignment()[n + 2int]@ == 7
    &&& after.assignment()[n + 3int]@ == crate::scalar::fneg(20)
    &&& after.backend_state().rows().len() == e + 2
    &&& after.backend_state().rows().subrange(0, e as int) == before.backend_state().rows()
    &&& plain_arithmetic_gate(after.backend_state().rows()[e as int], seq![1nat, 2, 3, 4, 1, 4], seq![n, n + 2, n + 3, n + 1])
    &&& plain_arithmetic_gate(after.backend_state().rows()[e + 1int], seq![1nat, 1, 1, 1, 0, 127], seq![n + 3, n, n + 2, 0])
    &&& after.public_values() == before.public_values()
}

/// Append the two historical compatibility constraints over the witnesses
/// `6, 1, 7, -20`. They keep circuit row layouts compatible with existing
/// PLONKish descriptions.
#[verifier::spinoff_prover]
fn append_compatibility_gates(composer: &mut Composer<Plonkish>)
    ensures
        final(composer).assignment().len() == old(composer).assignment().len() + 4,
        final(composer).assignment().subrange(0, old(composer).assignment().len() as int)
            == old(composer).assignment(),
        final(composer).backend_state().history@.len() == old(composer).backend_state().history@.len()
            + 2,
        final(composer).backend_state().history@.subrange(
            0,
            old(composer).backend_state().history@.len() as int,
        ) == old(composer).backend_state().history@,
        final(composer).public_values() == old(composer).public_values(),
        compatibility_gates_appended(*old(composer), *final(composer)),
{
    let six = composer.push_witness(Scalar::from_u64(6));
    let one = composer.push_witness(Scalar::from_u64(1));
    let seven = composer.push_witness(Scalar::from_u64(7));
    let min_twenty = composer.push_witness(Scalar::from_u64(20).neg());
    let ghost allocated = composer.assignment();
    let first = Constraint::new().mult(Scalar::from_u64(1)).left(Scalar::from_u64(2)).right(
        Scalar::from_u64(3),
    ).fourth(Scalar::from_u64(1)).constant(Scalar::from_u64(4)).output(Scalar::from_u64(4)).a(
        six,
    ).b(seven).d(one).c(min_twenty);
    append_plonkish_gate(composer, first);
    let second = Constraint::new().mult(Scalar::from_u64(1)).left(Scalar::from_u64(1)).right(
        Scalar::from_u64(1),
    ).constant(Scalar::from_u64(127)).output(Scalar::from_u64(1)).a(min_twenty).b(six).c(seven);
    append_plonkish_gate(composer, second);
    proof {
        let n = old(composer).assignment().len();
        let e = old(composer).backend_state().history@.len();
        let h = composer.backend_state().history@;
        let c1 = h[e as int];
        let c2 = h[e + 1int];
        assert(plain_arithmetic_gate(c1, seq![1nat, 2, 3, 4, 1, 4], seq![n, n + 2, n + 3, n + 1]));
        assert(plain_arithmetic_gate(c2, seq![1nat, 1, 1, 1, 0, 127], seq![n + 3, n, n + 2, 0]));
    }
    assert(composer.assignment().subrange(0, old(composer).assignment().len() as int)
        =~= old(composer).assignment());
    assert(composer.backend_state().history@.subrange(
        0,
        old(composer).backend_state().history@.len() as int,
    ) =~= old(composer).backend_state().history@);
}

/// PLONKish circuit shape.
///
/// Witness and public-input values are deliberately excluded: setup keys bind
/// the row layout, wire indexes, witness count, and public-input positions.
#[derive(Debug, Clone, PartialEq, Eq)]
pub struct CircuitShape {
    gates: Vec<Gate>,
    public_input_indexes: Vec<usize>,
    witnesses: usize,
}

impl CircuitShape {
    /// The gates in row order.
    pub closed spec fn gate_seq(&self) -> Seq<Gate> {
        self.gates@
    }

    /// The public-input rows in ascending order.
    pub closed spec fn public_rows_seq(&self) -> Seq<usize> {
        self.public_input_indexes@
    }

    /// The witness count.
    pub closed spec fn witness_total(&self) -> usize {
        self.witnesses
    }

    /// Gates in row order.
    pub fn gates(&self) -> (r: &[Gate])
        ensures
            r@ == self.gate_seq(),
    {
        self.gates.as_slice()
    }

    /// Sparse public-input row indexes in ascending order.
    pub fn public_input_indexes(&self) -> (r: &[usize])
        ensures
            r@ == self.public_rows_seq(),
    {
        self.public_input_indexes.as_slice()
    }

    /// Number of witnesses allocated by the circuit.
    pub fn witnesses(&self) -> (r: usize)
        ensures
            r == self.witness_total(),
    {
        self.witnesses
    }
}

/// `n` is a power of two.
pub open spec fn is_power_of_two(n: nat) -> bool
    decreases n,
{
    if n <= 1 {
        n == 1
    } else {
        n % 2 == 0 && is_power_of_two(n / 2)
    }
}

/// The row whose wires a range, logic or curve identity reads as the next
/// row of `row`, in a circuit of `n` rows padded to the next power of two:
/// the following row, wrapping to row zero only from the last row of a
/// circuit whose size is already a power of two. A next row at or beyond `n`
/// is a padding row with zero wires.
pub open spec fn next_row(row: nat, n: nat) -> nat {
    if row + 1 == n && is_power_of_two(n) {
        0
    } else {
        row + 1
    }
}

/// The wire values of gate `g` under `assignment`, when all four wires are
/// allocated.
pub open spec fn gate_values(g: GateModel, assignment: Seq<Scalar>) -> Option<WireValues<nat>> {
    if g.a < assignment.len() && g.b < assignment.len() && g.c < assignment.len() && g.d
        < assignment.len() {
        Some(
            WireValues {
                a: assignment[g.a as int]@,
                b: assignment[g.b as int]@,
                c: assignment[g.c as int]@,
                d: assignment[g.d as int]@,
            },
        )
    } else {
        None
    }
}

/// The identity values of row `row` of constraints `cs` under `assignment`,
/// or `None` when the row does not exist or reads an unallocated witness.
pub open spec fn row_identities(cs: Seq<Constraint>, assignment: Seq<Scalar>, row: nat) -> Option<
    Seq<nat>,
> {
    if row >= cs.len() {
        None
    } else {
        let g = constraint_gate(cs[row as int]);
        let next = next_row(row, cs.len());
        let next_values = if next < cs.len() {
            gate_values(constraint_gate(cs[next as int]), assignment)
        } else {
            Some(WireValues { a: 0, b: 0, c: 0, d: 0 })
        };
        let pi = if cs[row as int].public_flag() {
            cs[row as int].coeffs()[6]@
        } else {
            0
        };
        match (gate_values(g, assignment), next_values) {
            (Some(current), Some(n)) => Some(identities(g, current, n, pi)),
            _ => None,
        }
    }
}

/// Every row exists with all its identities zero.
pub open spec fn all_rows_satisfied(cs: Seq<Constraint>, assignment: Seq<Scalar>) -> bool {
    forall|row: nat|
        row < cs.len() ==> match #[trigger] row_identities(cs, assignment, row) {
            Some(values) => forall|i: int| 0 <= i < values.len() ==> values[i] == 0,
            None => false,
        }
}

/// Indexes in strictly ascending order.
pub open spec fn strictly_ascending(s: Seq<usize>) -> bool {
    forall|i: int, j: int| 0 <= i < j < s.len() ==> s[i] < s[j]
}

/// The last position below `n` at which `indexes` names `row`.
pub open spec fn last_write(indexes: Seq<usize>, row: nat, n: nat) -> Option<nat>
    decreases n,
{
    if n == 0 {
        None
    } else if indexes[n - 1] == row {
        Some((n - 1) as nat)
    } else {
        last_write(indexes, row, (n - 1) as nat)
    }
}

fn all_zero(values: &Vec<Scalar>) -> (r: bool)
    ensures
        r == forall|t: int| 0 <= t < values@.len() ==> (#[trigger] values@[t])@ == 0,
{
    let mut i: usize = 0;
    while i < values.len()
        invariant
            i <= values@.len(),
            forall|t: int| 0 <= t < i ==> (#[trigger] values@[t])@ == 0,
        decreases values.len() - i,
    {
        if !values[i].equals(&Scalar::zero()) {
            return false;
        }
        i = i + 1;
    }
    true
}

/// Every power of two `2^k` is a power of two.
pub proof fn lemma_pow2_is_power_of_two(k: nat)
    ensures
        is_power_of_two(vstd::arithmetic::power2::pow2(k)),
    decreases k,
{
    vstd::arithmetic::power2::lemma2_to64();
    if k > 0 {
        vstd::arithmetic::power2::lemma_pow2_unfold(k);
        vstd::arithmetic::power2::lemma_pow2_pos((k - 1) as nat);
        lemma_pow2_is_power_of_two((k - 1) as nat);
    }
}

pub(crate) fn power_of_two(n: usize) -> (r: bool)
    ensures
        r == is_power_of_two(n as nat),
{
    let mut m = n;
    while m > 1 && m % 2 == 0
        invariant
            is_power_of_two(m as nat) == is_power_of_two(n as nat),
        decreases m,
    {
        m = m / 2;
    }
    m == 1
}

fn sort_rows(v: Vec<usize>) -> (r: Vec<usize>)
    requires
        v@.no_duplicates(),
    ensures
        strictly_ascending(r@),
        forall|k: usize| r@.contains(k) <==> v@.contains(k),
{
    let mut r: Vec<usize> = Vec::new();
    let mut i: usize = 0;
    while i < v.len()
        invariant
            i <= v.len(),
            v@.no_duplicates(),
            strictly_ascending(r@),
            forall|k: usize| r@.contains(k) <==> v@.subrange(0, i as int).contains(k),
        decreases v.len() - i,
    {
        let key = v[i];
        assert(!r@.contains(key)) by {
            if r@.contains(key) {
                let t = choose|t: int| 0 <= t < i && v@.subrange(0, i as int)[t] == key;
                assert(v@[t] == v@[i as int]);
            }
        }
        let mut j: usize = 0;
        while j < r.len() && r[j] < key
            invariant
                j <= r.len(),
                forall|t: int| 0 <= t < j ==> r@[t] < key,
            decreases r.len() - j,
        {
            j = j + 1;
        }
        let ghost before = r@;
        r.insert(j, key);
        proof {
            assert(j < before.len() ==> before[j as int] > key) by {
                if j < before.len() {
                    assert(before[j as int] != key);
                }
            }
            assert forall|a: int, b: int| 0 <= a < b < r@.len() implies r@[a] < r@[b] by {
                if a < j && b < j {
                    assert(before[a] < before[b]);
                } else if a < j && b == j {
                } else if a < j && b > j {
                    assert(before[a] < before[b - 1]);
                } else if a == j {
                    if b - 1 > j {
                        assert(before[j as int] < before[b - 1]);
                    }
                } else {
                    assert(before[a - 1] < before[b - 1]);
                }
            }
            assert forall|k: usize| r@.contains(k) <==> v@.subrange(0, i + 1).contains(k) by {
                if r@.contains(k) {
                    let t = choose|t: int| 0 <= t < r@.len() && r@[t] == k;
                    if t < j {
                        assert(before[t] == k);
                        assert(before.contains(k));
                        let u = choose|u: int| 0 <= u < i && v@.subrange(0, i as int)[u] == k;
                        assert(v@.subrange(0, i + 1)[u] == k);
                    } else if t > j {
                        assert(before[t - 1] == k);
                        assert(before.contains(k));
                        let u = choose|u: int| 0 <= u < i && v@.subrange(0, i as int)[u] == k;
                        assert(v@.subrange(0, i + 1)[u] == k);
                    } else {
                        assert(v@.subrange(0, i + 1)[i as int] == k);
                    }
                }
                let prefix = v@.subrange(0, i + 1);
                if prefix.contains(k) {
                    let u = choose|u: int| 0 <= u < prefix.len() && prefix[u] == k;
                    if u < i {
                        assert(v@.subrange(0, i as int)[u] == k);
                        assert(before.contains(k));
                        let t = choose|t: int| 0 <= t < before.len() && before[t] == k;
                        if t < j {
                            assert(r@[t] == k);
                        } else {
                            assert(r@[t + 1] == k);
                        }
                    } else {
                        assert(r@[j as int] == k);
                    }
                }
            }
        }
        i = i + 1;
    }
    assert(v@.subrange(0, v@.len() as int) =~= v@);
    r
}

impl Composer<Plonkish> {
    /// Sparse public-input row indexes in ascending order.
    pub fn public_input_indexes(&self) -> (r: Vec<usize>)
        ensures
            strictly_ascending(r@),
            forall|k: usize|
                r@.contains(k) <==> (k < self.emitted().len() && self.emitted()[k as int].public_flag()),
    {
        let backend = self.backend();
        proof {
            use_type_invariant(backend);
        }
        let keys = backend.public_inputs.keys();
        sort_rows(keys)
    }

    /// Expand sparse public inputs into a row-aligned vector of `size`: the
    /// pairs `(indexes[k], public_inputs[k])` are written in order, later
    /// pairs over earlier ones, and every other row is zero.
    pub fn dense_public_inputs(public_input_indexes: &[usize], public_inputs: &[Scalar], size: usize) -> (r: Vec<Scalar>)
        requires
            forall|k: int|
                0 <= k < public_input_indexes@.len() && k < public_inputs@.len() ==> (
                #[trigger] public_input_indexes@[k]) < size,
        ensures
            r@.len() == size,
            forall|row: int|
                0 <= row < size ==> match last_write(
                    public_input_indexes@,
                    row as nat,
                    if public_input_indexes@.len() < public_inputs@.len() {
                        public_input_indexes@.len()
                    } else {
                        public_inputs@.len()
                    },
                ) {
                    Some(k) => #[trigger] r@[row] == public_inputs@[k as int],
                    None => r@[row]@ == 0,
                },
    {
        let zero = Scalar::zero();
        let mut dense: Vec<Scalar> = Vec::new();
        let mut i: usize = 0;
        while i < size
            invariant
                i <= size,
                dense@.len() == i,
                zero@ == 0,
                forall|t: int| 0 <= t < i ==> (#[trigger] dense@[t])@ == 0,
            decreases size - i,
        {
            dense.push(zero);
            assert(dense@[i as int]@ == 0);
            i = i + 1;
        }
        let n = if public_input_indexes.len() < public_inputs.len() {
            public_input_indexes.len()
        } else {
            public_inputs.len()
        };
        let mut k: usize = 0;
        while k < n
            invariant
                k <= n,
                n <= public_input_indexes@.len(),
                n <= public_inputs@.len(),
                dense@.len() == size,
                forall|j: int|
                    0 <= j < public_input_indexes@.len() && j < public_inputs@.len() ==> (
                    #[trigger] public_input_indexes@[j]) < size,
                forall|row: int|
                    0 <= row < size ==> match last_write(public_input_indexes@, row as nat, k as nat) {
                        Some(t) => #[trigger] dense@[row] == public_inputs@[t as int],
                        None => dense@[row]@ == 0,
                    },
            decreases n - k,
        {
            let idx = public_input_indexes[k];
            dense.set(idx, public_inputs[k]);
            k = k + 1;
            assert forall|row: int| 0 <= row < size implies match last_write(
                public_input_indexes@,
                row as nat,
                k as nat,
            ) {
                Some(t) => #[trigger] dense@[row] == public_inputs@[t as int],
                None => dense@[row]@ == 0,
            } by {
                assert(last_write(public_input_indexes@, row as nat, k as nat) == if idx == row {
                    Some((k - 1) as nat)
                } else {
                    last_write(public_input_indexes@, row as nat, (k - 1) as nat)
                });
            }
        }
        dense
    }

    /// Return PLONKish gates in row order.
    pub fn gates(&self) -> (r: &[Gate])
        ensures
            r@.len() == self.emitted().len(),
            forall|i: int|
                0 <= i < r@.len() ==> (#[trigger] r@[i]).model() == constraint_gate(self.emitted()[i]),
    {
        let backend = self.backend();
        proof {
            use_type_invariant(backend);
        }
        backend.constraints.as_slice()
    }

    /// Return the PLONKish circuit shape without assignment values.
    pub fn shape(&self) -> (r: CircuitShape)
        ensures
            r.gate_seq().len() == self.emitted().len(),
            forall|i: int|
                0 <= i < r.gate_seq().len() ==> (#[trigger] r.gate_seq()[i]).model() == constraint_gate(
                    self.emitted()[i],
                ),
            strictly_ascending(r.public_rows_seq()),
            forall|k: usize|
                r.public_rows_seq().contains(k) <==> (k < self.emitted().len()
                    && self.emitted()[k as int].public_flag()),
            r.witness_total() == self.assignment().len(),
    {
        let gates = self.gates();
        let mut copied: Vec<Gate> = Vec::new();
        let mut i: usize = 0;
        while i < gates.len()
            invariant
                i <= gates@.len(),
                copied@ == gates@.subrange(0, i as int),
            decreases gates.len() - i,
        {
            copied.push(gates[i]);
            i = i + 1;
            assert(copied@ =~= gates@.subrange(0, i as int));
        }
        assert(copied@ =~= gates@);
        CircuitShape {
            gates: copied,
            public_input_indexes: self.public_input_indexes(),
            witnesses: self.witness_count(),
        }
    }

    fn gate_wire_values(&self, gate: &Gate) -> (r: Option<WireValues<Scalar>>)
        ensures
            match gate_values(gate.model(), self.assignment()) {
                Some(v) => r matches Some(w) && w.a@ == v.a && w.b@ == v.b && w.c@ == v.c && w.d@
                    == v.d,
                None => r is None,
            },
    {
        let witnesses = self.witnesses();
        let wires = gate.wires();
        let a = wires[0];
        let b = wires[1];
        let c = wires[2];
        let d = wires[3];
        if a.index() < witnesses.len() && b.index() < witnesses.len() && c.index()
            < witnesses.len() && d.index() < witnesses.len() {
            Some(
                WireValues::new(
                    witnesses[a.index()],
                    witnesses[b.index()],
                    witnesses[c.index()],
                    witnesses[d.index()],
                ),
            )
        } else {
            None
        }
    }

    /// Evaluate every independent PLONKish gate identity at `row`.
    pub fn identity_evaluations(&self, row: usize) -> (r: Option<Vec<Scalar>>)
        ensures
            match row_identities(self.emitted(), self.assignment(), row as nat) {
                Some(values) => r matches Some(v) && v@.len() == values.len() && forall|i: int|
                    0 <= i < values.len() ==> (#[trigger] v@[i])@ == values[i],
                None => r is None,
            },
    {
        let gates = self.gates();
        if row >= gates.len() {
            return None;
        }
        let gate = &gates[row];
        let current = match self.gate_wire_values(gate) {
            Some(values) => values,
            None => {
                return None;
            },
        };
        let n = gates.len();
        let shifted = if row + 1 == n && power_of_two(n) {
            0
        } else {
            row + 1
        };
        let next = if shifted < n {
            match self.gate_wire_values(&gates[shifted]) {
                Some(values) => values,
                None => {
                    return None;
                },
            }
        } else {
            WireValues::new(Scalar::zero(), Scalar::zero(), Scalar::zero(), Scalar::zero())
        };
        let backend = self.backend();
        proof {
            use_type_invariant(backend);
        }
        let public_input = match backend.public_inputs.get(row) {
            Some(value) => value,
            None => Scalar::zero(),
        };
        let evaluations = evaluate(gate, current, next, public_input);
        proof {
            let env = Seq::<nat>::empty();
            let values = row_identities(self.emitted(), self.assignment(), row as nat)->Some_0;
            assert forall|i: int| 0 <= i < values.len() implies (#[trigger] evaluations@[i])@
                == values[i] by {
                assert(evaluations@[i].value(env) == evaluations@[i]@);
            }
        }
        Some(evaluations)
    }

    /// Return whether the current assignment satisfies every PLONKish row.
    pub fn is_satisfied(&self) -> (r: bool)
        ensures
            r == all_rows_satisfied(self.emitted(), self.assignment()),
    {
        let n = self.constraints();
        let mut row: usize = 0;
        while row < n
            invariant
                row <= n,
                n == self.emitted().len(),
                forall|earlier: nat|
                    earlier < row ==> match #[trigger] row_identities(
                        self.emitted(),
                        self.assignment(),
                        earlier,
                    ) {
                        Some(values) => forall|i: int| 0 <= i < values.len() ==> values[i] == 0,
                        None => false,
                    },
            decreases n - row,
        {
            let evaluations = match self.identity_evaluations(row) {
                Some(values) => values,
                None => {
                    return false;
                },
            };
            if !all_zero(&evaluations) {
                return false;
            }
            proof {
                let values = row_identities(self.emitted(), self.assignment(), row as nat)->Some_0;
                assert forall|i: int| 0 <= i < values.len() implies values[i] == 0 by {
                    assert(evaluations@[i]@ == 0);
                }
            }
            row = row + 1;
        }
        true
    }
}

/// Every identity of a row vanishes when its arithmetic identity does and
/// its range, logic and curve-addition selectors are zero.
proof fn lemma_arithmetic_row_vanishes(g: GateModel, w: WireValues<nat>, n: WireValues<nat>, pi: nat)
    requires
        g.q_range == 0,
        g.q_logic == 0,
        g.q_fixed_group_add == 0,
        g.q_variable_group_add == 0,
        arithmetic_identity(g, w, pi) == 0,
    ensures
        forall|i: int| 0 <= i < identities(g, w, n, pi).len() ==> #[trigger] identities(g, w, n, pi)[i] == 0,
{
    reveal(fmul);
    assert(range_identities(g, w, n) =~= seq![0nat, 0, 0, 0]);
    assert(logic_identities(g, w, n) =~= seq![0nat, 0, 0, 0, 0]);
    assert(fixed_base_identities(g, w, n) =~= seq![0nat, 0, 0, 0]);
    assert(variable_base_identities(g, w, n) =~= seq![0nat, 0, 0]);
    assert(identities(g, w, n, pi) =~= Seq::new(17, |i: int| 0nat));
}

/// A row of a four-row system over six witnesses whose selectors are those
/// of a plain arithmetic row and whose arithmetic identity vanishes has
/// every identity zero.
proof fn lemma_plain_row_holds(cs: Seq<Constraint>, v: Seq<Scalar>, row: nat)
    requires
        cs.len() == 4,
        v.len() == 6,
        row < 4,
        forall|k: int| 0 <= k < 4 ==> {
            let g = #[trigger] constraint_gate(cs[k]);
            g.a < 6 && g.b < 6 && g.c < 6 && g.d < 6
        },
        !cs[row as int].public_flag(),
        ({
            let g = constraint_gate(cs[row as int]);
            &&& g.q_range == 0
            &&& g.q_logic == 0
            &&& g.q_fixed_group_add == 0
            &&& g.q_variable_group_add == 0
            &&& arithmetic_identity(
                g,
                WireValues { a: v[g.a as int]@, b: v[g.b as int]@, c: v[g.c as int]@, d: v[g.d as int]@ },
                0,
            ) == 0
        }),
    ensures
        match row_identities(cs, v, row) {
            Some(values) => forall|i: int| 0 <= i < values.len() ==> values[i] == 0,
            None => false,
        },
{
    let g = constraint_gate(cs[row as int]);
    assert(is_power_of_two(4)) by {
        reveal_with_fuel(is_power_of_two, 3);
    }
    let next = next_row(row, 4);
    assert(next < 4);
    let ng = constraint_gate(cs[next as int]);
    let w = WireValues { a: v[g.a as int]@, b: v[g.b as int]@, c: v[g.c as int]@, d: v[g.d as int]@ };
    let nw = WireValues { a: v[ng.a as int]@, b: v[ng.b as int]@, c: v[ng.c as int]@, d: v[ng.d as int]@ };
    assert(row_identities(cs, v, row) == Some(identities(g, w, nw, 0)));
    lemma_arithmetic_row_vanishes(g, w, nw, 0);
}

/// `(m·k + b) mod m = b` for `0 <= b < m`.
proof fn lemma_mod_shift(k: int, b: int, m: int)
    requires
        m > 0,
        0 <= b < m,
    ensures
        (m * k + b) % m == b,
{
    vstd::arithmetic::div_mod::lemma_mod_multiples_vanish(k, b, m);
    vstd::arithmetic::div_mod::lemma_small_mod(b as nat, m as nat);
}

/// `-0 + 0 = 0`: the constant row of the zero witness.
proof fn lemma_zero_row(g: GateModel)
    requires
        g.q_m == 0nat,
        g.q_l == fneg(1),
        g.q_r == 0,
        g.q_o == 0,
        g.q_f == 0,
        g.q_c == 0,
        g.q_arith == 1,
    ensures
        arithmetic_identity(g, WireValues { a: 0nat, b: 0, c: 0, d: 0 }, 0) == 0,
{
    reveal(fmul);
    reveal(fadd);
    reveal(fsub);
}

/// `-1 + 1 = 0`: the constant row of the one witness.
proof fn lemma_one_row(g: GateModel)
    requires
        g.q_m == 0nat,
        g.q_l == fneg(1),
        g.q_r == 0,
        g.q_o == 0,
        g.q_f == 0,
        g.q_c == 1,
        g.q_arith == 1,
    ensures
        arithmetic_identity(g, WireValues { a: 1nat, b: 0, c: 0, d: 0 }, 0) == 0,
{
    reveal(fmul);
    reveal(fadd);
    reveal(fsub);
}

/// `6·7 + 2·6 + 3·7 + 4·(-20) + 1 + 4 = 0`.
proof fn lemma_first_compat_row(g: GateModel)
    requires
        g.q_m == 1nat,
        g.q_l == 2,
        g.q_r == 3,
        g.q_o == 4,
        g.q_f == 1,
        g.q_c == 4,
        g.q_arith == 1,
    ensures
        arithmetic_identity(g, WireValues { a: 6nat, b: 7, c: fneg(20), d: 1 }, 0) == 0,
{
    reveal(fmul);
    reveal(fadd);
    reveal(fsub);
    let p = modulus() as int;
    assert(fneg(20) == p - 20);
    lemma_mod_shift(3, p - 80, p);
    assert(4 * (p - 20) == p * 3 + (p - 80));
    lemma_mod_shift(0, p - 5, p);
    lemma_mod_shift(0, p - 4, p);
    lemma_mod_shift(1, 0, p);
}

/// `(-20)·6 + (-20) + 6 + 7 + 127 = 0`.
proof fn lemma_second_compat_row(g: GateModel)
    requires
        g.q_m == 1nat,
        g.q_l == 1,
        g.q_r == 1,
        g.q_o == 1,
        g.q_f == 0,
        g.q_c == 127,
        g.q_arith == 1,
    ensures
        arithmetic_identity(g, WireValues { a: fneg(20), b: 6, c: 7, d: 0 }, 0) == 0,
{
    reveal(fmul);
    reveal(fadd);
    reveal(fsub);
    let p = modulus() as int;
    assert(fneg(20) == p - 20);
    lemma_mod_shift(5, p - 120, p);
    assert((p - 20) * 6 == p * 5 + (p - 120));
    lemma_mod_shift(1, p - 140, p);
    lemma_mod_shift(0, p - 134, p);
    lemma_mod_shift(0, p - 127, p);
    lemma_mod_shift(1, 0, p);
}

/// A fresh PLONKish composer is satisfied: after the two constant rows for
/// the zero and one witnesses, the initialization hook's two compatibility
/// rows hold for the witnesses `6, 1, 7, -20` it allocates.
#[verifier::spinoff_prover]
#[verifier::rlimit(40)]
pub proof fn lemma_fresh_plonkish_satisfied(c: Composer<Plonkish>)
    requires
        exists|start: Composer<Plonkish>|
            Composer::<Plonkish>::started(Seq::empty(), start) && #[trigger] compatibility_gates_appended(
                start,
                c,
            ),
    ensures
        all_rows_satisfied(c.emitted(), c.assignment()),
{
    let start = choose|start: Composer<Plonkish>|
        Composer::<Plonkish>::started(Seq::empty(), start) && #[trigger] compatibility_gates_appended(
            start,
            c,
        );
    start.backend_state().lemma_rows_emitted();
    c.backend_state().lemma_rows_emitted();
    let cs = c.emitted();
    let v = c.assignment();
    assert(cs.len() == 4);
    assert(v.len() == 6);
    assert(cs[0] == start.emitted()[0]);
    assert(cs[1] == start.emitted()[1]);
    assert(v[0] == start.assignment()[0]);
    assert(v[1] == start.assignment()[1]);
    assert(is_power_of_two(4)) by {
        reveal_with_fuel(is_power_of_two, 3);
    }
    let twenty = crate::scalar::fneg(20);
    assert(twenty == modulus() - 20) by {
        reveal(fsub);
    }
    assert forall|k: int| 0 <= k < 4 implies {
        let g = #[trigger] constraint_gate(cs[k]);
        g.a < 6 && g.b < 6 && g.c < 6 && g.d < 6
    } by {
        if k == 2 {
            assert(cs[k].wired()[0].index() == 2);
        }
    }
    // the constant rows of the zero and one witnesses: `-a + a = 0`
    lemma_zero_row(constraint_gate(cs[0]));
    lemma_plain_row_holds(cs, v, 0);
    lemma_one_row(constraint_gate(cs[1]));
    lemma_plain_row_holds(cs, v, 1);
    // `6·7 + 2·6 + 3·7 + 4·(-20) + 1 + 4 = 0`
    lemma_first_compat_row(constraint_gate(cs[2]));
    lemma_plain_row_holds(cs, v, 2);
    // `(-20)·6 + (-20) + 6 + 7 + 127 = 0`
    lemma_second_compat_row(constraint_gate(cs[3]));
    lemma_plain_row_holds(cs, v, 3);
    assert forall|row: nat| row < cs.len() implies match #[trigger] row_identities(cs, v, row) {
        Some(values) => forall|i: int| 0 <= i < values.len() ==> values[i] == 0,
        None => false,
    } by {
        assert(row == 0 || row == 1 || row == 2 || row == 3);
    }
}

} // verus!
