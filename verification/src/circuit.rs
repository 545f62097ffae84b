//! The circuit: the wires and gates built from a module, and the facade
//! through which inputs are set, the network is evaluated and outputs are
//! read.

use vstd::prelude::*;
use crate::assemble::{
    allocate_gates, blank, collect_outputs, collect_ports, index_cells, wire_gates,
    ConfigurationError,
};
use crate::engine::{edges_into, emptied, lacking, out, settled, AggregateEvalError};
use crate::index::{ascending, lemma_place, listed, place, position};
use crate::node::CircuitNode;
use crate::traits::LogicOps;
use crate::wire::{ConnectionError, WireBank, WireIn, WireOut};
use crate::yosys_parse::{CellType, ModuleElem, WireId};

verus! {

/// A facade call named a wire that the circuit does not offer.
#[derive(Clone, Copy, Debug, PartialEq, Eq, Structural)]
pub enum LookupError {
    /// The id is not one of the primary inputs.
    UnknownInput,
    /// The id is not one of the declared outputs.
    UnknownOutput,
}

/// What a circuit is, as far as its contracts speak of it.
pub struct CircuitView<T> {
    /// The content of every wire, by slot.
    pub bank: Seq<Option<T>>,
    /// The gates, in the order of the cells they were built from.
    pub nodes: Seq<CircuitNode<T>>,
    /// The wire id that each gate drives.
    pub ids: Seq<WireId>,
    /// The slot of each primary input, by wire id.
    pub inputs: Map<WireId, nat>,
    /// The slot of each declared output, by wire id.
    pub outputs: Map<WireId, nat>,
}

/// A combinational network ready for evaluation.
///
/// The bank holds one slot for each primary input, then one for each gate, in
/// the order of the gates. `input` and `output` are sorted by wire id.
pub struct Circuit<T> {
    output: Vec<(WireId, WireOut<T>)>,
    input: Vec<(WireId, WireIn<T>)>,
    nodes: Vec<CircuitNode<T>>,
    ids: Vec<WireId>,
    bank: WireBank<T>,
}

impl<T> View for Circuit<T> {
    type V = CircuitView<T>;

    closed spec fn view(&self) -> CircuitView<T> {
        CircuitView {
            bank: self.bank@,
            nodes: self.nodes@,
            ids: self.ids@,
            inputs: Map::new(
                |id: WireId| listed(self.input@, id),
                |id: WireId| self.input@[place(self.input@, id)].1.slot(),
            ),
            outputs: Map::new(
                |id: WireId| listed(self.output@, id),
                |id: WireId| self.output@[place(self.output@, id)].1.slot(),
            ),
        }
    }
}

impl<T> CircuitView<T> {
    /// The number of slots that belong to primary inputs; the gates' slots
    /// follow them.
    pub open spec fn base(self) -> nat {
        (self.bank.len() - self.nodes.len()) as nat
    }

    /// What holds of every circuit: each endpoint names a slot of the bank,
    /// the primary inputs come first and each gate drives the slot of its own
    /// rank after them, and each gate has all the inputs its kind reads.
    pub open spec fn well_formed(self) -> bool {
        &&& self.nodes.len() <= self.bank.len()
        &&& self.ids.len() == self.nodes.len()
        &&& forall|id: WireId| #[trigger] self.inputs.contains_key(id) ==> self.inputs[id] < self.base()
        &&& forall|id: WireId| #[trigger]
            self.outputs.contains_key(id) ==> self.outputs[id] < self.bank.len()
        &&& forall|k: int|
            0 <= k < self.nodes.len() ==> (#[trigger] self.nodes[k]).driven().slot() == self.base()
                + k
        &&& forall|k: int| 0 <= k < self.nodes.len() ==> (#[trigger] self.nodes[k]).wired(self.bank.len())
        &&& forall|s: int| 0 <= s < self.base() ==> #[trigger] self.entered(s)
    }

    /// Whether slot `slot` is the slot of a primary input.
    pub open spec fn entered(self, slot: int) -> bool {
        exists|id: WireId| self.inputs.contains_key(id) && #[trigger] self.inputs[id] == slot
    }

    /// The same circuit with other values on its wires.
    pub open spec fn holding(self, bank: Seq<Option<T>>) -> Self {
        CircuitView { bank, ..self }
    }

    /// What setting the primary input `id` returns: the value pending there.
    pub open spec fn pending(self, id: WireId) -> Result<Option<T>, LookupError> {
        if self.inputs.contains_key(id) {
            Ok(self.bank[self.inputs[id] as int])
        } else {
            Err(LookupError::UnknownInput)
        }
    }

    /// The circuit after the primary input `id` has been set to `val`.
    pub open spec fn set(self, id: WireId, val: T) -> Self {
        if self.inputs.contains_key(id) {
            self.holding(self.bank.update(self.inputs[id] as int, Some(val)))
        } else {
            self
        }
    }

    /// What reading the output `id` returns: the value on that wire.
    pub open spec fn result(self, id: WireId) -> Result<Option<T>, LookupError> {
        if self.outputs.contains_key(id) {
            Ok(self.bank[self.outputs[id] as int])
        } else {
            Err(LookupError::UnknownOutput)
        }
    }

    /// The circuit after the output `id` has been read.
    pub open spec fn taken(self, id: WireId) -> Self {
        if self.outputs.contains_key(id) {
            self.holding(self.bank.update(self.outputs[id] as int, None))
        } else {
            self
        }
    }
}

impl<T: LogicOps> CircuitView<T> {
    /// Whether `after` is this circuit evaluated: the same circuit, the
    /// primary inputs holding what they held, and every gate's wire holding
    /// what that gate computes from the wires it reads.
    pub open spec fn evaluated(self, after: Self) -> bool {
        &&& after == self.holding(after.bank)
        &&& after.bank.len() == self.bank.len()
        &&& forall|s: int| 0 <= s < self.base() ==> #[trigger] after.bank[s] == self.bank[s]
        &&& settled(after.nodes, after.bank)
    }

    /// Whether every gate has a value.
    pub open spec fn complete(self) -> bool {
        forall|k: int|
            0 <= k < self.nodes.len() ==> (#[trigger] self.bank[out(self.nodes, k)]) is Some
    }
}

impl<T> CircuitView<T> {
    /// The slot that holds the wire `id` of `module`: where a cell drives it,
    /// the slot of that cell's gate, or else the slot of the primary input.
    pub open spec fn source(self, module: &ModuleElem, id: WireId) -> nat {
        if module.driven(id) {
            (self.base() + module.driver(id)) as nat
        } else {
            self.inputs[id]
        }
    }

    /// Whether the circuit is the one that `module` describes, nothing
    /// computed yet: every wire is empty; the primary inputs are the wires
    /// that enter the module, each with a slot of its own; there is one gate
    /// for each cell, in order, of the cell's kind, reading the sources of the
    /// wires that the cell reads; and the outputs are the wires that leave the
    /// module, each read at its source.
    pub open spec fn realizes(self, module: &ModuleElem) -> bool {
        &&& self.well_formed()
        &&& blank(self.bank)
        &&& forall|id: WireId| #[trigger]
            self.inputs.contains_key(id) <==> module.input_bits().contains(id)
        &&& forall|a: WireId, b: WireId|
            #[trigger] self.inputs.contains_key(a) && #[trigger] self.inputs.contains_key(b) && a
                != b ==> self.inputs[a] != self.inputs[b]
        &&& forall|id: WireId| #[trigger]
            self.outputs.contains_key(id) <==> module.output_bits().contains(id)
        &&& forall|id: WireId| #[trigger]
            self.outputs.contains_key(id) ==> self.outputs[id] == self.source(module, id)
        &&& self.nodes.len() == module.cells@.len()
        &&& forall|k: int| 0 <= k < self.nodes.len() ==> #[trigger] self.stands_for(module, k)
    }

    /// Whether gate `k` stands for cell `k` of `module`.
    pub open spec fn stands_for(self, module: &ModuleElem, k: int) -> bool {
        let cell = module.cells@[k].1;
        let node = self.nodes[k];
        &&& cell.output() == Some(self.ids[k])
        &&& node.kind() == cell.kind
        &&& cell.inputs() matches Some(wires)
        &&& node.first() matches Some(first)
        &&& first.slot() == self.source(module, wires[0])
        &&& cell.kind != CellType::Not ==> (node.second() matches Some(second) && second.slot()
            == self.source(module, wires[1]))
    }
}

impl<T> Circuit<T> {
    /// Builds the circuit that `module` describes, or says why there is none.
    pub fn from_yosys(module: &ModuleElem) -> (r: Result<Circuit<T>, ConfigurationError>)
        ensures
            match r {
                Ok(circuit) => module.fault() is None && circuit.inv() && circuit@.realizes(
                    module,
                ),
                Err(e) => module.fault() == Some(e),
            },
    {
        let mut bank: WireBank<T> = WireBank::new();
        let (input, wanted) = match collect_ports(module, &mut bank) {
            Ok(found) => found,
            Err(e) => { return Err(e); },
        };
        let drivers = match index_cells(module) {
            Ok(drivers) => drivers,
            Err(e) => { return Err(e); },
        };
        let base = bank.len();
        let (mut nodes, ids) = allocate_gates(module, &mut bank);
        match wire_gates(module, &input, &drivers, &mut nodes, base) {
            Ok(_) => {},
            Err(e) => { return Err(e); },
        }
        let output = match collect_outputs(module, &wanted, &input, &drivers, &nodes, base) {
            Ok(output) => output,
            Err(e) => { return Err(e); },
        };
        let circuit = Circuit { output, input, nodes, ids, bank };
        proof {
            let view = circuit@;
            assert(view.base() == base);
            assert forall|id: WireId| #[trigger] view.inputs.contains_key(id) implies view.inputs[id]
                < view.base() by {
                let j = place(circuit.input@, id);
                assert(circuit.input@[j].1.slot() < base);
            }
            assert forall|a: WireId, b: WireId|
                #[trigger] view.inputs.contains_key(a) && #[trigger] view.inputs.contains_key(b)
                    && a != b implies view.inputs[a] != view.inputs[b] by {
                let i = place(circuit.input@, a);
                let j = place(circuit.input@, b);
                assert(i != j);
            }
            assert forall|id: WireId| module.known(id) implies #[trigger] view.source(module, id)
                < view.bank.len() by {
                if module.driven(id) {
                    assert(module.drives(module.driver(id), id));
                } else {
                    assert(listed(circuit.input@, id));
                    assert(view.inputs.contains_key(id));
                }
            }
            assert forall|id: WireId| #[trigger] view.outputs.contains_key(id) implies view.outputs[id]
                == view.source(module, id) && view.outputs[id] < view.bank.len() by {
                let j = place(circuit.output@, id);
                assert(listed(circuit.output@, id));
                assert(circuit.output@[j].0 == id);
                assert(module.output_bits().contains(id));
                let q = choose|q: int|
                    0 <= q < module.output_bits().len() && module.output_bits()[q] == id;
                assert(module.known(module.output_bits()[q]));
                assert(module.known(id));
                if !module.driven(id) {
                    assert(listed(circuit.input@, id));
                    assert(view.inputs.contains_key(id));
                }
                assert(crate::assemble::source(module, circuit.input@, base as nat, id)
                    == view.source(module, id));
            }
            assert forall|k: int| 0 <= k < view.nodes.len() implies #[trigger] view.stands_for(
                module,
                k,
            ) && view.nodes[k].wired(view.bank.len()) by {
                assert(module.attached(k));
                assert(crate::assemble::joined(circuit.nodes@[k], module, circuit.input@, base as nat, k));
                let wires = module.cells@[k].1.inputs()->0;
                assert(module.known(wires[0]));
                assert(crate::assemble::source(module, circuit.input@, base as nat, wires[0])
                    == view.source(module, wires[0])) by {
                    if !module.driven(wires[0]) {
                        assert(listed(circuit.input@, wires[0]));
                    }
                }
                if module.cells@[k].1.kind != CellType::Not {
                    assert(module.known(wires[1]));
                    assert(crate::assemble::source(module, circuit.input@, base as nat, wires[1])
                        == view.source(module, wires[1])) by {
                        if !module.driven(wires[1]) {
                            assert(listed(circuit.input@, wires[1]));
                        }
                    }
                }
            }
            assert forall|k: int| 0 <= k < view.nodes.len() implies (#[trigger] view.nodes[k]).wired(
                view.bank.len(),
            ) by {
                assert(view.stands_for(module, k));
            }
            assert forall|s: int| 0 <= s < view.base() implies #[trigger] view.entered(s) by {
                assert(crate::assemble::held(circuit.input@, s));
                let j = choose|j: int|
                    0 <= j < circuit.input@.len() && (#[trigger] circuit.input@[j]).1.slot() == s;
                lemma_place(circuit.input@, j);
                let id = circuit.input@[j].0;
                assert(view.inputs.contains_key(id) && view.inputs[id] == s);
            }
        }
        Ok(circuit)
    }

    /// The invariant of the type: what building a circuit establishes and
    /// every operation on it keeps.
    pub closed spec fn inv(&self) -> bool {
        &&& ascending(self.input@)
        &&& ascending(self.output@)
        &&& self@.well_formed()
    }

    /// A circuit that meets its invariant is well formed.
    pub proof fn lemma_well_formed(&self)
        requires
            self.inv(),
        ensures
            self@.well_formed(),
    {
    }

    /// Writes `val` to the primary input `id` and returns the value that was
    /// pending there, if any. Fails, changing nothing, where `id` is no
    /// primary input.
    pub fn set_input(&mut self, id: WireId, val: T) -> (r: Result<Option<T>, LookupError>)
        requires
            old(self).inv(),
        ensures
            final(self).inv(),
            r == old(self)@.pending(id),
            final(self)@ == old(self)@.set(id, val),
    {
        let i = match position(&self.input, id) {
            Ok(i) => i,
            Err(_) => { return Err(LookupError::UnknownInput); },
        };
        proof {
            lemma_place(self.input@, i as int);
        }
        let r = match self.input[i].1.write(&mut self.bank, val) {
            Ok(previous) => Ok(previous),
            Err(_) => Err(LookupError::UnknownInput),
        };
        proof {
            assert(self@.inputs == old(self)@.inputs);
            assert(self@.outputs == old(self)@.outputs);
            lemma_entered_kept(old(self)@, self@);
        }
        r
    }

    /// Evaluates the network on the values that the primary inputs hold.
    ///
    /// Every gate's wire is emptied first. On return the wire of every gate
    /// holds the value of that gate's function of the wires it reads, or
    /// nothing where one of them has nothing; the primary inputs are as they
    /// were. Succeeds exactly when every gate has a value, and otherwise names
    /// the wire of every gate that has none.
    pub fn evaluate(&mut self) -> (r: Result<(), AggregateEvalError>) where T: LogicOps
        requires
            old(self).inv(),
        ensures
            final(self).inv(),
            old(self)@.evaluated(final(self)@),
            match r {
                Ok(_) => final(self)@.complete(),
                Err(e) => {
                    &&& !final(self)@.complete()
                    &&& e.failed@ == lacking(
                        final(self)@.nodes,
                        final(self)@.ids,
                        final(self)@.bank,
                        false,
                        final(self)@.nodes.len(),
                    )
                    &&& e.skipped@ == lacking(
                        final(self)@.nodes,
                        final(self)@.ids,
                        final(self)@.bank,
                        true,
                        final(self)@.nodes.len(),
                    )
                },
            },
    {
        let r = crate::engine::evaluate(&self.nodes, &self.ids, &mut self.bank);
        proof {
            assert(self@.inputs == old(self)@.inputs);
            assert(self@.outputs == old(self)@.outputs);
            lemma_entered_kept(old(self)@, self@);
        }
        r
    }

    /// The dependency edges between the gates: a pair of gate indices,
    /// producer first, for every input of a gate that another gate drives.
    /// Whoever applies the gates one by one has to apply the producer of every
    /// edge before the consumer.
    pub fn dependencies(&self) -> (edges: Vec<(usize, usize)>)
        requires
            self.inv(),
        ensures
            edges@ == edges_into(self@.nodes, self@.bank.len(), self@.nodes.len()),
    {
        crate::engine::dependencies(&self.nodes, self.bank.len())
    }

    /// The number of gates.
    pub fn gates(&self) -> (n: usize)
        ensures
            n == self@.nodes.len(),
    {
        self.nodes.len()
    }

    /// Empties the wire of every gate, as the first step of an evaluation
    /// that applies the gates one by one.
    pub fn reset(&mut self)
        requires
            old(self).inv(),
        ensures
            final(self).inv(),
            final(self)@ == old(self)@.holding(emptied(old(self)@.nodes, old(self)@.bank)),
    {
        crate::engine::clear(&self.nodes, &mut self.bank);
        proof {
            assert(self@.inputs == old(self)@.inputs);
            assert(self@.outputs == old(self)@.outputs);
            lemma_entered_kept(old(self)@, self@);
        }
    }

    /// Applies gate `k` alone: writes to its wire what it computes from the
    /// wires it reads, and nothing where an input has no value. Fails where
    /// nothing was written, and where there is no gate `k`.
    pub fn apply(&mut self, k: usize) -> (r: Result<(), ConnectionError>) where T: LogicOps
        requires
            old(self).inv(),
        ensures
            final(self).inv(),
            k < old(self)@.nodes.len() ==> final(self)@ == old(self)@.holding(
                old(self)@.nodes[k as int].applied(old(self)@.bank),
            ) && (r is Ok <==> old(self)@.nodes[k as int].value(old(self)@.bank) is Some),
            k >= old(self)@.nodes.len() ==> r is Err && final(self)@ == old(self)@,
    {
        if k >= self.nodes.len() {
            return Err(ConnectionError);
        }
        let r = self.nodes[k].culc(&mut self.bank);
        proof {
            assert(self@.inputs == old(self)@.inputs);
            assert(self@.outputs == old(self)@.outputs);
            lemma_entered_kept(old(self)@, self@);
        }
        r
    }

    /// Takes the value off the declared output `id`, leaving the wire empty:
    /// `None` is returned where no value is there. Fails, changing nothing,
    /// where `id` is no declared output.
    pub fn get_output(&mut self, id: WireId) -> (r: Result<Option<T>, LookupError>)
        requires
            old(self).inv(),
        ensures
            final(self).inv(),
            r == old(self)@.result(id),
            final(self)@ == old(self)@.taken(id),
    {
        let i = match position(&self.output, id) {
            Ok(i) => i,
            Err(_) => { return Err(LookupError::UnknownOutput); },
        };
        proof {
            lemma_place(self.output@, i as int);
        }
        let mut wire = self.output[i].1;
        let r = match wire.read_and_clear(&mut self.bank) {
            Ok(value) => Ok(value),
            Err(_) => Err(LookupError::UnknownOutput),
        };
        proof {
            assert(self@.inputs == old(self)@.inputs);
            assert(self@.outputs == old(self)@.outputs);
            lemma_entered_kept(old(self)@, self@);
        }
        r
    }
}

/// A circuit whose primary inputs are those of another has a primary input
/// for every slot for which the other has one.
proof fn lemma_entered_kept<T>(a: CircuitView<T>, b: CircuitView<T>)
    requires
        a.inputs == b.inputs,
        a.base() == b.base(),
        forall|s: int| 0 <= s < a.base() ==> #[trigger] a.entered(s),
    ensures
        forall|s: int| 0 <= s < b.base() ==> #[trigger] b.entered(s),
{
    assert forall|s: int| 0 <= s < b.base() implies #[trigger] b.entered(s) by {
        assert(a.entered(s));
        let id = choose|id: WireId| a.inputs.contains_key(id) && #[trigger] a.inputs[id] == s;
        assert(b.inputs.contains_key(id) && b.inputs[id] == s);
    }
}

} // verus!
