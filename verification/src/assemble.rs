//! The passes that turn a module into the parts of a circuit: wires for the
//! primary inputs, one gate for each cell, and the wiring between them.

use vstd::prelude::*;
use crate::index::{ascending, insert_entry, lemma_place, listed, place, position};
use crate::node::CircuitNode;
use crate::wire::{WireBank, WireIn, WireOut};
use crate::yosys_parse::{port_bits, CellType, Direction, ModuleElem, WireId};

verus! {

/// Why no circuit can be built from a module.
#[derive(Clone, Copy, Debug, PartialEq, Eq, Structural)]
pub enum ConfigurationError {
    /// Two cells drive the same wire.
    DuplicateOutput,
    /// A pin of a cell is attached to no wire, or to a wire without a source.
    DanglingWire,
    /// A port is both input and output.
    UnsupportedDirection,
    /// A wire that leaves the module has no source.
    UnknownOutput,
}

impl ModuleElem {
    /// The reason why no circuit can be built from the module, if there is
    /// one. Of several, the one found first counts: the ports are looked at
    /// before the cells' outputs, those before the cells' wiring, and that
    /// before the wires that leave the module.
    pub open spec fn fault(&self) -> Option<ConfigurationError> {
        if self.bidirectional() {
            Some(ConfigurationError::UnsupportedDirection)
        } else if self.contended() {
            Some(ConfigurationError::DuplicateOutput)
        } else if self.dangling() {
            Some(ConfigurationError::DanglingWire)
        } else if self.unanswered() {
            Some(ConfigurationError::UnknownOutput)
        } else {
            None
        }
    }
}

/// Whether some entry holds the write endpoint for slot `slot`.
pub open spec fn held<T>(entries: Seq<(WireId, WireIn<T>)>, slot: int) -> bool {
    exists|j: int| 0 <= j < entries.len() && (#[trigger] entries[j]).1.slot() == slot
}

/// Whether the write endpoints are for the slots below `slots`, one for each
/// slot.
pub open spec fn spread<T>(entries: Seq<(WireId, WireIn<T>)>, slots: nat) -> bool {
    &&& forall|j: int| 0 <= j < entries.len() ==> (#[trigger] entries[j]).1.slot() < slots
    &&& forall|i: int, j: int|
        0 <= i < j < entries.len() ==> (#[trigger] entries[i]).1.slot() != (
        #[trigger] entries[j]).1.slot()
    &&& forall|s: int| 0 <= s < slots ==> #[trigger] held(entries, s)
}

/// Whether every slot of the bank is empty.
pub open spec fn blank<T>(bank: Seq<Option<T>>) -> bool {
    forall|s: int| 0 <= s < bank.len() ==> (#[trigger] bank[s]) is None
}

/// Adds a wire for the primary input `id`, unless it has one.
fn admit_input<T>(input: &mut Vec<(WireId, WireIn<T>)>, bank: &mut WireBank<T>, id: WireId)
    requires
        ascending(old(input)@),
        spread(old(input)@, old(bank)@.len()),
        blank(old(bank)@),
    ensures
        ascending(final(input)@),
        spread(final(input)@, final(bank)@.len()),
        blank(final(bank)@),
        final(bank)@.len() - final(input)@.len() == old(bank)@.len() - old(input)@.len(),
        forall|other: WireId| #[trigger]
            listed(final(input)@, other) <==> other == id || listed(old(input)@, other),
{
    match position(input, id) {
        Ok(_) => {},
        Err(at) => {
            let wire = WireIn::empty_wire(bank);
            insert_entry(input, at, id, wire);
            proof {
                let before = old(input)@;
                let after = input@;
                assert forall|s: int| 0 <= s < bank@.len() implies #[trigger] held(after, s) by {
                    if s < old(bank)@.len() {
                        assert(held(before, s));
                        let j = choose|j: int|
                            0 <= j < before.len() && (#[trigger] before[j]).1.slot() == s;
                        if j < at {
                            assert(after[j].1.slot() == s);
                        } else {
                            assert(after[j + 1].1.slot() == s);
                        }
                    } else {
                        assert(after[at as int].1.slot() == s);
                    }
                }
            }
        },
    }
}

/// The first pass over the ports: a wire for each bit that enters the
/// module, and the list of the bits that leave it.
pub(crate) fn collect_ports<T>(module: &ModuleElem, bank: &mut WireBank<T>) -> (r: Result<
    (Vec<(WireId, WireIn<T>)>, Vec<WireId>),
    ConfigurationError,
>)
    requires
        old(bank)@.len() == 0,
    ensures
        match r {
            Ok((input, wanted)) => {
                &&& !module.bidirectional()
                &&& ascending(input@)
                &&& spread(input@, final(bank)@.len())
                &&& blank(final(bank)@)
                &&& final(bank)@.len() == input@.len()
                &&& wanted@ == module.output_bits()
                &&& forall|id: WireId| #[trigger]
                    listed(input@, id) <==> module.input_bits().contains(id)
            },
            Err(e) => module.bidirectional() && e == ConfigurationError::UnsupportedDirection,
        },
{
    let mut input: Vec<(WireId, WireIn<T>)> = Vec::new();
    let mut wanted: Vec<WireId> = Vec::new();
    let mut i: usize = 0;
    while i < module.ports.len()
        invariant
            i <= module.ports@.len(),
            forall|p: int| 0 <= p < i ==> (#[trigger] module.ports@[p]).1.direction != Direction::InOut,
            ascending(input@),
            spread(input@, bank@.len()),
            blank(bank@),
            bank@.len() == input@.len(),
            wanted@ == port_bits(module.ports@, Direction::Out, i as nat),
            forall|id: WireId| #[trigger]
                listed(input@, id) <==> port_bits(module.ports@, Direction::In, i as nat).contains(
                    id,
                ),
        decreases module.ports@.len() - i,
    {
        let port = &module.ports[i].1;
        let ghost before = port_bits(module.ports@, Direction::In, i as nat);
        let ghost held = wanted@;
        proof {
            let ports = module.ports@;
            assert(port_bits(ports, Direction::In, i as nat + 1) == if port.direction
                == Direction::In {
                before + port.bits@
            } else {
                before
            });
            assert(port_bits(ports, Direction::Out, i as nat + 1) == if port.direction
                == Direction::Out {
                held + port.bits@
            } else {
                held
            });
        }
        match port.direction {
            Direction::In => {
                let mut j: usize = 0;
                while j < port.bits.len()
                    invariant
                        j <= port.bits@.len(),
                        ascending(input@),
                        spread(input@, bank@.len()),
                        blank(bank@),
                        bank@.len() == input@.len(),
                        forall|id: WireId| #[trigger]
                            listed(input@, id) <==> before.contains(id) || port.bits@.take(
                                j as int,
                            ).contains(id),
                    decreases port.bits@.len() - j,
                {
                    let ghost earlier = input@;
                    admit_input(&mut input, bank, port.bits[j]);
                    proof {
                        let now = port.bits@.take(j as int + 1);
                        let was = port.bits@.take(j as int);
                        let bit = port.bits@[j as int];
                        assert(now == was.push(bit));
                        assert forall|id: WireId| #[trigger]
                            listed(input@, id) <==> before.contains(id) || now.contains(id) by {
                            assert(listed(input@, id) <==> id == bit || listed(earlier, id));
                            assert(listed(earlier, id) <==> before.contains(id) || was.contains(id));
                            if was.contains(id) {
                                let q = choose|q: int| 0 <= q < was.len() && was[q] == id;
                                assert(now[q] == id);
                            }
                            if id == bit {
                                assert(now[j as int] == id);
                            }
                            if now.contains(id) {
                                let q = choose|q: int| 0 <= q < now.len() && now[q] == id;
                                if q < j {
                                    assert(was[q] == id);
                                }
                            }
                        }
                    }
                    j += 1;
                }
                proof {
                    assert(port.bits@.take(port.bits@.len() as int) == port.bits@);
                    lemma_contains_add(before, port.bits@);
                }
            },
            Direction::Out => {
                let mut j: usize = 0;
                while j < port.bits.len()
                    invariant
                        j <= port.bits@.len(),
                        wanted@ == held + port.bits@.take(j as int),
                    decreases port.bits@.len() - j,
                {
                    wanted.push(port.bits[j]);
                    proof {
                        assert(port.bits@.take(j as int + 1) == port.bits@.take(j as int).push(
                            port.bits@[j as int],
                        ));
                    }
                    j += 1;
                }
                proof {
                    assert(port.bits@.take(port.bits@.len() as int) == port.bits@);
                }
            },
            Direction::InOut => {
                return Err(ConfigurationError::UnsupportedDirection);
            },
        }
        i += 1;
    }
    Ok((input, wanted))
}

/// Whether the entries name the cell that drives a wire, for each wire that
/// one of the first `n` cells drives, and for no other.
pub open spec fn indexes(drivers: Seq<(WireId, usize)>, module: &ModuleElem, n: nat) -> bool {
    &&& forall|p: int|
        0 <= p < drivers.len() ==> (#[trigger] drivers[p]).1 < n && module.drives(
            drivers[p].1 as int,
            drivers[p].0,
        )
    &&& forall|k: int, id: WireId|
        0 <= k < n && #[trigger] module.drives(k, id) ==> listed(drivers, id)
}

/// The first pass over the cells: which cell drives which wire. Fails where
/// two cells drive the same.
pub(crate) fn index_cells(module: &ModuleElem) -> (r: Result<Vec<(WireId, usize)>, ConfigurationError>)
    ensures
        match r {
            Ok(drivers) => {
                &&& !module.contended()
                &&& ascending(drivers@)
                &&& indexes(drivers@, module, module.cells@.len())
            },
            Err(e) => module.contended() && e == ConfigurationError::DuplicateOutput,
        },
{
    let mut drivers: Vec<(WireId, usize)> = Vec::new();
    let mut k: usize = 0;
    while k < module.cells.len()
        invariant
            k <= module.cells@.len(),
            ascending(drivers@),
            indexes(drivers@, module, k as nat),
            forall|i: int, id: WireId, j: int|
                0 <= i < k && 0 <= j < k && i != j && #[trigger] module.drives(i, id)
                    ==> !#[trigger] module.drives(j, id),
        decreases module.cells@.len() - k,
    {
        let ghost earlier = drivers@;
        match module.cells[k].1.output_wireid() {
            Some(id) => {
                assert(module.drives(k as int, id));
                match position(&drivers, id) {
                    Ok(p) => {
                        assert(module.drives(drivers@[p as int].1 as int, id));
                        return Err(ConfigurationError::DuplicateOutput);
                    },
                    Err(at) => {
                        insert_entry(&mut drivers, at, id, k);
                        proof {
                            assert forall|p: int| 0 <= p < drivers@.len() implies (
                            #[trigger] drivers@[p]).1 < k + 1 && module.drives(
                                drivers@[p].1 as int,
                                drivers@[p].0,
                            ) by {
                                if p < at {
                                    assert(drivers@[p] == earlier[p]);
                                } else if p > at {
                                    assert(drivers@[p] == earlier[p - 1]);
                                }
                            }
                            assert forall|i: int, other: WireId, j: int|
                                0 <= i < k + 1 && 0 <= j < k + 1 && i != j
                                    && #[trigger] module.drives(i, other) implies !#[trigger] module.drives(
                                j,
                                other,
                            ) by {
                                if module.drives(j, other) && (i == k || j == k) {
                                    assert(other == id);
                                    assert(listed(earlier, id));
                                }
                            }
                        }
                    },
                }
            },
            None => {},
        }
        k += 1;
    }
    proof {
        if module.contended() {
            let (i, id, j) = choose|i: int, id: WireId, j: int|
                i != j && #[trigger] module.drives(i, id) && #[trigger] module.drives(j, id);
            assert(!module.drives(j, id));
        }
    }
    Ok(drivers)
}

/// One gate for each cell, of the cell's kind, driving a new wire of its
/// own; and the id of the wire that each cell drives. The inputs of the gates
/// are not wired yet.
pub(crate) fn allocate_gates<T>(module: &ModuleElem, bank: &mut WireBank<T>) -> (r: (
    Vec<CircuitNode<T>>,
    Vec<WireId>,
))
    requires
        blank(old(bank)@),
    ensures
        blank(final(bank)@),
        final(bank)@.len() == old(bank)@.len() + module.cells@.len(),
        r.0@.len() == module.cells@.len(),
        r.1@.len() == module.cells@.len(),
        forall|k: int|
            0 <= k < module.cells@.len() ==> {
                &&& (#[trigger] r.0@[k]).kind() == module.cells@[k].1.kind
                &&& r.0@[k].driven().slot() == old(bank)@.len() + k
                &&& r.0@[k].first() is None
                &&& r.0@[k].second() is None
            },
        forall|k: int|
            0 <= k < module.cells@.len() && module.cells@[k].1.output() is Some ==> Some(
                #[trigger] r.1@[k],
            ) == module.cells@[k].1.output(),
{
    let mut nodes: Vec<CircuitNode<T>> = Vec::new();
    let mut ids: Vec<WireId> = Vec::new();
    let mut k: usize = 0;
    while k < module.cells.len()
        invariant
            k <= module.cells@.len(),
            blank(bank@),
            bank@.len() == old(bank)@.len() + k,
            nodes@.len() == k,
            ids@.len() == k,
            forall|q: int|
                0 <= q < k ==> {
                    &&& (#[trigger] nodes@[q]).kind() == module.cells@[q].1.kind
                    &&& nodes@[q].driven().slot() == old(bank)@.len() + q
                    &&& nodes@[q].first() is None
                    &&& nodes@[q].second() is None
                },
            forall|q: int|
                0 <= q < k && module.cells@[q].1.output() is Some ==> Some(#[trigger] ids@[q])
                    == module.cells@[q].1.output(),
        decreases module.cells@.len() - k,
    {
        let cell = &module.cells[k].1;
        let out = WireIn::empty_wire(bank);
        nodes.push(CircuitNode::new(cell.kind, out));
        ids.push(
            match cell.output_wireid() {
                Some(id) => id,
                None => 0,
            },
        );
        k += 1;
    }
    (nodes, ids)
}

/// The slot that holds the wire `id`: where a cell drives it, the slot of
/// that cell's gate, or else the slot of the primary input. The gates' slots
/// begin at `base`.
pub open spec fn source<T>(
    module: &ModuleElem,
    input: Seq<(WireId, WireIn<T>)>,
    base: nat,
    id: WireId,
) -> nat {
    if module.driven(id) {
        (base + module.driver(id)) as nat
    } else {
        input[place(input, id)].1.slot()
    }
}

/// Whether the parts fit the module and each other: the primary inputs and
/// the drivers are indexed, and gate `k` drives slot `base + k`.
pub open spec fn fitted<T>(
    module: &ModuleElem,
    input: Seq<(WireId, WireIn<T>)>,
    drivers: Seq<(WireId, usize)>,
    nodes: Seq<CircuitNode<T>>,
    base: nat,
) -> bool {
    &&& !module.contended()
    &&& ascending(input)
    &&& ascending(drivers)
    &&& indexes(drivers, module, module.cells@.len())
    &&& nodes.len() == module.cells@.len()
    &&& forall|id: WireId| #[trigger] listed(input, id) <==> module.input_bits().contains(id)
    &&& forall|k: int| 0 <= k < nodes.len() ==> (#[trigger] nodes[k]).driven().slot() == base + k
}

/// The read endpoint of the wire `id`: that of its driving gate, or else
/// that of the primary input; nothing where the wire has no source.
pub(crate) fn resolve<T>(
    module: &ModuleElem,
    input: &Vec<(WireId, WireIn<T>)>,
    drivers: &Vec<(WireId, usize)>,
    nodes: &Vec<CircuitNode<T>>,
    base: usize,
    id: WireId,
) -> (r: Option<WireOut<T>>)
    requires
        fitted(module, input@, drivers@, nodes@, base as nat),
    ensures
        match r {
            Some(wire) => module.known(id) && wire.slot() == source(
                module,
                input@,
                base as nat,
                id,
            ),
            None => !module.known(id),
        },
{
    match position(drivers, id) {
        Ok(p) => {
            let k = drivers[p].1;
            proof {
                assert(module.drives(k as int, id));
                if module.driver(id) != k {
                    assert(module.drives(module.driver(id), id));
                }
            }
            Some(nodes[k].out_wire())
        },
        Err(_) => {
            proof {
                if module.driven(id) {
                    assert(module.drives(module.driver(id), id));
                }
            }
            match position(input, id) {
                Ok(q) => {
                    proof {
                        lemma_place(input@, q as int);
                    }
                    Some(input[q].1.get_out())
                },
                Err(_) => None,
            }
        },
    }
}

/// Whether `node` reads the wires that cell `k` reads, in order.
pub open spec fn joined<T>(
    node: CircuitNode<T>,
    module: &ModuleElem,
    input: Seq<(WireId, WireIn<T>)>,
    base: nat,
    k: int,
) -> bool {
    let wires = module.cells@[k].1.inputs()->0;
    &&& node.first() matches Some(wire) && wire.slot() == source(module, input, base, wires[0])
    &&& if node.kind() == CellType::Not {
        node.second() is None
    } else {
        node.second() matches Some(wire) && wire.slot() == source(module, input, base, wires[1])
    }
}

/// The second pass over the cells: wires the inputs of each gate to the
/// sources of the wires that its cell reads. Fails where a cell has a pin
/// that is not attached.
pub(crate) fn wire_gates<T>(
    module: &ModuleElem,
    input: &Vec<(WireId, WireIn<T>)>,
    drivers: &Vec<(WireId, usize)>,
    nodes: &mut Vec<CircuitNode<T>>,
    base: usize,
) -> (r: Result<(), ConfigurationError>)
    requires
        fitted(module, input@, drivers@, old(nodes)@, base as nat),
        forall|k: int|
            0 <= k < old(nodes)@.len() ==> (#[trigger] old(nodes)@[k]).kind()
                == module.cells@[k].1.kind,
    ensures
        final(nodes)@.len() == old(nodes)@.len(),
        forall|k: int|
            0 <= k < old(nodes)@.len() ==> (#[trigger] final(nodes)@[k]).kind() == old(
                nodes,
            )@[k].kind() && final(nodes)@[k].driven() == old(nodes)@[k].driven(),
        match r {
            Ok(_) => !module.dangling() && forall|k: int|
                0 <= k < final(nodes)@.len() ==> joined(
                    #[trigger] final(nodes)@[k],
                    module,
                    input@,
                    base as nat,
                    k,
                ),
            Err(e) => module.dangling() && e == ConfigurationError::DanglingWire,
        },
{
    let mut k: usize = 0;
    while k < module.cells.len()
        invariant
            k <= module.cells@.len(),
            fitted(module, input@, drivers@, nodes@, base as nat),
            nodes@.len() == old(nodes)@.len(),
            forall|q: int|
                0 <= q < nodes@.len() ==> (#[trigger] nodes@[q]).kind() == old(nodes)@[q].kind()
                    && nodes@[q].driven() == old(nodes)@[q].driven() && nodes@[q].kind()
                    == module.cells@[q].1.kind,
            forall|q: int| 0 <= q < k ==> #[trigger] module.attached(q),
            forall|q: int|
                0 <= q < k ==> joined(#[trigger] nodes@[q], module, input@, base as nat, q),
        decreases module.cells@.len() - k,
    {
        let cell = &module.cells[k].1;
        let wires = match cell.input_wireids() {
            Some(wires) => wires,
            None => {
                assert(!module.attached(k as int));
                return Err(ConfigurationError::DanglingWire);
            },
        };
        if cell.output_wireid().is_none() || wires.len() < cell.kind.inputs() {
            assert(!module.attached(k as int));
            return Err(ConfigurationError::DanglingWire);
        }
        let mut found: Vec<WireOut<T>> = Vec::new();
        let mut j: usize = 0;
        while j < wires.len()
            invariant
                j <= wires@.len(),
                k < module.cells@.len(),
                cell == &module.cells@[k as int].1,
                cell.inputs() == Some(wires@),
                fitted(module, input@, drivers@, nodes@, base as nat),
                nodes@.len() == old(nodes)@.len(),
                forall|q: int|
                    0 <= q < nodes@.len() ==> (#[trigger] nodes@[q]).kind() == old(
                        nodes,
                    )@[q].kind() && nodes@[q].driven() == old(nodes)@[q].driven(),
                found@.len() == j,
                forall|q: int| 0 <= q < j ==> module.known(#[trigger] wires@[q]),
                forall|q: int|
                    0 <= q < j ==> (#[trigger] found@[q]).slot() == source(
                        module,
                        input@,
                        base as nat,
                        wires@[q],
                    ),
            decreases wires@.len() - j,
        {
            match resolve(module, input, drivers, nodes, base, wires[j]) {
                Some(wire) => {
                    found.push(wire);
                },
                None => {
                    assert(!module.attached(k as int));
                    return Err(ConfigurationError::DanglingWire);
                },
            }
            j += 1;
        }
        let first = found[0];
        let second = if cell.kind.inputs() == 2 {
            found[1]
        } else {
            found[0]
        };
        let ghost earlier = nodes@;
        nodes[k].connect(first, second);
        proof {
            assert(module.attached(k as int));
            assert forall|q: int| 0 <= q < k + 1 implies joined(
                #[trigger] nodes@[q],
                module,
                input@,
                base as nat,
                q,
            ) by {
                if q < k {
                    assert(nodes@[q] == earlier[q]);
                }
            }
        }
        k += 1;
    }
    proof {
        if module.dangling() {
            let q = choose|q: int| 0 <= q < module.cells@.len() && !#[trigger] module.attached(q);
            assert(module.attached(q));
        }
    }
    Ok(())
}

/// The last pass: a read endpoint for each wire that leaves the module, at
/// the source of that wire. Fails where such a wire has no source.
pub(crate) fn collect_outputs<T>(
    module: &ModuleElem,
    wanted: &Vec<WireId>,
    input: &Vec<(WireId, WireIn<T>)>,
    drivers: &Vec<(WireId, usize)>,
    nodes: &Vec<CircuitNode<T>>,
    base: usize,
) -> (r: Result<Vec<(WireId, WireOut<T>)>, ConfigurationError>)
    requires
        fitted(module, input@, drivers@, nodes@, base as nat),
        wanted@ == module.output_bits(),
    ensures
        match r {
            Ok(output) => {
                &&& !module.unanswered()
                &&& ascending(output@)
                &&& forall|id: WireId| #[trigger]
                    listed(output@, id) <==> module.output_bits().contains(id)
                &&& forall|j: int|
                    0 <= j < output@.len() ==> (#[trigger] output@[j]).1.slot() == source(
                        module,
                        input@,
                        base as nat,
                        output@[j].0,
                    )
            },
            Err(e) => module.unanswered() && e == ConfigurationError::UnknownOutput,
        },
{
    let mut output: Vec<(WireId, WireOut<T>)> = Vec::new();
    let mut i: usize = 0;
    while i < wanted.len()
        invariant
            i <= wanted@.len(),
            fitted(module, input@, drivers@, nodes@, base as nat),
            wanted@ == module.output_bits(),
            ascending(output@),
            forall|q: int| 0 <= q < i ==> module.known(#[trigger] wanted@[q]),
            forall|id: WireId| #[trigger]
                listed(output@, id) <==> wanted@.take(i as int).contains(id),
            forall|j: int|
                0 <= j < output@.len() ==> (#[trigger] output@[j]).1.slot() == source(
                    module,
                    input@,
                    base as nat,
                    output@[j].0,
                ),
        decreases wanted@.len() - i,
    {
        let id = wanted[i];
        let wire = match resolve(module, input, drivers, nodes, base, id) {
            Some(wire) => wire,
            None => {
                assert(!module.known(module.output_bits()[i as int]));
                return Err(ConfigurationError::UnknownOutput);
            },
        };
        let ghost earlier = output@;
        match position(&output, id) {
            Ok(p) => {
                assert(listed(earlier, id));
            },
            Err(at) => {
                insert_entry(&mut output, at, id, wire);
                proof {
                    assert forall|j: int| 0 <= j < output@.len() implies (
                    #[trigger] output@[j]).1.slot() == source(
                        module,
                        input@,
                        base as nat,
                        output@[j].0,
                    ) by {
                        if j < at {
                            assert(output@[j] == earlier[j]);
                        } else if j > at {
                            assert(output@[j] == earlier[j - 1]);
                        }
                    }
                }
            },
        }
        proof {
            let now = wanted@.take(i as int + 1);
            let was = wanted@.take(i as int);
            assert(now == was.push(id));
            assert forall|other: WireId| #[trigger]
                listed(output@, other) <==> now.contains(other) by {
                assert(listed(output@, other) <==> other == id || listed(earlier, other));
                assert(listed(earlier, other) <==> was.contains(other));
                if was.contains(other) {
                    let q = choose|q: int| 0 <= q < was.len() && was[q] == other;
                    assert(now[q] == other);
                }
                if other == id {
                    assert(now[i as int] == other);
                }
                if now.contains(other) {
                    let q = choose|q: int| 0 <= q < now.len() && now[q] == other;
                    if q < i {
                        assert(was[q] == other);
                    }
                }
            }
        }
        i += 1;
    }
    proof {
        assert(wanted@.take(wanted@.len() as int) == wanted@);
        if module.unanswered() {
            let j = choose|j: int|
                0 <= j < module.output_bits().len() && !module.known(
                    #[trigger] module.output_bits()[j],
                );
            assert(module.known(wanted@[j]));
        }
    }
    Ok(output)
}

/// A wire is among two runs of wires put together exactly when it is in one
/// of them.
proof fn lemma_contains_add(a: Seq<WireId>, b: Seq<WireId>)
    ensures
        forall|id: WireId| (a + b).contains(id) <==> a.contains(id) || b.contains(id),
{
    assert forall|id: WireId| (a + b).contains(id) <==> a.contains(id) || b.contains(id) by {
        if a.contains(id) {
            let q = choose|q: int| 0 <= q < a.len() && a[q] == id;
            assert((a + b)[q] == id);
        }
        if b.contains(id) {
            let q = choose|q: int| 0 <= q < b.len() && b[q] == id;
            assert((a + b)[a.len() + q] == id);
        }
        if (a + b).contains(id) {
            let q = choose|q: int| 0 <= q < (a + b).len() && (a + b)[q] == id;
            if q < a.len() {
                assert(a[q] == id);
            } else {
                assert(b[q - a.len()] == id);
            }
        }
    }
}

} // verus!
