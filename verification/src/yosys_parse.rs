//! The decoded form of a gate-level netlist: ports with their directions and
//! bits, and cells with their named, directed connections.
//!
//! Where the netlist format keys entries by name, the entries are kept here as
//! a list of pairs, name first, in the order they were decoded.

use vstd::prelude::*;

verus! {

/// Identifies one bit of signal in a netlist.
pub type WireId = u32;

/// The direction of a port, seen from the module or cell that has it.
#[derive(Clone, Copy, Debug, PartialEq, Eq, Structural)]
pub enum Direction {
    In,
    Out,
    InOut,
}

/// A port of a module.
#[derive(Debug)]
pub struct PortElem {
    pub direction: Direction,
    pub bits: Vec<WireId>,
}

/// The kind of gate a cell stands for.
#[derive(Clone, Copy, Debug, PartialEq, Eq, Structural)]
pub enum CellType {
    And,
    Nand,
    Or,
    Nor,
    Xor,
    Nxor,
    Not,
}

impl CellType {
    /// How many inputs a gate of this kind reads.
    pub open spec fn arity(self) -> nat {
        match self {
            CellType::Not => 1,
            _ => 2,
        }
    }

    /// How many inputs a gate of this kind reads.
    pub fn inputs(&self) -> (n: usize)
        ensures
            n == self.arity(),
    {
        match self {
            CellType::Not => 1,
            _ => 2,
        }
    }
}

/// A cell: one gate, with the direction of each of its ports and the bits
/// connected to each.
#[derive(Debug)]
pub struct CellElem {
    pub hide_name: i32,
    pub kind: CellType,
    pub port_directions: Vec<(String, Direction)>,
    pub connections: Vec<(String, Vec<WireId>)>,
}

/// A module: what a circuit is built from.
#[derive(Debug)]
pub struct ModuleElem {
    pub ports: Vec<(String, PortElem)>,
    pub cells: Vec<(String, CellElem)>,
}

/// The name of the last of the first `n` ports that has direction `Out`.
pub open spec fn last_output(ports: Seq<(String, Direction)>, n: nat) -> Option<Seq<char>>
    decreases n,
{
    if n == 0 {
        None
    } else if ports[n - 1].1 == Direction::Out {
        Some(ports[n - 1].0@)
    } else {
        last_output(ports, (n - 1) as nat)
    }
}

/// The bits connected under `name`: those of the first entry of that name,
/// looking from entry `from` on.
pub open spec fn connected(
    connections: Seq<(String, Vec<WireId>)>,
    name: Seq<char>,
    from: nat,
) -> Option<Seq<WireId>>
    decreases connections.len() - from,
{
    if from >= connections.len() {
        None
    } else if connections[from as int].0@ == name {
        Some(connections[from as int].1@)
    } else {
        connected(connections, name, from + 1)
    }
}

/// The wire on the port `name`: the last of the bits connected under it.
pub open spec fn pin(connections: Seq<(String, Vec<WireId>)>, name: Seq<char>) -> Option<WireId> {
    match connected(connections, name, 0) {
        Some(bits) => if bits.len() > 0 {
            Some(bits.last())
        } else {
            None
        },
        None => None,
    }
}

/// The names of those of the first `n` ports that have direction `In`, in
/// order.
pub open spec fn input_names(ports: Seq<(String, Direction)>, n: nat) -> Seq<Seq<char>>
    decreases n,
{
    if n == 0 {
        Seq::empty()
    } else if ports[n - 1].1 == Direction::In {
        input_names(ports, (n - 1) as nat).push(ports[n - 1].0@)
    } else {
        input_names(ports, (n - 1) as nat)
    }
}

/// The wires on the first `n` of the ports `names`, in order; nothing where
/// one of them carries no wire.
pub open spec fn pins(
    connections: Seq<(String, Vec<WireId>)>,
    names: Seq<Seq<char>>,
    n: nat,
) -> Option<Seq<WireId>>
    decreases n,
{
    if n == 0 {
        Some(Seq::empty())
    } else {
        match (pins(connections, names, (n - 1) as nat), pin(connections, names[n - 1])) {
            (Some(wires), Some(wire)) => Some(wires.push(wire)),
            _ => None,
        }
    }
}

impl CellElem {
    /// The name of the cell's output port: the last port with direction
    /// `Out`, if there is one.
    pub open spec fn output_name(&self) -> Option<Seq<char>> {
        last_output(self.port_directions@, self.port_directions@.len())
    }

    /// The bits connected to the output port.
    pub open spec fn output_bits(&self) -> Option<Seq<WireId>> {
        match self.output_name() {
            Some(name) => connected(self.connections@, name, 0),
            None => None,
        }
    }

    /// The wire that the cell drives.
    pub open spec fn output(&self) -> Option<WireId> {
        match self.output_name() {
            Some(name) => pin(self.connections@, name),
            None => None,
        }
    }

    /// The wires that the cell reads, one for each port with direction `In`,
    /// in the order of the ports; nothing where such a port carries no wire.
    pub open spec fn inputs(&self) -> Option<Seq<WireId>> {
        let names = input_names(self.port_directions@, self.port_directions@.len());
        pins(self.connections@, names, names.len())
    }

    /// The entry of `connections` under `name`.
    fn connection(&self, name: &String) -> (bits: Option<&Vec<WireId>>)
        ensures
            match bits {
                Some(found) => connected(self.connections@, name@, 0) == Some(found@),
                None => connected(self.connections@, name@, 0) is None,
            },
    {
        let mut i: usize = 0;
        while i < self.connections.len()
            invariant
                i <= self.connections@.len(),
                connected(self.connections@, name@, 0) == connected(
                    self.connections@,
                    name@,
                    i as nat,
                ),
            decreases self.connections@.len() - i,
        {
            if self.connections[i].0 == *name {
                return Some(&self.connections[i].1);
            }
            i += 1;
        }
        None
    }

    /// The name of the output port.
    pub fn output_wirename(&self) -> (name: Option<&String>)
        ensures
            match name {
                Some(found) => self.output_name() == Some(found@),
                None => self.output_name() is None,
            },
    {
        let mut i: usize = self.port_directions.len();
        while i > 0
            invariant
                i <= self.port_directions@.len(),
                self.output_name() == last_output(self.port_directions@, i as nat),
            decreases i,
        {
            i -= 1;
            if self.port_directions[i].1 == Direction::Out {
                return Some(&self.port_directions[i].0);
            }
        }
        None
    }

    /// The bits connected to the output port.
    pub fn output_wireids(&self) -> (bits: Option<&Vec<WireId>>)
        ensures
            match bits {
                Some(found) => self.output_bits() == Some(found@),
                None => self.output_bits() is None,
            },
    {
        match self.output_wirename() {
            Some(name) => self.connection(name),
            None => None,
        }
    }

    /// The wire that the cell drives: the last bit on its output port.
    pub fn output_wireid(&self) -> (wire: Option<WireId>)
        ensures
            wire == self.output(),
    {
        match self.output_wireids() {
            Some(bits) => if bits.len() > 0 {
                Some(bits[bits.len() - 1])
            } else {
                None
            },
            None => None,
        }
    }

    /// The names of the input ports, in the order of the ports.
    pub fn input_wirenames(&self) -> (names: Vec<&String>)
        ensures
            names@.len() == input_names(
                self.port_directions@,
                self.port_directions@.len(),
            ).len(),
            forall|k: int|
                0 <= k < names@.len() ==> (#[trigger] names@[k])@ == input_names(
                    self.port_directions@,
                    self.port_directions@.len(),
                )[k],
    {
        let mut names: Vec<&String> = Vec::new();
        let mut i: usize = 0;
        while i < self.port_directions.len()
            invariant
                i <= self.port_directions@.len(),
                names@.len() == input_names(self.port_directions@, i as nat).len(),
                forall|k: int|
                    0 <= k < names@.len() ==> (#[trigger] names@[k])@ == input_names(
                        self.port_directions@,
                        i as nat,
                    )[k],
            decreases self.port_directions@.len() - i,
        {
            if self.port_directions[i].1 == Direction::In {
                names.push(&self.port_directions[i].0);
            }
            i += 1;
        }
        names
    }

    /// The wires that the cell reads: the last bit on each input port.
    pub fn input_wireids(&self) -> (wires: Option<Vec<WireId>>)
        ensures
            match wires {
                Some(found) => self.inputs() == Some(found@),
                None => self.inputs() is None,
            },
    {
        let names = self.input_wirenames();
        let ghost wanted = input_names(self.port_directions@, self.port_directions@.len());
        let mut wires: Vec<WireId> = Vec::new();
        let mut i: usize = 0;
        while i < names.len()
            invariant
                i <= names@.len(),
                wanted == input_names(self.port_directions@, self.port_directions@.len()),
                names@.len() == wanted.len(),
                forall|k: int| 0 <= k < names@.len() ==> (#[trigger] names@[k])@ == wanted[k],
                pins(self.connections@, wanted, i as nat) == Some(wires@),
            decreases names@.len() - i,
        {
            let bits = match self.connection(names[i]) {
                Some(bits) => bits,
                None => {
                    proof {
                        lemma_pins_stay_missing(self.connections@, wanted, i as nat + 1, wanted.len());
                    }
                    return None;
                },
            };
            if bits.len() == 0 {
                proof {
                    lemma_pins_stay_missing(self.connections@, wanted, i as nat + 1, wanted.len());
                }
                return None;
            }
            wires.push(bits[bits.len() - 1]);
            i += 1;
        }
        Some(wires)
    }
}

/// The bits of those of the first `n` ports that have direction `direction`,
/// port after port.
pub open spec fn port_bits(ports: Seq<(String, PortElem)>, direction: Direction, n: nat) -> Seq<
    WireId,
>
    decreases n,
{
    if n == 0 {
        Seq::empty()
    } else if ports[n - 1].1.direction == direction {
        port_bits(ports, direction, (n - 1) as nat) + ports[n - 1].1.bits@
    } else {
        port_bits(ports, direction, (n - 1) as nat)
    }
}

impl ModuleElem {
    /// The wires that enter the module: the bits of its input ports.
    pub open spec fn input_bits(&self) -> Seq<WireId> {
        port_bits(self.ports@, Direction::In, self.ports@.len())
    }

    /// The wires that leave the module: the bits of its output ports.
    pub open spec fn output_bits(&self) -> Seq<WireId> {
        port_bits(self.ports@, Direction::Out, self.ports@.len())
    }

    /// Whether some port is both an input and an output.
    pub open spec fn bidirectional(&self) -> bool {
        exists|i: int| 0 <= i < self.ports@.len() && (#[trigger] self.ports@[i]).1.direction == Direction::InOut
    }

    /// Whether cell `k` drives the wire `id`.
    pub open spec fn drives(&self, k: int, id: WireId) -> bool {
        0 <= k < self.cells@.len() && self.cells@[k].1.output() == Some(id)
    }

    /// Whether some cell drives the wire `id`.
    pub open spec fn driven(&self, id: WireId) -> bool {
        exists|k: int| self.drives(k, id)
    }

    /// A cell that drives the wire `id`.
    pub open spec fn driver(&self, id: WireId) -> int {
        choose|k: int| self.drives(k, id)
    }

    /// Whether two cells drive the same wire.
    pub open spec fn contended(&self) -> bool {
        exists|i: int, id: WireId, j: int|
            i != j && #[trigger] self.drives(i, id) && #[trigger] self.drives(j, id)
    }

    /// Whether the wire `id` has a source: a cell drives it, or it enters the
    /// module.
    pub open spec fn known(&self, id: WireId) -> bool {
        self.driven(id) || self.input_bits().contains(id)
    }

    /// Whether every pin of cell `k` is attached: it drives a wire, it reads
    /// at least as many wires as its kind takes, and each wire it reads has a
    /// source.
    pub open spec fn attached(&self, k: int) -> bool {
        let cell = self.cells@[k].1;
        &&& cell.output() is Some
        &&& cell.inputs() matches Some(wires)
        &&& wires.len() >= cell.kind.arity()
        &&& forall|j: int| 0 <= j < wires.len() ==> self.known(#[trigger] wires[j])
    }

    /// Whether some cell has a pin that is not attached.
    pub open spec fn dangling(&self) -> bool {
        exists|k: int| 0 <= k < self.cells@.len() && !#[trigger] self.attached(k)
    }

    /// Whether some wire that leaves the module has no source.
    pub open spec fn unanswered(&self) -> bool {
        exists|j: int|
            0 <= j < self.output_bits().len() && !self.known(#[trigger] self.output_bits()[j])
    }
}

/// Once a port without a wire has been met, no longer run of ports has all
/// its wires.
proof fn lemma_pins_stay_missing(
    connections: Seq<(String, Vec<WireId>)>,
    names: Seq<Seq<char>>,
    n: nat,
    m: nat,
)
    requires
        n <= m,
        pins(connections, names, n) is None,
    ensures
        pins(connections, names, m) is None,
    decreases m,
{
    if n < m {
        lemma_pins_stay_missing(connections, names, n, (m - 1) as nat);
    }
}

} // verus!
