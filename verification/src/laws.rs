//! What holds of every evaluation: the value on a gate's wire is the
//! composition of the gates' functions along the chain of its producers, and
//! the order in which independent gates are applied is of no consequence.

use vstd::prelude::*;
use crate::assemble::ConfigurationError;
use crate::circuit::{CircuitView, LookupError};
use crate::engine::{emptied, lemma_value_frame, orderly, out, settled};
use crate::node::CircuitNode;
use crate::traits::LogicOps;
use crate::wire::WireOut;
use crate::yosys_parse::{ModuleElem, WireId};

verus! {

/// Whether `rank` gives every gate a level below the number of gates, each
/// gate above all gates whose wires it reads. A network has such levels
/// exactly when it is free of feedback.
pub open spec fn levelled<T>(nodes: Seq<CircuitNode<T>>, rank: Seq<nat>) -> bool {
    &&& rank.len() == nodes.len()
    &&& forall|k: int| 0 <= k < nodes.len() ==> #[trigger] rank[k] < nodes.len()
    &&& forall|k: int, p: int|
        0 <= k < nodes.len() && 0 <= p < nodes.len() && nodes[k].reads(
            #[trigger] nodes[p].driven().slot(),
        ) ==> rank[p] < #[trigger] rank[k]
}

/// The value of the wire in slot `slot`, worked out from the wires that no
/// gate drives: such a wire has the value the bank holds; the wire of a gate
/// has the value of its function on the wires it reads. Chains of more than
/// `depth` gates yield nothing.
pub open spec fn composed<T: LogicOps>(
    nodes: Seq<CircuitNode<T>>,
    bank: Seq<Option<T>>,
    slot: nat,
    depth: nat,
) -> Option<T>
    decreases depth, 0nat,
{
    if slot >= bank.len() {
        None
    } else if slot < bank.len() - nodes.len() {
        bank[slot as int]
    } else if depth == 0 {
        None
    } else {
        let node = nodes[slot - (bank.len() - nodes.len())];
        node.combine(
            delivered(nodes, bank, node.first(), (depth - 1) as nat),
            delivered(nodes, bank, node.second(), (depth - 1) as nat),
        )
    }
}

/// The value that an input endpoint delivers, worked out as `composed` does.
pub open spec fn delivered<T: LogicOps>(
    nodes: Seq<CircuitNode<T>>,
    bank: Seq<Option<T>>,
    input: Option<WireOut<T>>,
    depth: nat,
) -> Option<T>
    decreases depth, 1nat,
{
    match input {
        Some(wire) => composed(nodes, bank, wire.slot(), depth),
        None => None,
    }
}

/// In a network free of feedback that has been evaluated, the wire of every
/// gate holds the composition of the gates' functions along the chain of its
/// producers, down to the wires that no gate drives.
pub proof fn lemma_settled_is_composed<T: LogicOps>(
    nodes: Seq<CircuitNode<T>>,
    bank: Seq<Option<T>>,
    rank: Seq<nat>,
    k: int,
    depth: nat,
)
    requires
        orderly(nodes, bank.len()),
        settled(nodes, bank),
        levelled(nodes, rank),
        0 <= k < nodes.len(),
        rank[k] < depth,
    ensures
        bank[out(nodes, k)] == composed(nodes, bank, out(nodes, k) as nat, depth),
    decreases rank[k],
{
    let node = nodes[k];
    let base = bank.len() - nodes.len();
    assert(node.wired(bank.len()));
    assert(out(nodes, k) == base + k);
    let under = (depth - 1) as nat;
    assert(delivered(nodes, bank, node.first(), under) == crate::node::fetch(node.first(), bank))
        by {
        let wire = node.first()->0;
        if wire.slot() >= base {
            let p = wire.slot() - base;
            assert(nodes[p].driven().slot() == wire.slot());
            assert(node.reads(nodes[p].driven().slot()));
            lemma_settled_is_composed(nodes, bank, rank, p, under);
        }
    }
    assert(delivered(nodes, bank, node.second(), under) == crate::node::fetch(
        node.second(),
        bank,
    )) by {
        if node.second() is Some {
            let wire = node.second()->0;
            if wire.slot() >= base && wire.slot() < bank.len() {
                let p = wire.slot() - base;
                assert(nodes[p].driven().slot() == wire.slot());
                assert(node.reads(nodes[p].driven().slot()));
                lemma_settled_is_composed(nodes, bank, rank, p, under);
            }
        }
    }
    assert(bank[out(nodes, k)] == node.value(bank));
}

/// The composition looks at no wire that a gate drives: two banks that hold
/// the same on all other wires give the same.
pub proof fn lemma_composed_frame<T: LogicOps>(
    nodes: Seq<CircuitNode<T>>,
    a: Seq<Option<T>>,
    b: Seq<Option<T>>,
    slot: nat,
    depth: nat,
)
    requires
        a.len() == b.len(),
        nodes.len() <= a.len(),
        forall|s: int| 0 <= s < a.len() - nodes.len() ==> #[trigger] a[s] == b[s],
    ensures
        composed(nodes, a, slot, depth) == composed(nodes, b, slot, depth),
    decreases depth,
{
    if slot < a.len() && slot >= a.len() - nodes.len() && depth > 0 {
        let node = nodes[slot - (a.len() - nodes.len())];
        let under = (depth - 1) as nat;
        if node.first() is Some {
            lemma_composed_frame(nodes, a, b, node.first()->0.slot(), under);
        }
        if node.second() is Some {
            lemma_composed_frame(nodes, a, b, node.second()->0.slot(), under);
        }
    }
}

/// Where every wire that a gate reads and no gate drives holds a value, the
/// composition yields a value for the wire of every gate of a network free of
/// feedback.
pub proof fn lemma_composed_total<T: LogicOps>(
    nodes: Seq<CircuitNode<T>>,
    bank: Seq<Option<T>>,
    rank: Seq<nat>,
    k: int,
    depth: nat,
)
    requires
        orderly(nodes, bank.len()),
        levelled(nodes, rank),
        forall|q: int, s: int|
            0 <= q < nodes.len() && 0 <= s < bank.len() - nodes.len() && (
            #[trigger] nodes[q]).reads(s as nat) ==> (#[trigger] bank[s]) is Some,
        0 <= k < nodes.len(),
        rank[k] < depth,
    ensures
        composed(nodes, bank, out(nodes, k) as nat, depth) is Some,
    decreases rank[k],
{
    let node = nodes[k];
    let base = bank.len() - nodes.len();
    assert(node.wired(bank.len()));
    assert(out(nodes, k) == base + k);
    let under = (depth - 1) as nat;
    let first = node.first()->0;
    assert(delivered(nodes, bank, node.first(), under) is Some) by {
        if first.slot() >= base {
            let p = first.slot() - base;
            assert(nodes[p].driven().slot() == first.slot());
            assert(node.reads(nodes[p].driven().slot()));
            lemma_composed_total(nodes, bank, rank, p, under);
        } else {
            assert(nodes[k].reads(first.slot()));
            assert(bank[first.slot() as int] is Some);
        }
    }
    if node.second() is Some {
        let second = node.second()->0;
        assert(delivered(nodes, bank, node.second(), under) is Some) by {
            if second.slot() >= base {
                let p = second.slot() - base;
                assert(nodes[p].driven().slot() == second.slot());
                assert(node.reads(nodes[p].driven().slot()));
                lemma_composed_total(nodes, bank, rank, p, under);
            } else {
                assert(nodes[k].reads(second.slot()));
                assert(bank[second.slot() as int] is Some);
            }
        }
    }
}

/// A network free of feedback has one evaluation only: two banks that hold
/// the same on the wires that no gate drives, and in each of which every
/// gate's wire holds what that gate computes, are the same bank.
pub proof fn lemma_settled_unique<T: LogicOps>(
    nodes: Seq<CircuitNode<T>>,
    a: Seq<Option<T>>,
    b: Seq<Option<T>>,
    rank: Seq<nat>,
)
    requires
        orderly(nodes, a.len()),
        levelled(nodes, rank),
        a.len() == b.len(),
        forall|s: int| 0 <= s < a.len() - nodes.len() ==> #[trigger] a[s] == b[s],
        settled(nodes, a),
        settled(nodes, b),
    ensures
        a == b,
{
    let base = a.len() - nodes.len();
    assert forall|s: int| 0 <= s < a.len() implies a[s] == b[s] by {
        if s >= base {
            let k = s - base;
            assert(nodes[k].driven().slot() == s);
            lemma_settled_is_composed(nodes, a, rank, k, nodes.len());
            lemma_settled_is_composed(nodes, b, rank, k, nodes.len());
            lemma_composed_frame(nodes, a, b, s as nat, nodes.len());
        }
    }
    assert(a =~= b);
}

/// Whether gate `k` has a place in `order`.
pub open spec fn named(order: Seq<int>, k: int) -> bool {
    exists|i: int| 0 <= i < order.len() && #[trigger] order[i] == k
}

/// Whether `order` names every gate exactly once, each gate after all gates
/// whose wires it reads: an order in which the gates may be applied.
pub open spec fn lawful<T>(nodes: Seq<CircuitNode<T>>, order: Seq<int>) -> bool {
    &&& order.len() == nodes.len()
    &&& forall|i: int| 0 <= i < order.len() ==> 0 <= #[trigger] order[i] < nodes.len()
    &&& forall|i: int, j: int| 0 <= i < j < order.len() ==> order[i] != order[j]
    &&& forall|k: int| 0 <= k < nodes.len() ==> #[trigger] named(order, k)
    &&& forall|i: int, p: int|
        0 <= i < order.len() && 0 <= p < nodes.len() && nodes[#[trigger] order[i]].reads(
            #[trigger] nodes[p].driven().slot(),
        ) ==> exists|j: int| 0 <= j < i && #[trigger] order[j] == p
}

/// The bank after the first `n` gates of `order` have been applied to it, one
/// after the other.
pub open spec fn played<T: LogicOps>(
    nodes: Seq<CircuitNode<T>>,
    bank: Seq<Option<T>>,
    order: Seq<int>,
    n: nat,
) -> Seq<Option<T>>
    decreases n,
{
    if n == 0 {
        bank
    } else {
        nodes[order[n - 1]].applied(played(nodes, bank, order, (n - 1) as nat))
    }
}

/// What holds after the first `n` gates of a lawful order have been applied
/// to a bank in which the wire of every gate was empty.
pub open spec fn partly<T: LogicOps>(
    nodes: Seq<CircuitNode<T>>,
    start: Seq<Option<T>>,
    now: Seq<Option<T>>,
    order: Seq<int>,
    n: nat,
) -> bool {
    &&& now.len() == start.len()
    &&& forall|s: int| 0 <= s < now.len() - nodes.len() ==> #[trigger] now[s] == start[s]
    &&& forall|i: int|
        0 <= i < n ==> now[out(nodes, #[trigger] order[i])] == nodes[order[i]].value(now)
    &&& forall|i: int| n <= i < order.len() ==> now[out(nodes, #[trigger] order[i])] is None
}

/// Applying the gates in a lawful order, to a bank in which the wire of every
/// gate is empty, leaves each gate applied so far with what it computes.
pub proof fn lemma_played_partly<T: LogicOps>(
    nodes: Seq<CircuitNode<T>>,
    start: Seq<Option<T>>,
    order: Seq<int>,
    n: nat,
)
    requires
        orderly(nodes, start.len()),
        lawful(nodes, order),
        forall|k: int| 0 <= k < nodes.len() ==> (#[trigger] start[out(nodes, k)]) is None,
        n <= order.len(),
    ensures
        partly(nodes, start, played(nodes, start, order, n), order, n),
    decreases n,
{
    if n > 0 {
        let m = (n - 1) as nat;
        lemma_played_partly(nodes, start, order, m);
        let was = played(nodes, start, order, m);
        let now = played(nodes, start, order, n);
        let g = order[m as int];
        let slot = out(nodes, g);
        assert(nodes[g].wired(was.len()));
        assert(!nodes[g].reads(slot as nat)) by {
            if nodes[g].reads(nodes[g].driven().slot()) {
                let j = choose|j: int| 0 <= j < m && #[trigger] order[j] == g;
            }
        }
        if nodes[g].value(was) is Some {
            lemma_value_frame(nodes[g], was, slot, now[slot]);
        }
        assert forall|i: int| 0 <= i < n implies now[out(nodes, #[trigger] order[i])]
            == nodes[order[i]].value(now) by {
            let q = order[i];
            if i < m {
                assert(!nodes[q].reads(slot as nat)) by {
                    if nodes[q].reads(nodes[g].driven().slot()) {
                        let j = choose|j: int| 0 <= j < i && #[trigger] order[j] == g;
                    }
                }
                assert(out(nodes, q) != slot);
                if nodes[g].value(was) is Some {
                    lemma_value_frame(nodes[q], was, slot, now[slot]);
                }
            }
        }
        assert forall|i: int| n <= i < order.len() implies now[out(nodes, #[trigger] order[i])]
            is None by {
            assert(out(nodes, order[i]) != slot);
        }
    } else {
        assert forall|i: int| 0 <= i < order.len() implies played(nodes, start, order, n)[out(
            nodes,
            #[trigger] order[i],
        )] is None by {}
    }
}

/// The place of gate `k` in `order`.
pub open spec fn place_in(order: Seq<int>, k: int) -> int {
    choose|i: int| 0 <= i < order.len() && #[trigger] order[i] == k
}

/// A lawful order gives every gate a level: its place in the order.
pub proof fn lemma_lawful_levelled<T>(nodes: Seq<CircuitNode<T>>, order: Seq<int>) -> (rank: Seq<nat>)
    requires
        lawful(nodes, order),
    ensures
        levelled(nodes, rank),
{
    let rank = Seq::new(nodes.len(), |k: int| place_in(order, k) as nat);
    assert forall|k: int| 0 <= k < nodes.len() implies 0 <= place_in(order, k) < order.len()
        && order[place_in(order, k)] == k && #[trigger] rank[k] == place_in(order, k) by {
        assert(named(order, k));
    }
    assert forall|k: int, p: int|
        0 <= k < nodes.len() && 0 <= p < nodes.len() && nodes[k].reads(
            #[trigger] nodes[p].driven().slot(),
        ) implies rank[p] < #[trigger] rank[k] by {
        let i = place_in(order, k);
        assert(rank[k] == i);
        assert(order[i] == k);
        assert(nodes[order[i]].reads(nodes[p].driven().slot()));
        let j = choose|j: int| 0 <= j < i && #[trigger] order[j] == p;
        let q = place_in(order, p);
        assert(rank[p] == q);
        assert(order[q] == p);
        if q < j {
            assert(order[q] != order[j]);
        } else if j < q {
            assert(order[j] != order[q]);
        }
    }
    rank
}

/// The order in which independent gates are applied is of no consequence:
/// any two lawful orders leave the same value on every wire.
pub proof fn lemma_order_free<T: LogicOps>(
    nodes: Seq<CircuitNode<T>>,
    bank: Seq<Option<T>>,
    first: Seq<int>,
    second: Seq<int>,
)
    requires
        orderly(nodes, bank.len()),
        lawful(nodes, first),
        lawful(nodes, second),
    ensures
        played(nodes, emptied(nodes, bank), first, nodes.len()) == played(
            nodes,
            emptied(nodes, bank),
            second,
            nodes.len(),
        ),
{
    let start = emptied(nodes, bank);
    let a = played(nodes, start, first, nodes.len());
    let b = played(nodes, start, second, nodes.len());
    lemma_played_settles(nodes, start, first);
    lemma_played_settles(nodes, start, second);
    let rank = lemma_lawful_levelled(nodes, first);
    lemma_settled_unique(nodes, a, b, rank);
}

/// Applying all gates in a lawful order, to a bank in which the wire of
/// every gate is empty, is an evaluation: every gate's wire ends with what
/// that gate computes, and no other wire is touched.
pub proof fn lemma_played_settles<T: LogicOps>(
    nodes: Seq<CircuitNode<T>>,
    start: Seq<Option<T>>,
    order: Seq<int>,
)
    requires
        orderly(nodes, start.len()),
        lawful(nodes, order),
        forall|k: int| 0 <= k < nodes.len() ==> (#[trigger] start[out(nodes, k)]) is None,
    ensures
        played(nodes, start, order, nodes.len()).len() == start.len(),
        forall|s: int|
            0 <= s < start.len() - nodes.len() ==> #[trigger] played(
                nodes,
                start,
                order,
                nodes.len(),
            )[s] == start[s],
        settled(nodes, played(nodes, start, order, nodes.len())),
{
    lemma_played_partly(nodes, start, order, nodes.len());
    let end = played(nodes, start, order, nodes.len());
    assert forall|k: int| 0 <= k < nodes.len() implies end[out(nodes, k)] == (
    #[trigger] nodes[k]).value(end) by {
        assert(named(order, k));
        let i = choose|i: int| 0 <= i < order.len() && #[trigger] order[i] == k;
        assert(end[out(nodes, order[i])] == nodes[order[i]].value(end));
    }
}

/// Evaluation computes the network's function. After a circuit free of
/// feedback has been evaluated, the wire of every gate holds the composition
/// of the gates' functions along the chain of its producers, applied to the
/// values that the primary inputs held; and so does every output.
pub proof fn lemma_evaluation_composes<T: LogicOps>(
    before: CircuitView<T>,
    after: CircuitView<T>,
    rank: Seq<nat>,
)
    requires
        before.well_formed(),
        before.evaluated(after),
        levelled(before.nodes, rank),
    ensures
        forall|k: int|
            0 <= k < before.nodes.len() ==> #[trigger] after.bank[out(before.nodes, k)]
                == composed(
                before.nodes,
                before.bank,
                out(before.nodes, k) as nat,
                before.nodes.len(),
            ),
        forall|id: WireId| #[trigger]
            before.outputs.contains_key(id) ==> after.result(id) == Ok::<Option<T>, LookupError>(
                composed(before.nodes, before.bank, before.outputs[id], before.nodes.len()),
            ),
{
    let nodes = before.nodes;
    let depth = nodes.len();
    let base = before.base();
    assert forall|s: int| 0 <= s < after.bank.len() implies #[trigger] after.bank[s] == composed(
        nodes,
        before.bank,
        s as nat,
        depth,
    ) by {
        if s >= base {
            let k = s - base;
            assert(nodes[k].driven().slot() == s);
            lemma_settled_is_composed(nodes, after.bank, rank, k, depth);
            lemma_composed_frame(nodes, after.bank, before.bank, s as nat, depth);
        }
    }
    assert forall|k: int| 0 <= k < nodes.len() implies #[trigger] after.bank[out(nodes, k)]
        == composed(nodes, before.bank, out(nodes, k) as nat, depth) by {
        assert(nodes[k].driven().slot() == base + k);
    }
}

/// Evaluation of a circuit free of feedback succeeds once every primary input
/// has been set: every gate has a value then.
pub proof fn lemma_evaluation_complete<T: LogicOps>(
    before: CircuitView<T>,
    after: CircuitView<T>,
    rank: Seq<nat>,
)
    requires
        before.well_formed(),
        before.evaluated(after),
        levelled(before.nodes, rank),
        forall|id: WireId| #[trigger]
            before.inputs.contains_key(id) ==> before.bank[before.inputs[id] as int] is Some,
    ensures
        after.complete(),
{
    let nodes = before.nodes;
    lemma_evaluation_composes(before, after, rank);
    assert forall|k: int| 0 <= k < nodes.len() implies (#[trigger] after.bank[out(nodes, k)])
        is Some by {
        assert forall|q: int, s: int|
            0 <= q < nodes.len() && 0 <= s < before.bank.len() - nodes.len() && (
            #[trigger] nodes[q]).reads(s as nat) implies (#[trigger] before.bank[s]) is Some by {
            assert(before.entered(s));
        }
        lemma_composed_total(nodes, before.bank, rank, k, nodes.len());
    }
}

/// Evaluation is the outcome of any lawful order of applying the gates: the
/// wires end as they would had the gates been applied one after the other in
/// that order, to the circuit with the wire of every gate emptied.
pub proof fn lemma_evaluation_is_any_order<T: LogicOps>(
    before: CircuitView<T>,
    after: CircuitView<T>,
    order: Seq<int>,
)
    requires
        before.well_formed(),
        before.evaluated(after),
        lawful(before.nodes, order),
    ensures
        after.bank == played(
            before.nodes,
            emptied(before.nodes, before.bank),
            order,
            before.nodes.len(),
        ),
{
    let nodes = before.nodes;
    let start = emptied(nodes, before.bank);
    lemma_played_settles(nodes, start, order);
    let rank = lemma_lawful_levelled(nodes, order);
    lemma_settled_unique(nodes, after.bank, played(nodes, start, order, nodes.len()), rank);
}

/// Reading an output consumes it: the first read returns what the wire
/// holds, and a second read with no evaluation in between finds the wire
/// empty.
pub proof fn lemma_output_read_once<T>(circuit: CircuitView<T>, id: WireId)
    requires
        circuit.well_formed(),
        circuit.outputs.contains_key(id),
    ensures
        circuit.result(id) == Ok::<Option<T>, LookupError>(circuit.bank[circuit.outputs[id] as int]),
        circuit.taken(id).result(id) == Ok::<Option<T>, LookupError>(None),
{
}

/// Setting a primary input twice overwrites the pending value: the second
/// call returns the value of the first, and the wire holds the second value.
pub proof fn lemma_input_overwritten<T>(circuit: CircuitView<T>, id: WireId, first: T, second: T)
    requires
        circuit.well_formed(),
        circuit.inputs.contains_key(id),
    ensures
        circuit.set(id, first).pending(id) == Ok::<Option<T>, LookupError>(Some(first)),
        circuit.set(id, first).set(id, second).bank[circuit.inputs[id] as int] == Some(second),
{
}

/// A module in which two cells drive the same wire yields no circuit but
/// `DuplicateOutput`, whatever else is in it, unless a port is both input and
/// output.
pub proof fn lemma_duplicate_output(module: &ModuleElem, i: int, j: int, id: WireId)
    requires
        !module.bidirectional(),
        i != j,
        module.drives(i, id),
        module.drives(j, id),
    ensures
        module.fault() == Some(ConfigurationError::DuplicateOutput),
{
}

/// A module in which a cell reads a wire without a source yields no circuit
/// but `DanglingWire`, unless an earlier pass has found a fault already.
pub proof fn lemma_dangling_wire(module: &ModuleElem, k: int, j: int)
    requires
        !module.bidirectional(),
        !module.contended(),
        0 <= k < module.cells@.len(),
        module.cells@[k].1.inputs() matches Some(wires) && 0 <= j < wires.len() && !module.known(
            wires[j],
        ),
    ensures
        module.fault() == Some(ConfigurationError::DanglingWire),
{
    assert(!module.attached(k));
}

} // verus!
