//! The evaluation engine: applies the gates of a network in an order that
//! lets every gate read what its producers wrote.
//!
//! A gate is applied once all gates that drive its inputs have been applied
//! with success. Where a gate cannot compute a value, the gates that read from
//! it are passed over. The engine applies the gates one after the other; the
//! order among gates that do not depend on each other is of no consequence,
//! so a scheduler that honours the dependency edges may as well apply them in
//! any interleaving.

use vstd::prelude::*;
use crate::node::CircuitNode;
use crate::traits::LogicOps;
use crate::wire::{WireBank, WireOut};
use crate::yosys_parse::WireId;

verus! {

/// Whether the gates are laid out in a bank of `slots` slots as a circuit has
/// them: the gates' outputs take the last slots, in the order of the gates,
/// and every gate is fully wired.
pub open spec fn orderly<T>(nodes: Seq<CircuitNode<T>>, slots: nat) -> bool {
    &&& nodes.len() <= slots
    &&& forall|k: int|
        0 <= k < nodes.len() ==> (#[trigger] nodes[k]).driven().slot() == slots - nodes.len() + k
    &&& forall|k: int| 0 <= k < nodes.len() ==> (#[trigger] nodes[k]).wired(slots)
}

/// The slot that gate `k` drives.
pub open spec fn out<T>(nodes: Seq<CircuitNode<T>>, k: int) -> int {
    nodes[k].driven().slot() as int
}

/// Whether every gate's wire holds exactly what that gate computes from the
/// wires it reads: the value of its function, and nothing where one of its
/// inputs has nothing.
pub open spec fn settled<T: LogicOps>(nodes: Seq<CircuitNode<T>>, bank: Seq<Option<T>>) -> bool {
    forall|k: int| 0 <= k < nodes.len() ==> bank[out(nodes, k)] == (#[trigger] nodes[k]).value(bank)
}

/// Whether gate `k` reads the wire of a gate that has computed no value.
pub open spec fn starved<T>(nodes: Seq<CircuitNode<T>>, bank: Seq<Option<T>>, k: int) -> bool {
    exists|p: int|
        0 <= p < nodes.len() && nodes[k].reads(#[trigger] nodes[p].driven().slot()) && bank[out(
            nodes,
            p,
        )] is None
}

/// The bank with the wire of every gate emptied.
pub open spec fn emptied<T>(nodes: Seq<CircuitNode<T>>, bank: Seq<Option<T>>) -> Seq<Option<T>> {
    Seq::new(
        bank.len(),
        |s: int|
            if s >= bank.len() - nodes.len() {
                None
            } else {
                bank[s]
            },
    )
}

/// Empties the wire of every gate.
pub(crate) fn clear<T>(nodes: &Vec<CircuitNode<T>>, bank: &mut WireBank<T>)
    requires
        orderly(nodes@, old(bank)@.len()),
    ensures
        final(bank)@ == emptied(nodes@, old(bank)@),
{
    let mut k: usize = 0;
    while k < nodes.len()
        invariant
            k <= nodes@.len(),
            orderly(nodes@, bank@.len()),
            bank@.len() == old(bank)@.len(),
            forall|s: int|
                0 <= s < bank@.len() - nodes@.len() ==> #[trigger] bank@[s] == old(bank)@[s],
            forall|q: int| 0 <= q < k ==> (#[trigger] bank@[out(nodes@, q)]) is None,
            forall|q: int|
                k <= q < nodes@.len() ==> #[trigger] bank@[out(nodes@, q)] == old(bank)@[out(
                    nodes@,
                    q,
                )],
        decreases nodes@.len() - k,
    {
        nodes[k].reset(bank);
        k += 1;
    }
    proof {
        let base = bank@.len() - nodes@.len();
        assert forall|s: int| 0 <= s < bank@.len() implies bank@[s] == emptied(
            nodes@,
            old(bank)@,
        )[s] by {
            if s >= base {
                assert(out(nodes@, s - base) == s);
            }
        }
        assert(bank@ =~= emptied(nodes@, old(bank)@));
    }
}

/// How far a gate has come in one evaluation.
#[derive(Clone, Copy, Debug, PartialEq, Eq, Structural)]
pub enum Status {
    /// Not looked at yet, or waiting for a producer.
    Pending,
    /// Applied; its wire holds the value.
    Done,
    /// Applied without success: an input had no value.
    Failed,
    /// Passed over: a producer failed or was passed over.
    Skipped,
}

/// Whether every gate that feeds gate `k` is done.
pub open spec fn fed<T>(nodes: Seq<CircuitNode<T>>, status: Seq<Status>, k: int) -> bool {
    forall|p: int|
        0 <= p < nodes.len() && nodes[k].reads(#[trigger] nodes[p].driven().slot()) ==> status[p]
            == Status::Done
}

/// Whether some gate that feeds gate `k` has failed or was passed over.
pub open spec fn choked<T>(nodes: Seq<CircuitNode<T>>, status: Seq<Status>, k: int) -> bool {
    exists|p: int|
        0 <= p < nodes.len() && nodes[k].reads(#[trigger] nodes[p].driven().slot()) && (status[p]
            == Status::Failed || status[p] == Status::Skipped)
}

/// Whether some gate that feeds gate `k` is pending.
pub open spec fn waiting<T>(nodes: Seq<CircuitNode<T>>, status: Seq<Status>, k: int) -> bool {
    exists|p: int|
        0 <= p < nodes.len() && nodes[k].reads(#[trigger] nodes[p].driven().slot()) && status[p]
            == Status::Pending
}

/// Whether the bank is what the gates' states say, gate `k` taken alone.
pub open spec fn in_step<T: LogicOps>(
    nodes: Seq<CircuitNode<T>>,
    bank: Seq<Option<T>>,
    status: Seq<Status>,
    k: int,
) -> bool {
    match status[k] {
        Status::Done => bank[out(nodes, k)] is Some && bank[out(nodes, k)] == nodes[k].value(bank)
            && fed(nodes, status, k),
        Status::Failed => bank[out(nodes, k)] is None && nodes[k].value(bank) is None && fed(
            nodes,
            status,
            k,
        ),
        Status::Skipped => bank[out(nodes, k)] is None && choked(nodes, status, k),
        Status::Pending => bank[out(nodes, k)] is None,
    }
}

/// What holds all through an evaluation that began with the bank `start`:
/// the wires that no gate drives are as they were, and the bank is what the
/// gates' states say.
pub open spec fn poised<T: LogicOps>(
    nodes: Seq<CircuitNode<T>>,
    start: Seq<Option<T>>,
    bank: Seq<Option<T>>,
    status: Seq<Status>,
) -> bool {
    &&& orderly(nodes, bank.len())
    &&& status.len() == nodes.len()
    &&& bank.len() == start.len()
    &&& forall|s: int| 0 <= s < bank.len() - nodes.len() ==> #[trigger] bank[s] == start[s]
    &&& forall|k: int| 0 <= k < nodes.len() ==> #[trigger] in_step(nodes, bank, status, k)
}

/// The number of pending gates among the first `n`.
pub open spec fn pending(status: Seq<Status>, n: nat) -> nat
    decreases n,
{
    if n == 0 {
        0
    } else if status[n - 1] == Status::Pending {
        pending(status, (n - 1) as nat) + 1
    } else {
        pending(status, (n - 1) as nat)
    }
}

/// Settling one pending gate leaves one pending gate less.
proof fn lemma_pending_settle(status: Seq<Status>, k: int, to: Status, n: nat)
    requires
        0 <= k < status.len(),
        n <= status.len(),
        status[k] == Status::Pending,
        to != Status::Pending,
    ensures
        pending(status.update(k, to), n) == if k < n {
            pending(status, n) - 1
        } else {
            pending(status, n) as int
        },
        k < n ==> pending(status, n) >= 1,
    decreases n,
{
    if n > 0 {
        lemma_pending_settle(status, k, to, (n - 1) as nat);
    }
}

/// The state of whichever gate drives `input`; `Done` where no gate drives
/// it.
pub open spec fn upstream_state<T>(input: Option<WireOut<T>>, base: nat, status: Seq<Status>) -> Status {
    match input {
        Some(wire) => if base <= wire.slot() < base + status.len() {
            status[wire.slot() - base]
        } else {
            Status::Done
        },
        None => Status::Done,
    }
}

/// The state of whichever gate drives `input`; `Done` where no gate drives
/// it.
fn upstream<T>(input: Option<WireOut<T>>, base: usize, status: &Vec<Status>) -> (r: Status)
    requires
        base + status@.len() <= usize::MAX,
    ensures
        r == upstream_state(input, base as nat, status@),
{
    match input {
        Some(wire) => {
            let slot = wire.index();
            if base <= slot && slot - base < status.len() {
                status[slot - base]
            } else {
                Status::Done
            }
        },
        None => Status::Done,
    }
}

/// A gate computes the same from two banks that differ only in a slot it
/// does not read.
pub proof fn lemma_value_frame<T: LogicOps>(
    node: CircuitNode<T>,
    bank: Seq<Option<T>>,
    slot: int,
    item: Option<T>,
)
    requires
        0 <= slot < bank.len(),
        !node.reads(slot as nat),
    ensures
        node.value(bank.update(slot, item)) == node.value(bank),
{
}

/// Whether a gate in this state will never have a value.
fn dead(state: Status) -> (r: bool)
    ensures
        r == (state == Status::Failed || state == Status::Skipped),
{
    match state {
        Status::Failed => true,
        Status::Skipped => true,
        _ => false,
    }
}

/// Looks at gate `k` and, where it is pending and all is known that decides
/// its fate, applies it or passes it over. Says whether it did.
fn visit<T: LogicOps>(
    nodes: &Vec<CircuitNode<T>>,
    bank: &mut WireBank<T>,
    status: &mut Vec<Status>,
    k: usize,
    Ghost(start): Ghost<Seq<Option<T>>>,
) -> (moved: bool)
    requires
        k < nodes@.len(),
        poised(nodes@, start, old(bank)@, old(status)@),
    ensures
        poised(nodes@, start, final(bank)@, final(status)@),
        moved ==> old(status)@[k as int] == Status::Pending && final(status)@[k as int]
            != Status::Pending && final(status)@ == old(status)@.update(
            k as int,
            final(status)@[k as int],
        ),
        !moved ==> final(status)@ == old(status)@ && final(bank)@ == old(bank)@ && (old(
            status,
        )@[k as int] == Status::Pending ==> waiting(nodes@, old(status)@, k as int)),
{
    match status[k] {
        Status::Pending => {},
        _ => { return false; },
    }
    let base = bank.len() - nodes.len();
    let (a, b) = nodes[k].in_wires();
    let ua = upstream(a, base, status);
    let ub = upstream(b, base, status);
    let ghost was = status@;
    let ghost before = bank@;
    let ghost gates = nodes@;
    proof {
        assert(in_step(gates, before, was, k as int));
        assert(gates[k as int].wired(before.len()));
        if ua != Status::Done {
            let p = a->0.slot() - base;
            assert(gates[p].driven().slot() == a->0.slot());
            assert(gates[k as int].reads(gates[p].driven().slot()));
        }
        if ub != Status::Done {
            let p = b->0.slot() - base;
            assert(gates[p].driven().slot() == b->0.slot());
            assert(gates[k as int].reads(gates[p].driven().slot()));
        }
    }
    if dead(ua) || dead(ub) {
        status[k] = Status::Skipped;
        proof {
            let now = status@;
            assert(choked(gates, now, k as int)) by {
                let p = if was[a->0.slot() - base] == ua && (ua == Status::Failed || ua
                    == Status::Skipped) && a is Some && base <= a->0.slot() < base + was.len() {
                    a->0.slot() - base
                } else {
                    b->0.slot() - base
                };
                assert(gates[k as int].reads(gates[p].driven().slot()));
                assert(now[p] == Status::Failed || now[p] == Status::Skipped);
            }
            assert forall|q: int| 0 <= q < gates.len() implies #[trigger] in_step(
                gates,
                before,
                now,
                q,
            ) by {
                assert(in_step(gates, before, was, q));
                if q != k {
                    lemma_states_stay(gates, was, k as int, Status::Skipped, q);
                }
            }
        }
        return true;
    }
    if ua == Status::Pending || ub == Status::Pending {
        return false;
    }
    let applied = nodes[k].culc(bank);
    status[k] = if applied.is_ok() {
        Status::Done
    } else {
        Status::Failed
    };
    proof {
        let now = status@;
        let after = bank@;
        let slot = out(gates, k as int);
        assert(fed(gates, was, k as int)) by {
            assert forall|p: int|
                0 <= p < gates.len() && gates[k as int].reads(
                    #[trigger] gates[p].driven().slot(),
                ) implies was[p] == Status::Done by {
                assert(gates[p].driven().slot() == base + p);
            }
        }
        assert(!gates[k as int].reads(slot as nat));
        assert(fed(gates, now, k as int));
        if applied is Ok {
            lemma_value_frame(gates[k as int], before, slot, after[slot]);
        }
        assert forall|q: int| 0 <= q < gates.len() implies #[trigger] in_step(
            gates,
            after,
            now,
            q,
        ) by {
            assert(in_step(gates, before, was, q));
            if q != k {
                assert(out(gates, q) != slot);
                lemma_states_stay(gates, was, k as int, now[k as int], q);
                if was[q] == Status::Done || was[q] == Status::Failed {
                    assert(!gates[q].reads(slot as nat));
                    if applied is Ok {
                        lemma_value_frame(gates[q], before, slot, after[slot]);
                    }
                }
            }
        }
    }
    true
}

/// That a pending gate is settled changes nothing for what the states say of
/// another gate's producers.
proof fn lemma_states_stay<T>(
    nodes: Seq<CircuitNode<T>>,
    status: Seq<Status>,
    k: int,
    to: Status,
    q: int,
)
    requires
        0 <= k < nodes.len(),
        0 <= q < nodes.len(),
        status.len() == nodes.len(),
        status[k] == Status::Pending,
        to != Status::Pending,
    ensures
        fed(nodes, status, q) ==> fed(nodes, status.update(k, to), q),
        choked(nodes, status, q) ==> choked(nodes, status.update(k, to), q),
{
    let now = status.update(k, to);
    if choked(nodes, status, q) {
        let p = choose|p: int|
            0 <= p < nodes.len() && nodes[q].reads(#[trigger] nodes[p].driven().slot()) && (
            status[p] == Status::Failed || status[p] == Status::Skipped);
        assert(nodes[q].reads(nodes[p].driven().slot()) && (now[p] == Status::Failed || now[p]
            == Status::Skipped));
    }
}

/// One pass over all gates, in order. Says whether any gate was settled.
fn sweep<T: LogicOps>(
    nodes: &Vec<CircuitNode<T>>,
    bank: &mut WireBank<T>,
    status: &mut Vec<Status>,
    Ghost(start): Ghost<Seq<Option<T>>>,
) -> (progress: bool)
    requires
        poised(nodes@, start, old(bank)@, old(status)@),
    ensures
        poised(nodes@, start, final(bank)@, final(status)@),
        progress ==> pending(final(status)@, nodes@.len()) < pending(
            old(status)@,
            nodes@.len(),
        ),
        !progress ==> final(status)@ == old(status)@ && final(bank)@ == old(bank)@ && forall|
            k: int,
        |
            0 <= k < nodes@.len() && final(status)@[k] == Status::Pending ==> #[trigger] waiting(
                nodes@,
                final(status)@,
                k,
            ),
{
    let mut progress = false;
    let mut k: usize = 0;
    while k < nodes.len()
        invariant
            k <= nodes@.len(),
            poised(nodes@, start, bank@, status@),
            pending(status@, nodes@.len()) <= pending(old(status)@, nodes@.len()),
            progress ==> pending(status@, nodes@.len()) < pending(old(status)@, nodes@.len()),
            !progress ==> status@ == old(status)@ && bank@ == old(bank)@ && forall|q: int|
                0 <= q < k && status@[q] == Status::Pending ==> #[trigger] waiting(
                    nodes@,
                    status@,
                    q,
                ),
        decreases nodes@.len() - k,
    {
        let ghost was = status@;
        if visit(nodes, bank, status, k, Ghost(start)) {
            proof {
                lemma_pending_settle(was, k as int, status@[k as int], nodes@.len());
            }
            progress = true;
        }
        k += 1;
    }
    progress
}

/// A gate that reads an empty wire computes nothing.
proof fn lemma_starved_value<T: LogicOps>(node: CircuitNode<T>, bank: Seq<Option<T>>, slot: nat)
    requires
        node.reads(slot),
        slot < bank.len(),
        bank[slot as int] is None,
    ensures
        node.value(bank) is None,
{
}

/// What holds of gate `k` once an evaluation has come to rest: its wire holds
/// what it computes from the final bank; it holds a value exactly when the
/// gate is done; and a gate without a value has failed exactly when every gate
/// that feeds it has a value.
pub open spec fn at_rest<T: LogicOps>(
    nodes: Seq<CircuitNode<T>>,
    bank: Seq<Option<T>>,
    status: Seq<Status>,
    k: int,
) -> bool {
    &&& bank[out(nodes, k)] == nodes[k].value(bank)
    &&& bank[out(nodes, k)] is Some <==> status[k] == Status::Done
    &&& bank[out(nodes, k)] is None ==> (starved(nodes, bank, k) <==> status[k] != Status::Failed)
}

/// Evaluates the network: empties the wire of every gate, then applies each
/// gate whose producers have all been applied with success, until no such
/// gate is left. Returns the state that each gate ended in.
pub(crate) fn run<T: LogicOps>(nodes: &Vec<CircuitNode<T>>, bank: &mut WireBank<T>) -> (status: Vec<Status>)
    requires
        orderly(nodes@, old(bank)@.len()),
    ensures
        final(bank)@.len() == old(bank)@.len(),
        forall|s: int|
            0 <= s < old(bank)@.len() - nodes@.len() ==> #[trigger] final(bank)@[s] == old(
                bank,
            )@[s],
        settled(nodes@, final(bank)@),
        status@.len() == nodes@.len(),
        forall|k: int|
            0 <= k < nodes@.len() ==> (final(bank)@[out(nodes@, k)] is Some <==> #[trigger] status@[k]
                == Status::Done),
        forall|k: int|
            0 <= k < nodes@.len() && final(bank)@[out(nodes@, k)] is None ==> (starved(
                nodes@,
                final(bank)@,
                k,
            ) <==> #[trigger] status@[k] != Status::Failed),
{
    clear(nodes, bank);
    let mut status: Vec<Status> = Vec::new();
    let mut k: usize = 0;
    while k < nodes.len()
        invariant
            k <= nodes@.len(),
            status@.len() == k,
            forall|q: int| 0 <= q < k ==> #[trigger] status@[q] == Status::Pending,
        decreases nodes@.len() - k,
    {
        status.push(Status::Pending);
        k += 1;
    }
    let ghost start = old(bank)@;
    let mut progress = true;
    while progress
        invariant
            poised(nodes@, start, bank@, status@),
            !progress ==> forall|q: int|
                0 <= q < nodes@.len() && status@[q] == Status::Pending ==> #[trigger] waiting(
                    nodes@,
                    status@,
                    q,
                ),
        decreases
                pending(status@, nodes@.len()) + if progress {
                    1int
                } else {
                    0int
                },
    {
        progress = sweep(nodes, bank, &mut status, Ghost(start));
    }
    proof {
        let gates = nodes@;
        let end = bank@;
        let states = status@;
        assert forall|q: int| 0 <= q < gates.len() implies #[trigger] at_rest(
            gates,
            end,
            states,
            q,
        ) by {
            assert(in_step(gates, end, states, q));
            match states[q] {
                Status::Done => {},
                Status::Failed => {
                    if starved(gates, end, q) {
                        let p = choose|p: int|
                            0 <= p < gates.len() && gates[q].reads(
                                #[trigger] gates[p].driven().slot(),
                            ) && end[out(gates, p)] is None;
                        assert(in_step(gates, end, states, p));
                    }
                },
                Status::Skipped => {
                    let p = choose|p: int|
                        0 <= p < gates.len() && gates[q].reads(#[trigger] gates[p].driven().slot())
                            && (states[p] == Status::Failed || states[p] == Status::Skipped);
                    assert(in_step(gates, end, states, p));
                    lemma_starved_value(gates[q], end, gates[p].driven().slot());
                },
                Status::Pending => {
                    assert(waiting(gates, states, q));
                    let p = choose|p: int|
                        0 <= p < gates.len() && gates[q].reads(#[trigger] gates[p].driven().slot())
                            && states[p] == Status::Pending;
                    assert(in_step(gates, end, states, p));
                    lemma_starved_value(gates[q], end, gates[p].driven().slot());
                },
            }
        }
        assert forall|q: int| 0 <= q < gates.len() implies end[out(gates, q)] == (
        #[trigger] gates[q]).value(end) by {
            assert(at_rest(gates, end, states, q));
        }
        assert forall|q: int| 0 <= q < gates.len() implies (end[out(gates, q)] is Some
            <==> #[trigger] states[q] == Status::Done) by {
            assert(at_rest(gates, end, states, q));
        }
        assert forall|q: int| 0 <= q < gates.len() && end[out(gates, q)] is None implies (starved(
            gates,
            end,
            q,
        ) <==> #[trigger] states[q] != Status::Failed) by {
            assert(at_rest(gates, end, states, q));
        }
    }
    status
}

/// The dependency edge behind an input of gate `k`: from whichever gate
/// drives the input, to `k`. There is none where no gate drives the input.
pub open spec fn edge<T>(input: Option<WireOut<T>>, base: nat, gates: nat, k: nat) -> Seq<(usize, usize)> {
    match input {
        Some(wire) => if base <= wire.slot() < base + gates {
            seq![((wire.slot() - base) as usize, k as usize)]
        } else {
            Seq::empty()
        },
        None => Seq::empty(),
    }
}

/// The dependency edges into the first `n` gates, producer first: gate by
/// gate, the edge of the first input before that of the second.
pub open spec fn edges_into<T>(nodes: Seq<CircuitNode<T>>, slots: nat, n: nat) -> Seq<(usize, usize)>
    decreases n,
{
    if n == 0 {
        Seq::empty()
    } else {
        let base = (slots - nodes.len()) as nat;
        edges_into(nodes, slots, (n - 1) as nat) + edge(
            nodes[n - 1].first(),
            base,
            nodes.len(),
            (n - 1) as nat,
        ) + edge(nodes[n - 1].second(), base, nodes.len(), (n - 1) as nat)
    }
}

/// The dependency edges of the network: a pair, producer first, for every
/// input of a gate that another gate drives. An order of applying the gates
/// has to put the producer of every edge before the consumer.
pub(crate) fn dependencies<T>(nodes: &Vec<CircuitNode<T>>, slots: usize) -> (edges: Vec<(usize, usize)>)
    requires
        orderly(nodes@, slots as nat),
    ensures
        edges@ == edges_into(nodes@, slots as nat, nodes@.len()),
{
    let base = slots - nodes.len();
    let mut edges: Vec<(usize, usize)> = Vec::new();
    let mut k: usize = 0;
    while k < nodes.len()
        invariant
            k <= nodes@.len(),
            orderly(nodes@, slots as nat),
            base == slots - nodes@.len(),
            edges@ == edges_into(nodes@, slots as nat, k as nat),
        decreases nodes@.len() - k,
    {
        let (a, b) = nodes[k].in_wires();
        let ghost held = edges@;
        match a {
            Some(wire) => {
                let slot = wire.index();
                if base <= slot && slot - base < nodes.len() {
                    edges.push((slot - base, k));
                }
            },
            None => {},
        }
        let ghost first = edges@;
        match b {
            Some(wire) => {
                let slot = wire.index();
                if base <= slot && slot - base < nodes.len() {
                    edges.push((slot - base, k));
                }
            },
            None => {},
        }
        proof {
            assert(first == held + edge(a, base as nat, nodes@.len(), k as nat));
            assert(edges@ == first + edge(b, base as nat, nodes@.len(), k as nat));
        }
        k += 1;
    }
    edges
}

/// The dependency edges are the pairs of a gate and a gate that reads its
/// wire, and no others.
pub proof fn lemma_edges<T>(nodes: Seq<CircuitNode<T>>, slots: nat, n: nat, p: usize, k: usize)
    requires
        orderly(nodes, slots),
        slots <= usize::MAX,
        n <= nodes.len(),
        p < nodes.len(),
        k < nodes.len(),
    ensures
        edges_into(nodes, slots, n).contains((p, k)) <==> k < n && nodes[k as int].reads(
            nodes[p as int].driven().slot(),
        ),
    decreases n,
{
    if n > 0 {
        let m = (n - 1) as nat;
        lemma_edges(nodes, slots, m, p, k);
        let base = (slots - nodes.len()) as nat;
        let earlier = edges_into(nodes, slots, m);
        let a = edge(nodes[m as int].first(), base, nodes.len(), m);
        let b = edge(nodes[m as int].second(), base, nodes.len(), m);
        let all = edges_into(nodes, slots, n);
        let pair = (p, k);
        assert(all == earlier + a + b);
        assert(nodes[p as int].driven().slot() == base + p);
        assert(nodes[m as int].wired(slots));
        if all.contains(pair) {
            let i = choose|i: int| 0 <= i < all.len() && all[i] == pair;
            if i < earlier.len() {
                assert(earlier[i] == pair);
            } else if i < earlier.len() + a.len() {
                assert(a[i - earlier.len()] == pair);
            } else {
                assert(b[i - earlier.len() - a.len()] == pair);
            }
        }
        if earlier.contains(pair) {
            let i = choose|i: int| 0 <= i < earlier.len() && earlier[i] == pair;
            assert(all[i] == pair);
        }
        if k == m && nodes[k as int].reads(nodes[p as int].driven().slot()) {
            if nodes[k as int].first() matches Some(wire) && wire.slot() == base + p {
                assert(a[0] == pair);
                assert(all[earlier.len() as int] == pair);
            } else {
                assert(b[0] == pair);
                assert(all[(earlier.len() + a.len()) as int] == pair);
            }
        }
    }
}

/// The outcome of an evaluation in which some gate computed no value: the
/// wire of every such gate, by id.
#[derive(Debug)]
pub struct AggregateEvalError {
    /// The wires of the gates that were applied and failed: an input that no
    /// gate drives had no value.
    pub failed: Vec<WireId>,
    /// The wires of the gates that were not applied, because a gate that
    /// feeds them has no value.
    pub skipped: Vec<WireId>,
}

/// The wires of those of the first `n` gates that have no value and are
/// starved (`skipped`) or are not (`!skipped`), in the order of the gates.
pub open spec fn lacking<T>(
    nodes: Seq<CircuitNode<T>>,
    ids: Seq<WireId>,
    bank: Seq<Option<T>>,
    skipped: bool,
    n: nat,
) -> Seq<WireId>
    decreases n,
{
    if n == 0 {
        Seq::empty()
    } else {
        let rest = lacking(nodes, ids, bank, skipped, (n - 1) as nat);
        if bank[out(nodes, n - 1)] is None && starved(nodes, bank, n - 1) == skipped {
            rest.push(ids[n - 1])
        } else {
            rest
        }
    }
}

/// Evaluates the network and reports. On return every gate's wire holds what
/// that gate computes from the wires it reads, and the wires that no gate
/// drives are untouched. Succeeds exactly when every gate has a value;
/// otherwise names the wires of the gates that failed and of those that were
/// passed over.
pub(crate) fn evaluate<T: LogicOps>(
    nodes: &Vec<CircuitNode<T>>,
    ids: &Vec<WireId>,
    bank: &mut WireBank<T>,
) -> (r: Result<(), AggregateEvalError>)
    requires
        orderly(nodes@, old(bank)@.len()),
        ids@.len() == nodes@.len(),
    ensures
        final(bank)@.len() == old(bank)@.len(),
        forall|s: int|
            0 <= s < old(bank)@.len() - nodes@.len() ==> #[trigger] final(bank)@[s] == old(
                bank,
            )@[s],
        settled(nodes@, final(bank)@),
        match r {
            Ok(_) => forall|k: int|
                0 <= k < nodes@.len() ==> (#[trigger] final(bank)@[out(nodes@, k)]) is Some,
            Err(e) => {
                &&& exists|k: int|
                    0 <= k < nodes@.len() && (#[trigger] final(bank)@[out(nodes@, k)]) is None
                &&& e.failed@ == lacking(nodes@, ids@, final(bank)@, false, nodes@.len())
                &&& e.skipped@ == lacking(nodes@, ids@, final(bank)@, true, nodes@.len())
            },
        },
{
    let status = run(nodes, bank);
    let mut failed: Vec<WireId> = Vec::new();
    let mut skipped: Vec<WireId> = Vec::new();
    let mut k: usize = 0;
    while k < nodes.len()
        invariant
            k <= nodes@.len(),
            ids@.len() == nodes@.len(),
            status@.len() == nodes@.len(),
            forall|q: int|
                0 <= q < nodes@.len() ==> (bank@[out(nodes@, q)] is Some <==> #[trigger] status@[q]
                    == Status::Done),
            forall|q: int|
                0 <= q < nodes@.len() && bank@[out(nodes@, q)] is None ==> (starved(
                    nodes@,
                    bank@,
                    q,
                ) <==> #[trigger] status@[q] != Status::Failed),
            failed@ == lacking(nodes@, ids@, bank@, false, k as nat),
            skipped@ == lacking(nodes@, ids@, bank@, true, k as nat),
            failed@.len() == 0 && skipped@.len() == 0 <==> forall|q: int|
                0 <= q < k ==> (#[trigger] bank@[out(nodes@, q)]) is Some,
        decreases nodes@.len() - k,
    {
        proof {
            assert(status@[k as int] == status@[k as int]);
        }
        match status[k] {
            Status::Done => {},
            Status::Failed => {
                failed.push(ids[k]);
                assert(bank@[out(nodes@, k as int)] is None);
            },
            _ => {
                skipped.push(ids[k]);
                assert(bank@[out(nodes@, k as int)] is None);
            },
        }
        k += 1;
    }
    if failed.len() == 0 && skipped.len() == 0 {
        Ok(())
    } else {
        proof {
            let q = choose|q: int| 0 <= q < k && !((#[trigger] bank@[out(nodes@, q)]) is Some);
            assert(bank@[out(nodes@, q)] is None);
        }
        Err(AggregateEvalError { failed, skipped })
    }
}

} // verus!
