//! Gate nodes: one logic function each, reading up to two wires and writing
//! one.

use vstd::prelude::*;
use crate::traits::LogicOps;
use crate::wire::{ConnectionError, WireBank, WireIn, WireOut};
use crate::yosys_parse::CellType;

verus! {

/// A gate of the network. The read endpoints are its inputs, in order; they
/// stay `None` until this gate has been wired. The write endpoint is the wire
/// that this gate alone drives.
#[derive(Debug)]
pub enum CircuitNode<T> {
    NandNode(Option<WireOut<T>>, Option<WireOut<T>>, WireIn<T>),
    AndNode(Option<WireOut<T>>, Option<WireOut<T>>, WireIn<T>),
    NorNode(Option<WireOut<T>>, Option<WireOut<T>>, WireIn<T>),
    OrNode(Option<WireOut<T>>, Option<WireOut<T>>, WireIn<T>),
    NxorNode(Option<WireOut<T>>, Option<WireOut<T>>, WireIn<T>),
    XorNode(Option<WireOut<T>>, Option<WireOut<T>>, WireIn<T>),
    NotNode(Option<WireOut<T>>, WireIn<T>),
}

/// What an input endpoint delivers from a bank: the value in its slot, and
/// nothing where the endpoint is missing, names no slot, or the slot is empty.
pub open spec fn fetch<T>(input: Option<WireOut<T>>, bank: Seq<Option<T>>) -> Option<T> {
    match input {
        Some(wire) => if wire.slot() < bank.len() {
            bank[wire.slot() as int]
        } else {
            None
        },
        None => None,
    }
}

impl<T> CircuitNode<T> {
    /// The write endpoint of this gate.
    pub open spec fn driven(&self) -> WireIn<T> {
        match *self {
            CircuitNode::NandNode(_, _, out) => out,
            CircuitNode::AndNode(_, _, out) => out,
            CircuitNode::NorNode(_, _, out) => out,
            CircuitNode::OrNode(_, _, out) => out,
            CircuitNode::NxorNode(_, _, out) => out,
            CircuitNode::XorNode(_, _, out) => out,
            CircuitNode::NotNode(_, out) => out,
        }
    }

    /// The first input endpoint.
    pub open spec fn first(&self) -> Option<WireOut<T>> {
        match *self {
            CircuitNode::NandNode(a, _, _) => a,
            CircuitNode::AndNode(a, _, _) => a,
            CircuitNode::NorNode(a, _, _) => a,
            CircuitNode::OrNode(a, _, _) => a,
            CircuitNode::NxorNode(a, _, _) => a,
            CircuitNode::XorNode(a, _, _) => a,
            CircuitNode::NotNode(a, _) => a,
        }
    }

    /// The second input endpoint; an inverter has none.
    pub open spec fn second(&self) -> Option<WireOut<T>> {
        match *self {
            CircuitNode::NandNode(_, b, _) => b,
            CircuitNode::AndNode(_, b, _) => b,
            CircuitNode::NorNode(_, b, _) => b,
            CircuitNode::OrNode(_, b, _) => b,
            CircuitNode::NxorNode(_, b, _) => b,
            CircuitNode::XorNode(_, b, _) => b,
            CircuitNode::NotNode(_, _) => None,
        }
    }

    /// The kind of gate.
    pub open spec fn kind(&self) -> CellType {
        match *self {
            CircuitNode::NandNode(_, _, _) => CellType::Nand,
            CircuitNode::AndNode(_, _, _) => CellType::And,
            CircuitNode::NorNode(_, _, _) => CellType::Nor,
            CircuitNode::OrNode(_, _, _) => CellType::Or,
            CircuitNode::NxorNode(_, _, _) => CellType::Nxor,
            CircuitNode::XorNode(_, _, _) => CellType::Xor,
            CircuitNode::NotNode(_, _) => CellType::Not,
        }
    }

    /// A gate of the given kind that drives `out`, its inputs not wired yet.
    pub fn new(kind: CellType, out: WireIn<T>) -> (node: CircuitNode<T>)
        ensures
            node.kind() == kind,
            node.driven() == out,
            node.first() is None,
            node.second() is None,
    {
        match kind {
            CellType::And => CircuitNode::AndNode(None, None, out),
            CellType::Nand => CircuitNode::NandNode(None, None, out),
            CellType::Or => CircuitNode::OrNode(None, None, out),
            CellType::Nor => CircuitNode::NorNode(None, None, out),
            CellType::Xor => CircuitNode::XorNode(None, None, out),
            CellType::Nxor => CircuitNode::NxorNode(None, None, out),
            CellType::Not => CircuitNode::NotNode(None, out),
        }
    }

    /// Wires the inputs of this gate. An inverter takes the first only.
    pub fn connect(&mut self, first: WireOut<T>, second: WireOut<T>)
        ensures
            final(self).kind() == old(self).kind(),
            final(self).driven() == old(self).driven(),
            final(self).first() == Some(first),
            final(self).second() == if old(self).kind() == CellType::Not {
                None
            } else {
                Some(second)
            },
    {
        match self {
            CircuitNode::NandNode(in0, in1, _) => {
                *in0 = Some(first);
                *in1 = Some(second);
            },
            CircuitNode::AndNode(in0, in1, _) => {
                *in0 = Some(first);
                *in1 = Some(second);
            },
            CircuitNode::NorNode(in0, in1, _) => {
                *in0 = Some(first);
                *in1 = Some(second);
            },
            CircuitNode::OrNode(in0, in1, _) => {
                *in0 = Some(first);
                *in1 = Some(second);
            },
            CircuitNode::NxorNode(in0, in1, _) => {
                *in0 = Some(first);
                *in1 = Some(second);
            },
            CircuitNode::XorNode(in0, in1, _) => {
                *in0 = Some(first);
                *in1 = Some(second);
            },
            CircuitNode::NotNode(in0, _) => {
                *in0 = Some(first);
            },
        }
    }

    /// Whether this gate reads the wire in slot `slot`.
    pub open spec fn reads(&self, slot: nat) -> bool {
        ||| self.first() matches Some(wire) && wire.slot() == slot
        ||| self.second() matches Some(wire) && wire.slot() == slot
    }

    /// The input endpoints of this gate, first and second.
    pub fn in_wires(&self) -> (r: (Option<WireOut<T>>, Option<WireOut<T>>))
        ensures
            r.0 == self.first(),
            r.1 == self.second(),
    {
        match self {
            CircuitNode::NandNode(a, b, _) => (*a, *b),
            CircuitNode::AndNode(a, b, _) => (*a, *b),
            CircuitNode::NorNode(a, b, _) => (*a, *b),
            CircuitNode::OrNode(a, b, _) => (*a, *b),
            CircuitNode::NxorNode(a, b, _) => (*a, *b),
            CircuitNode::XorNode(a, b, _) => (*a, *b),
            CircuitNode::NotNode(a, _) => (*a, None),
        }
    }

    /// Empties this gate's output wire.
    pub fn reset(&self, bank: &mut WireBank<T>)
        ensures
            final(bank)@ == if self.driven().slot() < old(bank)@.len() {
                old(bank)@.update(self.driven().slot() as int, None)
            } else {
                old(bank)@
            },
    {
        let _ = match self {
            CircuitNode::NandNode(_, _, out) => out.clear(bank),
            CircuitNode::AndNode(_, _, out) => out.clear(bank),
            CircuitNode::NorNode(_, _, out) => out.clear(bank),
            CircuitNode::OrNode(_, _, out) => out.clear(bank),
            CircuitNode::NxorNode(_, _, out) => out.clear(bank),
            CircuitNode::XorNode(_, _, out) => out.clear(bank),
            CircuitNode::NotNode(_, out) => out.clear(bank),
        };
    }

    /// Whether this gate is fully wired into a bank of `slots` slots: the
    /// output and every input that its kind reads name a slot.
    pub open spec fn wired(&self, slots: nat) -> bool {
        &&& self.driven().slot() < slots
        &&& self.first() matches Some(wire) && wire.slot() < slots
        &&& (*self is NotNode || (self.second() matches Some(wire) && wire.slot() < slots))
    }

    /// The function of this gate on the values its inputs deliver: nothing
    /// where an input that its kind reads delivers nothing.
    pub open spec fn combine(&self, x: Option<T>, y: Option<T>) -> Option<T> where T: LogicOps {
        match *self {
            CircuitNode::NotNode(_, _) => match x {
                Some(x) => Some(x.not_spec()),
                None => None,
            },
            _ => match (x, y) {
                (Some(x), Some(y)) => Some(
                    match *self {
                        CircuitNode::NandNode(_, _, _) => x.nand_spec(&y),
                        CircuitNode::AndNode(_, _, _) => x.and_spec(&y),
                        CircuitNode::NorNode(_, _, _) => x.nor_spec(&y),
                        CircuitNode::OrNode(_, _, _) => x.or_spec(&y),
                        CircuitNode::NxorNode(_, _, _) => x.nxor_spec(&y),
                        _ => x.xor_spec(&y),
                    },
                ),
                _ => None,
            },
        }
    }

    /// The value that this gate computes from a bank, where it can: its output
    /// slot exists and each input delivers a value.
    pub open spec fn value(&self, bank: Seq<Option<T>>) -> Option<T> where T: LogicOps {
        if self.driven().slot() >= bank.len() {
            None
        } else {
            self.combine(fetch(self.first(), bank), fetch(self.second(), bank))
        }
    }

    /// The bank after this gate has been applied to it: the computed value in
    /// this gate's own slot, and no change at all where nothing can be computed.
    pub open spec fn applied(&self, bank: Seq<Option<T>>) -> Seq<Option<T>> where T: LogicOps {
        match self.value(bank) {
            Some(v) => bank.update(self.driven().slot() as int, Some(v)),
            None => bank,
        }
    }

    /// A read view onto this gate's own output wire.
    pub fn out_wire(&self) -> (out: WireOut<T>)
        ensures
            out.slot() == self.driven().slot(),
    {
        match self {
            CircuitNode::NandNode(_, _, out) => out.get_out(),
            CircuitNode::AndNode(_, _, out) => out.get_out(),
            CircuitNode::NorNode(_, _, out) => out.get_out(),
            CircuitNode::OrNode(_, _, out) => out.get_out(),
            CircuitNode::NxorNode(_, _, out) => out.get_out(),
            CircuitNode::XorNode(_, _, out) => out.get_out(),
            CircuitNode::NotNode(_, out) => out.get_out(),
        }
    }

    /// Reads both inputs, applies `f` to them in order and writes the result
    /// to `out`. Fails, writing nothing, where an input delivers no value or
    /// `out` names no slot.
    #[inline]
    pub fn culc_binary_ops_<F: Fn(&T, &T) -> T>(
        rhs: &WireOut<T>,
        lhs: &WireOut<T>,
        out: &WireIn<T>,
        bank: &mut WireBank<T>,
        f: F,
    ) -> (r: Result<(), ConnectionError>)
        requires
            forall|x: &T, y: &T| call_requires(f, (x, y)),
        ensures
            r is Ok <==> fetch(Some(*rhs), old(bank)@) is Some && fetch(Some(*lhs), old(bank)@)
                is Some && out.slot() < old(bank)@.len(),
            r is Err ==> final(bank)@ == old(bank)@,
            r is Ok ==> final(bank)@.len() == old(bank)@.len() && final(bank)@[out.slot() as int]
                is Some && call_ensures(
                f,
                (
                    &fetch(Some(*rhs), old(bank)@)->0,
                    &fetch(Some(*lhs), old(bank)@)->0,
                ),
                final(bank)@[out.slot() as int]->0,
            ) && final(bank)@ == old(bank)@.update(
                out.slot() as int,
                final(bank)@[out.slot() as int],
            ),
    {
        if out.get_out().read(bank).is_err() {
            return Err(ConnectionError);
        }
        let res = {
            let rhs_slot = match rhs.read(bank) {
                Ok(slot) => slot,
                Err(e) => { return Err(e); },
            };
            let lhs_slot = match lhs.read(bank) {
                Ok(slot) => slot,
                Err(e) => { return Err(e); },
            };
            match (rhs_slot, lhs_slot) {
                (Some(x), Some(y)) => f(x, y),
                _ => { return Err(ConnectionError); },
            }
        };
        match out.write(bank, res) {
            Ok(_) => Ok(()),
            Err(e) => Err(e),
        }
    }

    /// Reads the input, applies `f` to it and writes the result to `out`.
    /// Fails, writing nothing, where the input delivers no value or `out`
    /// names no slot.
    #[inline]
    pub fn culc_mono_ops_<F: Fn(&T) -> T>(
        input: &WireOut<T>,
        out: &WireIn<T>,
        bank: &mut WireBank<T>,
        f: F,
    ) -> (r: Result<(), ConnectionError>)
        requires
            forall|x: &T| call_requires(f, (x,)),
        ensures
            r is Ok <==> fetch(Some(*input), old(bank)@) is Some && out.slot() < old(bank)@.len(),
            r is Err ==> final(bank)@ == old(bank)@,
            r is Ok ==> final(bank)@.len() == old(bank)@.len() && final(bank)@[out.slot() as int]
                is Some && call_ensures(
                f,
                (&fetch(Some(*input), old(bank)@)->0,),
                final(bank)@[out.slot() as int]->0,
            ) && final(bank)@ == old(bank)@.update(
                out.slot() as int,
                final(bank)@[out.slot() as int],
            ),
    {
        if out.get_out().read(bank).is_err() {
            return Err(ConnectionError);
        }
        let res = {
            let input_slot = match input.read(bank) {
                Ok(slot) => slot,
                Err(e) => { return Err(e); },
            };
            match input_slot {
                Some(x) => f(x),
                None => { return Err(ConnectionError); },
            }
        };
        match out.write(bank, res) {
            Ok(_) => Ok(()),
            Err(e) => Err(e),
        }
    }

    /// Applies this gate: computes its function of the values on its input
    /// wires and writes the result to its output wire. Succeeds exactly when
    /// this gate has a value to compute; otherwise the bank stays as it was.
    pub fn culc(&self, bank: &mut WireBank<T>) -> (r: Result<(), ConnectionError>) where T: LogicOps
        ensures
            r is Ok <==> self.value(old(bank)@) is Some,
            final(bank)@ == self.applied(old(bank)@),
    {
        match self {
            CircuitNode::NandNode(rhs, lhs, out) => {
                let (rhs, lhs) = (check(rhs)?, check(lhs)?);
                Self::culc_binary_ops_(rhs, lhs, out, bank, T::lgc_nand)
            },
            CircuitNode::AndNode(rhs, lhs, out) => {
                let (rhs, lhs) = (check(rhs)?, check(lhs)?);
                Self::culc_binary_ops_(rhs, lhs, out, bank, T::lgc_and)
            },
            CircuitNode::NorNode(rhs, lhs, out) => {
                let (rhs, lhs) = (check(rhs)?, check(lhs)?);
                Self::culc_binary_ops_(rhs, lhs, out, bank, T::lgc_nor)
            },
            CircuitNode::OrNode(rhs, lhs, out) => {
                let (rhs, lhs) = (check(rhs)?, check(lhs)?);
                Self::culc_binary_ops_(rhs, lhs, out, bank, T::lgc_or)
            },
            CircuitNode::NxorNode(rhs, lhs, out) => {
                let (rhs, lhs) = (check(rhs)?, check(lhs)?);
                Self::culc_binary_ops_(rhs, lhs, out, bank, T::lgc_nxor)
            },
            CircuitNode::XorNode(rhs, lhs, out) => {
                let (rhs, lhs) = (check(rhs)?, check(lhs)?);
                Self::culc_binary_ops_(rhs, lhs, out, bank, T::lgc_xor)
            },
            CircuitNode::NotNode(input, out) => {
                let input = check(input)?;
                Self::culc_mono_ops_(input, out, bank, T::lgc_not)
            },
        }
    }
}

/// The endpoint behind an input that has been wired; an error for one that
/// has not.
fn check<T>(x: &Option<WireOut<T>>) -> (r: Result<&WireOut<T>, ConnectionError>)
    ensures
        match *x {
            Some(wire) => r == Ok::<&WireOut<T>, ConnectionError>(&wire),
            None => r is Err,
        },
{
    match x {
        Some(wire) => Ok(wire),
        None => Err(ConnectionError),
    }
}

} // verus!
