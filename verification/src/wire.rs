//! Wires: single-slot storage for one logic value each, kept together in a
//! bank, and the two kinds of endpoint through which a slot is reached.
//!
//! The bank owns every slot. An endpoint is an index into it, so whoever holds
//! the bank exclusively holds all its wires exclusively: a write can never meet
//! a reader in the middle of a read, and no operation here ever waits.

use vstd::prelude::*;
use std::marker::PhantomData;

verus! {

/// The one way a wire operation fails: the endpoint names no slot of the bank
/// it is used on.
#[derive(Clone, Copy, Debug, PartialEq, Eq, Structural)]
pub struct ConnectionError;

/// The slots of all wires of one circuit.
pub struct WireBank<T> {
    slots: Vec<Option<T>>,
}

impl<T> View for WireBank<T> {
    type V = Seq<Option<T>>;

    /// The content of every slot, by slot index.
    closed spec fn view(&self) -> Seq<Option<T>> {
        self.slots@
    }
}

impl<T> WireBank<T> {
    /// A bank without wires.
    pub fn new() -> (bank: Self)
        ensures
            bank@ == Seq::<Option<T>>::empty(),
    {
        WireBank { slots: Vec::new() }
    }

    /// The number of wires.
    pub fn len(&self) -> (n: usize)
        ensures
            n == self@.len(),
    {
        self.slots.len()
    }

    /// Puts `item` into slot `slot` and hands out what was there.
    fn exchange(&mut self, slot: usize, item: Option<T>) -> (previous: Option<T>)
        requires
            slot < old(self)@.len(),
        ensures
            previous == old(self)@[slot as int],
            final(self)@ == old(self)@.update(slot as int, item),
    {
        let mut held = item;
        std::mem::swap(&mut self.slots[slot], &mut held);
        held
    }
}

/// The write side of a wire for values of type `T`: the right to replace
/// what its slot holds.
#[derive(Debug)]
pub struct WireIn<T> {
    slot: usize,
    mark: PhantomData<T>,
}

/// The read side of a wire for values of type `T`: a view onto the slot,
/// freely copied.
#[derive(Debug)]
pub struct WireOut<T> {
    slot: usize,
    mark: PhantomData<T>,
}

impl<T> Clone for WireOut<T> {
    fn clone(&self) -> (copy: Self)
        ensures
            copy == *self,
    {
        WireOut { slot: self.slot, mark: PhantomData }
    }
}

impl<T> Copy for WireOut<T> {

}

impl<T> WireIn<T> {
    /// The index of the slot this endpoint writes.
    pub closed spec fn slot(&self) -> nat {
        self.slot as nat
    }

    /// Adds a wire to the bank, holding nothing, and returns its write side.
    pub fn empty_wire(bank: &mut WireBank<T>) -> (wire: WireIn<T>)
        ensures
            final(bank)@ == old(bank)@.push(None),
            wire.slot() == old(bank)@.len(),
    {
        let slot = bank.slots.len();
        bank.slots.push(None);
        WireIn { slot, mark: PhantomData }
    }

    /// Replaces the slot's content and returns the previous one. Nothing holds
    /// the slot but the caller, so this never has to give up: it does what
    /// `write` does.
    pub fn try_write(&self, bank: &mut WireBank<T>, item: T) -> (r: Result<
        Option<T>,
        ConnectionError,
    >)
        ensures
            self.slot() < old(bank)@.len() ==> r == Ok::<Option<T>, ConnectionError>(
                old(bank)@[self.slot() as int],
            ) && final(bank)@ == old(bank)@.update(self.slot() as int, Some(item)),
            self.slot() >= old(bank)@.len() ==> r is Err && final(bank)@ == old(bank)@,
    {
        self.write(bank, item)
    }

    /// Replaces the slot's content unconditionally and returns the previous
    /// one, or nothing where the slot was empty.
    pub fn write(&self, bank: &mut WireBank<T>, item: T) -> (r: Result<
        Option<T>,
        ConnectionError,
    >)
        ensures
            self.slot() < old(bank)@.len() ==> r == Ok::<Option<T>, ConnectionError>(
                old(bank)@[self.slot() as int],
            ) && final(bank)@ == old(bank)@.update(self.slot() as int, Some(item)),
            self.slot() >= old(bank)@.len() ==> r is Err && final(bank)@ == old(bank)@,
    {
        if self.slot < bank.slots.len() {
            Ok(bank.exchange(self.slot, Some(item)))
        } else {
            Err(ConnectionError)
        }
    }

    /// Empties the slot and returns what it held.
    pub fn clear(&self, bank: &mut WireBank<T>) -> (r: Result<Option<T>, ConnectionError>)
        ensures
            self.slot() < old(bank)@.len() ==> r == Ok::<Option<T>, ConnectionError>(
                old(bank)@[self.slot() as int],
            ) && final(bank)@ == old(bank)@.update(self.slot() as int, None),
            self.slot() >= old(bank)@.len() ==> r is Err && final(bank)@ == old(bank)@,
    {
        if self.slot < bank.slots.len() {
            Ok(bank.exchange(self.slot, None))
        } else {
            Err(ConnectionError)
        }
    }

    /// The read side of the same wire.
    pub fn get_out(&self) -> (out: WireOut<T>)
        ensures
            out.slot() == self.slot(),
    {
        WireOut { slot: self.slot, mark: PhantomData }
    }
}

impl<T> WireOut<T> {
    /// The index of the slot this endpoint reads.
    pub closed spec fn slot(&self) -> nat {
        self.slot as nat
    }

    /// The index of the slot this endpoint reads.
    pub fn index(&self) -> (i: usize)
        ensures
            i == self.slot(),
    {
        self.slot
    }

    /// What the slot holds now. Never waits, as `read` never does.
    pub fn try_read<'a>(&self, bank: &'a WireBank<T>) -> (r: Result<
        &'a Option<T>,
        ConnectionError,
    >)
        ensures
            self.slot() < bank@.len() ==> r == Ok::<&Option<T>, ConnectionError>(
                &bank@[self.slot() as int],
            ),
            self.slot() >= bank@.len() ==> r is Err,
    {
        self.read(bank)
    }

    /// What the slot holds now; nothing where no value was computed yet.
    pub fn read<'a>(&self, bank: &'a WireBank<T>) -> (r: Result<
        &'a Option<T>,
        ConnectionError,
    >)
        ensures
            self.slot() < bank@.len() ==> r == Ok::<&Option<T>, ConnectionError>(
                &bank@[self.slot() as int],
            ),
            self.slot() >= bank@.len() ==> r is Err,
    {
        if self.slot < bank.slots.len() {
            Ok(&bank.slots[self.slot])
        } else {
            Err(ConnectionError)
        }
    }

    /// Takes the value out of the slot and leaves it empty, so that a second
    /// read cannot see a result that was consumed already.
    pub fn read_and_clear(&mut self, bank: &mut WireBank<T>) -> (r: Result<
        Option<T>,
        ConnectionError,
    >)
        ensures
            *final(self) == *old(self),
            old(self).slot() < old(bank)@.len() ==> r == Ok::<Option<T>, ConnectionError>(
                old(bank)@[old(self).slot() as int],
            ) && final(bank)@ == old(bank)@.update(old(self).slot() as int, None),
            old(self).slot() >= old(bank)@.len() ==> r is Err && final(bank)@ == old(bank)@,
    {
        if self.slot < bank.slots.len() {
            Ok(bank.exchange(self.slot, None))
        } else {
            Err(ConnectionError)
        }
    }

    /// Whether the wire holds no value: not computed yet, or not on this bank.
    pub fn is_empty(&self, bank: &WireBank<T>) -> (empty: bool)
        ensures
            empty == (self.slot() >= bank@.len() || bank@[self.slot() as int] is None),
    {
        if self.slot < bank.slots.len() {
            bank.slots[self.slot].is_none()
        } else {
            true
        }
    }
}

} // verus!
