//! A list of entries kept in ascending order of wire id, so that the entry
//! for an id is found by bisection.

use vstd::prelude::*;
use crate::yosys_parse::WireId;

verus! {

/// Whether the entries are in strictly ascending order of wire id.
pub open spec fn ascending<X>(entries: Seq<(WireId, X)>) -> bool {
    forall|i: int, j: int| 0 <= i < j < entries.len() ==> entries[i].0 < entries[j].0
}

/// Whether some entry is for `id`.
pub open spec fn listed<X>(entries: Seq<(WireId, X)>, id: WireId) -> bool {
    exists|j: int| 0 <= j < entries.len() && #[trigger] entries[j].0 == id
}

/// The place of the entry for `id`.
pub open spec fn place<X>(entries: Seq<(WireId, X)>, id: WireId) -> int {
    choose|j: int| 0 <= j < entries.len() && #[trigger] entries[j].0 == id
}

/// Finds the entry for `id` among entries in ascending order: its index, or
/// else the index at which such an entry would keep the order.
pub fn position<X>(entries: &Vec<(WireId, X)>, id: WireId) -> (r: Result<usize, usize>)
    requires
        ascending(entries@),
    ensures
        match r {
            Ok(j) => j < entries@.len() && entries@[j as int].0 == id,
            Err(p) => p <= entries@.len() && !listed(entries@, id) && (forall|j: int|
                0 <= j < p ==> (#[trigger] entries@[j]).0 < id) && (forall|j: int|
                p <= j < entries@.len() ==> (#[trigger] entries@[j]).0 > id),
        },
{
    let mut low: usize = 0;
    let mut high: usize = entries.len();
    while low < high
        invariant
            low <= high <= entries@.len(),
            ascending(entries@),
            forall|j: int| 0 <= j < low ==> (#[trigger] entries@[j]).0 < id,
            forall|j: int| high <= j < entries@.len() ==> (#[trigger] entries@[j]).0 > id,
        decreases high - low,
    {
        let mid = low + (high - low) / 2;
        let key = entries[mid].0;
        if key == id {
            return Ok(mid);
        } else if key < id {
            low = mid + 1;
        } else {
            high = mid;
        }
    }
    Err(low)
}

/// Among entries in ascending order, the place of an entry's id is the
/// entry's own index.
pub proof fn lemma_place<X>(entries: Seq<(WireId, X)>, j: int)
    requires
        ascending(entries),
        0 <= j < entries.len(),
    ensures
        listed(entries, entries[j].0),
        place(entries, entries[j].0) == j,
{
    let p = place(entries, entries[j].0);
    if p < j {
        assert(entries[p].0 < entries[j].0);
    } else if j < p {
        assert(entries[j].0 < entries[p].0);
    }
}

/// Puts an entry for `id` at index `at`, where it keeps the order.
pub fn insert_entry<X>(entries: &mut Vec<(WireId, X)>, at: usize, id: WireId, item: X)
    requires
        ascending(old(entries)@),
        at <= old(entries)@.len(),
        forall|j: int| 0 <= j < at ==> (#[trigger] old(entries)@[j]).0 < id,
        forall|j: int| at <= j < old(entries)@.len() ==> (#[trigger] old(entries)@[j]).0 > id,
    ensures
        ascending(final(entries)@),
        final(entries)@ == old(entries)@.insert(at as int, (id, item)),
        final(entries)@.len() == old(entries)@.len() + 1,
        final(entries)@[at as int] == (id, item),
        forall|j: int| 0 <= j < at ==> final(entries)@[j] == old(entries)@[j],
        forall|j: int| at < j <= old(entries)@.len() ==> final(entries)@[j] == old(entries)@[j - 1],
        forall|other: WireId| #[trigger]
            listed(final(entries)@, other) <==> other == id || listed(old(entries)@, other),
{
    entries.insert(at, (id, item));
    proof {
        let before = old(entries)@;
        let after = entries@;
        assert forall|other: WireId| #[trigger]
            listed(after, other) <==> other == id || listed(before, other) by {
            if listed(after, other) {
                let j = place(after, other);
                if j < at {
                    assert(before[j].0 == other);
                } else if j > at {
                    assert(before[j - 1].0 == other);
                }
            }
            if other == id {
                assert(after[at as int].0 == other);
            }
            if listed(before, other) {
                let j = place(before, other);
                if j < at {
                    assert(after[j].0 == other);
                } else {
                    assert(after[j + 1].0 == other);
                }
            }
        }
    }
}

} // verus!
