//! Tables of optional entries in which the lowest empty slot is reused.

use vstd::prelude::*;

verus! {

/// The lowest empty slot of a table: the position of its first `None`, or
/// its length when every slot is taken.
pub open spec fn first_none<T>(table: Seq<Option<T>>) -> int
    decreases table.len(),
{
    if table.len() == 0 {
        0
    } else if table[0] is None {
        0
    } else {
        1 + first_none(table.subrange(1, table.len() as int))
    }
}

/// The table after its lowest empty slot was filled with `item`; it
/// grows by one slot when every slot was taken.
pub open spec fn filled<T>(table: Seq<Option<T>>, item: T) -> Seq<Option<T>> {
    if first_none(table) < table.len() {
        table.update(first_none(table), Some(item))
    } else {
        table.push(Some(item))
    }
}

/// The lowest empty slot is at most the length of the table, is empty if
/// it is inside the table, and has no empty slot below it.
pub proof fn lemma_first_none<T>(table: Seq<Option<T>>)
    ensures
        0 <= first_none(table) <= table.len(),
        first_none(table) < table.len() ==> table[first_none(table)] is None,
        forall|k: int| 0 <= k < first_none(table) ==> (#[trigger] table[k]) is Some,
    decreases table.len(),
{
    if table.len() > 0 && table[0] is Some {
        let rest = table.subrange(1, table.len() as int);
        lemma_first_none(rest);
        assert forall|k: int| 0 <= k < first_none(table) implies (#[trigger] table[k]) is Some by {
            if k > 0 {
                assert(rest[k - 1] == table[k]);
            }
        }
        if first_none(table) < table.len() {
            assert(rest[first_none(rest)] == table[first_none(table)]);
        }
    }
}

/// A slot below which every slot is taken, and which is empty or the
/// length of the table, is the lowest empty slot.
pub proof fn lemma_first_none_is<T>(table: Seq<Option<T>>, i: int)
    requires
        0 <= i <= table.len(),
        forall|k: int| 0 <= k < i ==> (#[trigger] table[k]) is Some,
        i < table.len() ==> table[i] is None,
    ensures
        first_none(table) == i,
{
    lemma_first_none(table);
    let f = first_none(table);
    if f < i {
        assert(table[f] is Some);
    } else if i < f {
        assert(table[i] is Some);
    }
}

/// Finds the lowest empty slot of a table.
pub fn find_first_none<T>(table: &Vec<Option<T>>) -> (slot: usize)
    ensures
        slot == first_none(table@),
        slot <= table@.len(),
{
    let mut i: usize = 0;
    while i < table.len()
        invariant
            i <= table@.len(),
            forall|k: int| 0 <= k < i ==> (#[trigger] table@[k]) is Some,
        decreases table@.len() - i,
    {
        if table[i].is_none() {
            proof {
                lemma_first_none_is(table@, i as int);
            }
            return i;
        }
        i += 1;
    }
    proof {
        lemma_first_none_is(table@, i as int);
    }
    i
}

} // verus!
