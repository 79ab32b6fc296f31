//! Linear-probing slot tables: which slots hold which numbers, and how one leaves.

use vstd::prelude::*;

verus! {

/// Steps from slot `from` forward to slot `to` in a ring of `size` slots.
pub open spec fn steps(from: int, to: int, size: int) -> int {
    if to >= from {
        to - from
    } else {
        to - from + size
    }
}

/// Slots of a table that is doubled until three in four of them hold so many entries.
pub open spec fn grown_slots(slots: int, entries: int) -> int
    decreases 3 * entries + 8 - slots,
{
    if slots <= 0 || entries <= slots / 4 * 3 {
        slots
    } else {
        grown_slots(slots * 2, entries)
    }
}

/// Slots that are not empty.
pub open spec fn occupied(slots: Seq<u32>) -> nat
    decreases slots.len(),
{
    if slots.len() == 0 {
        0
    } else if slots.last() == 0 {
        occupied(slots.drop_last())
    } else {
        occupied(slots.drop_last()) + 1
    }
}

/// Whether a number is in some slot.
pub open spec fn is_placed(slots: Seq<u32>, number: int) -> bool {
    exists|at: int| 0 <= at < slots.len() && #[trigger] slots[at] == number
}

/// Whether every slot from `home` up to `at` is taken.
pub open spec fn is_reachable(slots: Seq<u32>, home: int, at: int) -> bool {
    forall|between: int|
        0 <= between < slots.len() && steps(home, between, slots.len() as int) < steps(
            home,
            at,
            slots.len() as int,
        ) ==> #[trigger] slots[between] != 0
}

/// Whether a table holds the numbers below `homes.len()`, except zero, each once, and each within
/// reach of its home slot; zero marks an empty slot, and there is one.
pub open spec fn table_ok(slots: Seq<u32>, homes: Seq<int>) -> bool {
    &&& 0 < homes.len() <= slots.len()
    &&& forall|i: int| 0 <= i < homes.len() ==> 0 <= #[trigger] homes[i] < slots.len()
    &&& forall|at: int| 0 <= at < slots.len() ==> #[trigger] slots[at] < homes.len()
    &&& forall|i: int| 1 <= i < homes.len() ==> #[trigger] is_placed(slots, i)
    &&& forall|first: int, second: int|
        0 <= first < slots.len() && 0 <= second < slots.len() && #[trigger] slots[first]
            == #[trigger] slots[second] && slots[first] != 0 ==> first == second
    &&& forall|at: int|
        0 <= at < slots.len() && #[trigger] slots[at] != 0 ==> is_reachable(
            slots,
            homes[slots[at] as int],
            at,
        )
    &&& occupied(slots) == homes.len() - 1
}

pub proof fn lemma_occupied_update(slots: Seq<u32>, at: int, number: u32)
    requires
        0 <= at < slots.len(),
    ensures
        occupied(slots.update(at, number)) == occupied(slots) + (if number != 0 {
            1int
        } else {
            0
        }) - (if slots[at] != 0 {
            1int
        } else {
            0
        }),
    decreases slots.len(),
{
    let updated = slots.update(at, number);
    if at == slots.len() - 1 {
        assert(updated.drop_last() =~= slots.drop_last());
    } else {
        assert(updated.drop_last() =~= slots.drop_last().update(at, number));
        lemma_occupied_update(slots.drop_last(), at, number);
    }
}

/// A table with fewer taken slots than slots has an empty one.
pub proof fn lemma_empty_slot(slots: Seq<u32>) -> (at: int)
    requires
        occupied(slots) < slots.len(),
    ensures
        0 <= at < slots.len(),
        slots[at] == 0,
    decreases slots.len(),
{
    if slots.last() == 0 {
        slots.len() - 1
    } else {
        lemma_empty_slot(slots.drop_last())
    }
}

pub proof fn lemma_occupied_zeros(slots: Seq<u32>)
    requires
        forall|i: int| 0 <= i < slots.len() ==> slots[i] == 0,
    ensures
        occupied(slots) == 0,
    decreases slots.len(),
{
    if slots.len() > 0 {
        lemma_occupied_zeros(slots.drop_last());
    }
}

/// A table of empty slots holds nothing.
pub proof fn lemma_empty_table(slots: Seq<u32>, home: int)
    requires
        0 <= home < slots.len(),
        forall|i: int| 0 <= i < slots.len() ==> slots[i] == 0,
    ensures
        table_ok(slots, seq![home]),
{
    lemma_occupied_zeros(slots);
}

/// A number lies between its home slot and the first empty slot after it.
pub proof fn lemma_found_before_empty(
    slots: Seq<u32>,
    homes: Seq<int>,
    number: int,
    empty: int,
) -> (at: int)
    requires
        table_ok(slots, homes),
        1 <= number < homes.len(),
        0 <= empty < slots.len(),
        slots[empty] == 0,
    ensures
        0 <= at < slots.len(),
        slots[at] == number,
        steps(homes[number], at, slots.len() as int) < steps(
            homes[number],
            empty,
            slots.len() as int,
        ),
{
    assert(is_placed(slots, number));
    let at = choose|at: int| 0 <= at < slots.len() && #[trigger] slots[at] == number;
    let home = homes[number];
    assert(slots[at] != 0);
    assert(is_reachable(slots, homes[slots[at] as int], at));
    if steps(home, at, slots.len() as int) >= steps(home, empty, slots.len() as int) {
        assert(at != empty);
        assert(steps(home, empty, slots.len() as int) < steps(home, at, slots.len() as int));
        assert(slots[empty] != 0);
    }
    at
}

/// The slot after `at` in a ring.
pub fn next_slot(at: usize, size: usize) -> (next: usize)
    requires
        at < size,
    ensures
        next < size,
        next == (if at + 1 == size {
            0
        } else {
            at + 1
        }),
{
    if at + 1 == size {
        0
    } else {
        at + 1
    }
}

/// Puts the next number into the first empty slot from `home` on.
pub fn insert_slot(slots: &mut Vec<u32>, home: usize, number: u32, homes: Ghost<Seq<int>>)
    requires
        table_ok(old(slots)@, homes@),
        number == homes@.len(),
        homes@.len() < old(slots)@.len(),
        home < old(slots)@.len(),
    ensures
        table_ok(final(slots)@, homes@.push(home as int)),
        final(slots)@.len() == old(slots)@.len(),
{
    let ghost before = slots@;
    let ghost size = slots@.len() as int;
    let ghost empty = lemma_empty_slot(before);
    let mut at: usize = home;
    while slots[at] != 0
        invariant
            slots@ == before,
            size == before.len(),
            home < size,
            at < size,
            0 <= empty < size,
            before[empty] == 0,
            steps(home as int, at as int, size) <= steps(home as int, empty, size),
            is_reachable(before, home as int, at as int),
        decreases steps(home as int, empty, size) - steps(home as int, at as int, size),
    {
        at = next_slot(at, slots.len());
    }
    slots.set(at, number);
    proof {
        let after = slots@;
        let all = homes@.push(home as int);
        lemma_occupied_update(before, at as int, number);
        assert forall|i: int| 0 <= i < all.len() implies 0 <= #[trigger] all[i] < after.len() by {
            if i < homes@.len() {
                assert(all[i] == homes@[i]);
            }
        }
        assert forall|p: int| 0 <= p < after.len() implies #[trigger] after[p] < all.len() by {
            if p != at {
                assert(after[p] == before[p]);
            }
        }
        assert forall|i: int| 1 <= i < all.len() implies #[trigger] is_placed(after, i) by {
            if i == number {
                assert(after[at as int] == number);
            } else {
                assert(is_placed(before, i));
                let p = choose|p: int| 0 <= p < before.len() && #[trigger] before[p] == i;
                assert(p != at);
                assert(after[p] == i);
            }
        }
        assert forall|first: int, second: int|
            0 <= first < after.len() && 0 <= second < after.len() && #[trigger] after[first]
                == #[trigger] after[second] && after[first] != 0 implies first == second by {
            if first != at {
                assert(after[first] == before[first]);
            }
            if second != at {
                assert(after[second] == before[second]);
            }
        }
        assert forall|p: int| 0 <= p < after.len() && #[trigger] after[p] != 0 implies is_reachable(
            after,
            all[after[p] as int],
            p,
        ) by {
            let from = all[after[p] as int];
            if p != at {
                assert(after[p] == before[p]);
                assert(is_reachable(before, homes@[before[p] as int], p));
                assert(from == homes@[before[p] as int]);
            } else {
                assert(from == home);
            }
            assert forall|q: int|
                0 <= q < after.len() && steps(from, q, size) < steps(
                    from,
                    p,
                    size,
                ) implies #[trigger] after[q] != 0 by {
                if q != at {
                    assert(after[q] == before[q]);
                    assert(before[q] != 0);
                }
            }
        }
    }
}

/// Whether a table from which `number` is leaving is sound: the slot `hole` holds something that
/// counts no more, and no number in a slot between the hole and `next` is reached over the hole.
pub open spec fn is_leaving(
    slots: Seq<u32>,
    homes: Seq<int>,
    number: int,
    hole: int,
    next: int,
) -> bool {
    let size = slots.len() as int;
    &&& 0 < homes.len() <= size
    &&& 1 <= number < homes.len()
    &&& forall|i: int| 0 <= i < homes.len() ==> 0 <= #[trigger] homes[i] < size
    &&& 0 <= hole < size
    &&& 0 <= next < size
    &&& hole != next
    &&& slots[hole] != 0
    &&& forall|at: int| 0 <= at < size ==> #[trigger] slots[at] < homes.len()
    &&& forall|at: int| 0 <= at < size && at != hole ==> #[trigger] slots[at] != number
    &&& forall|i: int|
        1 <= i < homes.len() && i != number ==> #[trigger] is_placed_beside(slots, i, hole)
    &&& forall|first: int, second: int|
        0 <= first < size && 0 <= second < size && first != hole && second != hole
            && #[trigger] slots[first] == #[trigger] slots[second] && slots[first] != 0 ==> first
            == second
    &&& forall|at: int|
        0 <= at < size && at != hole && #[trigger] slots[at] != 0 ==> is_reachable(
            slots,
            homes[slots[at] as int],
            at,
        )
    &&& forall|at: int|
        0 <= at < size && 0 < steps(hole, at, size) < steps(hole, next, size) ==> #[trigger] slots[at]
            != 0 && steps(homes[slots[at] as int], at, size) < steps(
            homes[slots[at] as int],
            hole,
            size,
        )
    &&& occupied(slots) == homes.len() - 1
}

/// Whether a number is in some slot other than `hole`.
pub open spec fn is_placed_beside(slots: Seq<u32>, number: int, hole: int) -> bool {
    exists|at: int| 0 <= at < slots.len() && at != hole && #[trigger] slots[at] == number
}

/// A table from which the number in slot `hole` starts to leave.
pub proof fn lemma_start_leaving(slots: Seq<u32>, homes: Seq<int>, hole: int, next: int)
    requires
        table_ok(slots, homes),
        0 <= hole < slots.len(),
        slots[hole] != 0,
        0 <= next < slots.len(),
        next != hole,
        steps(hole, next, slots.len() as int) == 1,
    ensures
        is_leaving(slots, homes, slots[hole] as int, hole, next),
{
    let number = slots[hole] as int;
    assert forall|i: int| 1 <= i < homes.len() && i != number implies #[trigger] is_placed_beside(
        slots,
        i,
        hole,
    ) by {
        assert(is_placed(slots, i));
        let at = choose|at: int| 0 <= at < slots.len() && #[trigger] slots[at] == i;
        assert(at != hole);
        assert(slots[at] == i);
    }
}

/// The number in slot `next` moves into the hole, which it is reached over.
pub proof fn lemma_moved(
    slots: Seq<u32>,
    homes: Seq<int>,
    number: int,
    hole: int,
    next: int,
    following: int,
)
    requires
        is_leaving(slots, homes, number, hole, next),
        slots[next] != 0,
        steps(homes[slots[next] as int], next, slots.len() as int) > steps(
            homes[slots[next] as int],
            hole,
            slots.len() as int,
        ),
        0 <= following < slots.len(),
        following != next,
        steps(next, following, slots.len() as int) == 1,
    ensures
        is_leaving(slots.update(hole, slots[next]), homes, number, next, following),
{
    let size = slots.len() as int;
    let after = slots.update(hole, slots[next]);
    lemma_occupied_update(slots, hole, slots[next]);
    assert forall|at: int| 0 <= at < size implies #[trigger] after[at] < homes.len() by {
        if at != hole {
            assert(after[at] == slots[at]);
        }
    }
    assert forall|at: int| 0 <= at < size && at != next implies #[trigger] after[at] != number by {
        if at != hole {
            assert(after[at] == slots[at]);
        }
    }
    assert forall|i: int| 1 <= i < homes.len() && i != number implies #[trigger] is_placed_beside(
        after,
        i,
        next,
    ) by {
        assert(is_placed_beside(slots, i, hole));
        let at = choose|at: int|
            0 <= at < slots.len() && at != hole && #[trigger] slots[at] == i;
        if at == next {
            assert(after[hole] == i);
        } else {
            assert(after[at] == i);
        }
    }
    assert forall|first: int, second: int|
        0 <= first < size && 0 <= second < size && first != next && second != next
            && #[trigger] after[first] == #[trigger] after[second] && after[first] != 0 implies first
        == second by {
        let old_first = if first == hole {
            next
        } else {
            first
        };
        let old_second = if second == hole {
            next
        } else {
            second
        };
        assert(slots[old_first] == after[first]);
        assert(slots[old_second] == after[second]);
    }
    assert forall|at: int| 0 <= at < size && at != next && #[trigger] after[at] != 0 implies
        is_reachable(after, homes[after[at] as int], at) by {
        let from = homes[after[at] as int];
        let old_at = if at == hole {
            next
        } else {
            at
        };
        assert(slots[old_at] == after[at]);
        assert(is_reachable(slots, from, old_at));
        assert forall|between: int|
            0 <= between < size && steps(from, between, size) < steps(
                from,
                at,
                size,
            ) implies #[trigger] after[between] != 0 by {
            if between != hole {
                assert(after[between] == slots[between]);
                assert(slots[between] != 0);
            }
        }
    }
}

/// The number in slot `next` stays, for it is not reached over the hole.
pub proof fn lemma_stayed(
    slots: Seq<u32>,
    homes: Seq<int>,
    number: int,
    hole: int,
    next: int,
    following: int,
)
    requires
        is_leaving(slots, homes, number, hole, next),
        slots[next] != 0,
        steps(homes[slots[next] as int], next, slots.len() as int) <= steps(
            homes[slots[next] as int],
            hole,
            slots.len() as int,
        ),
        0 <= following < slots.len(),
        following != hole,
        steps(hole, following, slots.len() as int) == steps(hole, next, slots.len() as int) + 1,
    ensures
        is_leaving(slots, homes, number, hole, following),
{
    let size = slots.len() as int;
    assert forall|at: int|
        0 <= at < size && 0 < steps(hole, at, size) < steps(
            hole,
            following,
            size,
        ) implies #[trigger] slots[at] != 0 && steps(homes[slots[at] as int], at, size) < steps(
        homes[slots[at] as int],
        hole,
        size,
    ) by {
        if steps(hole, at, size) < steps(hole, next, size) {
        } else {
            assert(at == next);
        }
    }
}

/// At an empty slot the hole can be emptied: the last number has left.
pub proof fn lemma_left(slots: Seq<u32>, homes: Seq<int>, hole: int, next: int)
    requires
        is_leaving(slots, homes, homes.len() - 1, hole, next),
        slots[next] == 0,
    ensures
        table_ok(slots.update(hole, 0), homes.drop_last()),
{
    let size = slots.len() as int;
    let number = homes.len() - 1;
    let after = slots.update(hole, 0);
    let rest = homes.drop_last();
    lemma_occupied_update(slots, hole, 0);
    assert forall|i: int| 0 <= i < rest.len() implies 0 <= #[trigger] rest[i] < after.len() by {
        assert(rest[i] == homes[i]);
    }
    assert forall|at: int| 0 <= at < size implies #[trigger] after[at] < rest.len() by {
        if at != hole {
            assert(after[at] == slots[at]);
            assert(slots[at] < homes.len());
            assert(slots[at] != number);
        } else {
            assert(rest.len() > 0);
        }
    }
    assert forall|i: int| 1 <= i < rest.len() implies #[trigger] is_placed(after, i) by {
        assert(is_placed_beside(slots, i, hole));
        let at = choose|at: int|
            0 <= at < slots.len() && at != hole && #[trigger] slots[at] == i;
        assert(after[at] == i);
    }
    assert forall|first: int, second: int|
        0 <= first < after.len() && 0 <= second < after.len() && #[trigger] after[first]
            == #[trigger] after[second] && after[first] != 0 implies first == second by {
        assert(slots[first] == after[first]);
        assert(slots[second] == after[second]);
    }
    assert forall|at: int| 0 <= at < after.len() && #[trigger] after[at] != 0 implies is_reachable(
        after,
        rest[after[at] as int],
        at,
    ) by {
        assert(slots[at] == after[at]);
        let from = homes[slots[at] as int];
        assert(from == rest[after[at] as int]);
        assert(is_reachable(slots, from, at));
        assert(0 <= from < size);
        assert forall|between: int|
            0 <= between < size && steps(from, between, size) < steps(
                from,
                at,
                size,
            ) implies #[trigger] after[between] != 0 by {
            if between == hole {
                if steps(hole, at, size) < steps(hole, next, size) {
                    assert(0 < steps(hole, at, size));
                    assert(steps(from, at, size) < steps(from, hole, size));
                } else {
                    assert(at != next);
                    assert(steps(from, next, size) < steps(from, at, size));
                    assert(slots[next] != 0);
                }
            } else {
                assert(after[between] == slots[between]);
                assert(slots[between] != 0);
            }
        }
    }
}

} // verus!
