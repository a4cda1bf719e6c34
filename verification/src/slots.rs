//! The mathematics of slot vectors: what insertion, deletion and merging do
//! to them, which shards they hold, and how their occupied slots are counted.

use crate::codec::{occupied, present_count, Slots};
use vstd::prelude::*;
use vstd::set_lib::{lemma_int_range, lemma_len_subset, set_int_range};

verus! {

/// What a shard is: a position in the shard vector and the buffer for it.
pub struct ShardView {
    pub index: nat,
    pub data: Seq<u8>,
}

/// `slots` with `data` put at `index`, whatever was there.
pub open spec fn inserted(slots: Slots, index: int, data: Seq<u8>) -> Slots {
    slots.update(index, Some(data))
}

/// `slots` with the slot at `index` cleared.
pub open spec fn deleted(slots: Slots, index: int) -> Slots {
    slots.update(index, None)
}

/// `slots` after `shard` has been offered to them: it takes its slot if the
/// slot exists and is absent, and is discarded otherwise.
pub open spec fn merged(slots: Slots, shard: ShardView) -> Slots {
    if shard.index < slots.len() && slots[shard.index as int] is None {
        slots.update(shard.index as int, Some(shard.data))
    } else {
        slots
    }
}

/// `slots` after the shards of `shards` have been offered to them, first to
/// last.
pub open spec fn merged_all(slots: Slots, shards: Seq<ShardView>) -> Slots
    decreases shards.len(),
{
    if shards.len() == 0 {
        slots
    } else {
        merged(merged_all(slots, shards.drop_last()), shards.last())
    }
}

/// The shards held in the slots from `from` on, in ascending order of index.
pub open spec fn present_from(slots: Slots, from: int) -> Seq<ShardView>
    decreases slots.len() - from,
{
    if from < 0 || from >= slots.len() {
        Seq::empty()
    } else if slots[from] is Some {
        seq![ShardView { index: from as nat, data: slots[from]->0 }] + present_from(
            slots,
            from + 1,
        )
    } else {
        present_from(slots, from + 1)
    }
}

/// All shards held in `slots`, in ascending order of index.
pub open spec fn present_shards(slots: Slots) -> Seq<ShardView> {
    present_from(slots, 0)
}

/// The number of bytes in the buffers of the first `upto` slots.
pub open spec fn stored_upto(slots: Slots, upto: int) -> nat
    decreases upto,
{
    if upto <= 0 || upto > slots.len() {
        0
    } else {
        stored_upto(slots, upto - 1) + match slots[upto - 1] {
            Some(buffer) => buffer.len(),
            None => 0,
        }
    }
}

/// The number of bytes in all buffers of `slots`.
pub open spec fn stored_bytes(slots: Slots) -> nat {
    stored_upto(slots, slots.len() as int)
}

/// The occupied positions of `slots` form a finite set: there are no more of
/// them than there are slots.
pub proof fn lemma_present_bounded(slots: Slots)
    ensures
        occupied(slots).finite(),
        present_count(slots) <= slots.len(),
{
    let range = set_int_range(0, slots.len() as int);
    lemma_int_range(0, slots.len() as int);
    assert(occupied(slots).subset_of(range));
    lemma_len_subset(occupied(slots), range);
}

/// Counting the occupied slots of a prefix one slot further.
pub proof fn lemma_present_step(slots: Slots, i: int)
    requires
        0 <= i < slots.len(),
    ensures
        present_count(slots.take(i + 1)) == present_count(slots.take(i)) + if slots[i] is Some {
            1nat
        } else {
            0nat
        },
{
    let shorter = occupied(slots.take(i));
    let longer = occupied(slots.take(i + 1));
    lemma_present_bounded(slots.take(i));
    if slots[i] is Some {
        assert(longer =~= shorter.insert(i));
    } else {
        assert(longer =~= shorter);
    }
}

/// The occupied positions of `slots` from `from` on.
pub open spec fn occupied_from(slots: Slots, from: int) -> Set<int> {
    Set::new(|i: int| from <= i < slots.len() && 0 <= i && slots[i] is Some)
}

/// The shards held from `from` on are the occupied slots from there on, each
/// once, in ascending order of index.
pub proof fn lemma_present_from(slots: Slots, from: int)
    requires
        0 <= from,
    ensures
        occupied_from(slots, from).finite(),
        present_from(slots, from).len() == occupied_from(slots, from).len(),
        forall|x: int|
            0 <= x < present_from(slots, from).len() ==> {
                let shard = #[trigger] present_from(slots, from)[x];
                from <= shard.index < slots.len() && slots[shard.index as int] == Some(shard.data)
            },
        forall|x: int, y: int|
            0 <= x < y < present_from(slots, from).len() ==> (#[trigger] present_from(
                slots,
                from,
            )[x]).index < (#[trigger] present_from(slots, from)[y]).index,
        forall|i: int|
            from <= i < slots.len() && (#[trigger] slots[i]) is Some ==> exists|x: int|
                0 <= x < present_from(slots, from).len() && (#[trigger] present_from(
                    slots,
                    from,
                )[x]).index == i,
    decreases slots.len() - from,
{
    let here = occupied_from(slots, from);
    let shards = present_from(slots, from);
    if from >= slots.len() {
        assert(here =~= Set::<int>::empty());
    } else {
        let later = occupied_from(slots, from + 1);
        let rest = present_from(slots, from + 1);
        lemma_present_from(slots, from + 1);
        if slots[from] is Some {
            assert(here =~= later.insert(from));
            assert(shards[0].index == from);
            assert forall|x: int| 1 <= x < shards.len() implies (#[trigger] shards[x]) == rest[x
                - 1] by {}
            assert forall|i: int| from <= i < slots.len() && (#[trigger] slots[i]) is Some implies
                exists|x: int| 0 <= x < shards.len() && (#[trigger] shards[x]).index == i by {
                if i == from {
                    assert(shards[0].index == i);
                } else {
                    let x = choose|x: int| 0 <= x < rest.len() && (#[trigger] rest[x]).index == i;
                    assert(shards[x + 1].index == i);
                }
            }
        } else {
            assert(here =~= later);
        }
    }
}

/// The shards held in `slots` are its occupied slots, each once, in ascending
/// order of index: there are as many of them as `present_count` says.
pub proof fn lemma_present_shards(slots: Slots)
    ensures
        present_shards(slots).len() == present_count(slots),
        forall|x: int|
            0 <= x < present_shards(slots).len() ==> {
                let shard = #[trigger] present_shards(slots)[x];
                shard.index < slots.len() && slots[shard.index as int] == Some(shard.data)
            },
        forall|x: int, y: int|
            0 <= x < y < present_shards(slots).len() ==> (#[trigger] present_shards(
                slots,
            )[x]).index < (#[trigger] present_shards(slots)[y]).index,
        forall|i: int|
            0 <= i < slots.len() && (#[trigger] slots[i]) is Some ==> exists|x: int|
                0 <= x < present_shards(slots).len() && (#[trigger] present_shards(
                    slots,
                )[x]).index == i,
{
    lemma_present_from(slots, 0);
    assert(occupied_from(slots, 0) =~= occupied(slots));
}

/// Merging keeps the number of slots and what the occupied slots hold, and
/// fills at most the slot of the shard.
pub proof fn lemma_merge_monotone(slots: Slots, shard: ShardView)
    ensures
        merged(slots, shard).len() == slots.len(),
        forall|i: int|
            0 <= i < slots.len() && (#[trigger] slots[i]) is Some ==> merged(slots, shard)[i]
                == slots[i],
        forall|i: int|
            0 <= i < slots.len() && i != shard.index ==> (#[trigger] merged(slots, shard)[i])
                == slots[i],
        shard.index < slots.len() ==> merged(slots, shard)[shard.index as int] is Some,
        occupied(slots).subset_of(occupied(merged(slots, shard))),
        present_count(slots) <= present_count(merged(slots, shard)),
{
    lemma_present_bounded(merged(slots, shard));
    lemma_len_subset(occupied(slots), occupied(merged(slots, shard)));
}

/// Merge is idempotent: a shard that is offered again changes nothing.
pub proof fn lemma_merge_idempotent(slots: Slots, shard: ShardView)
    ensures
        merged(merged(slots, shard), shard) == merged(slots, shard),
{
}

/// Two shards do not contradict each other over `slots`: if both are for
/// one slot, and `slots` has that slot and it is absent, they carry the same
/// buffer. Of two shards that do contradict each other, the one that is
/// offered first stays.
pub open spec fn agree(slots: Slots, a: ShardView, b: ShardView) -> bool {
    a.index == b.index && a.index < slots.len() && slots[a.index as int] is None ==> a.data
        == b.data
}

/// No two shards of `shards` contradict each other over `slots`.
pub open spec fn consistent(slots: Slots, shards: Seq<ShardView>) -> bool {
    forall|i: int, j: int|
        0 <= i < shards.len() && 0 <= j < shards.len() ==> agree(
            slots,
            #[trigger] shards[i],
            #[trigger] shards[j],
        )
}

/// Merge is commutative: two shards that do not contradict each other over
/// `slots` can be offered in either order.
pub proof fn lemma_merge_commutative(slots: Slots, a: ShardView, b: ShardView)
    requires
        agree(slots, a, b),
    ensures
        merged(merged(slots, a), b) == merged(merged(slots, b), a),
{
    assert(merged(merged(slots, a), b) =~= merged(merged(slots, b), a));
}

/// What a slot holds after a sequence of shards has been offered: what it
/// held before, if it was occupied; else the buffer of the shards for it, if
/// there is one; else nothing.
pub proof fn lemma_merged_all_slot(slots: Slots, shards: Seq<ShardView>, i: int)
    requires
        0 <= i < slots.len(),
        consistent(slots, shards),
    ensures
        merged_all(slots, shards).len() == slots.len(),
        slots[i] is Some ==> merged_all(slots, shards)[i] == slots[i],
        slots[i] is None ==> forall|j: int|
            0 <= j < shards.len() && (#[trigger] shards[j]).index == i ==> merged_all(
                slots,
                shards,
            )[i] == Some(shards[j].data),
        slots[i] is None && (forall|j: int|
            0 <= j < shards.len() ==> (#[trigger] shards[j]).index != i) ==> merged_all(
            slots,
            shards,
        )[i] is None,
    decreases shards.len(),
{
    if shards.len() > 0 {
        let earlier = shards.drop_last();
        let last = shards.last();
        assert forall|a: int, b: int| 0 <= a < earlier.len() && 0 <= b < earlier.len() implies agree(
            slots,
            #[trigger] earlier[a],
            #[trigger] earlier[b],
        ) by {
            assert(agree(slots, shards[a], shards[b]));
        }
        lemma_merged_all_slot(slots, earlier, i);
        lemma_merge_monotone(merged_all(slots, earlier), last);
        if slots[i] is None {
            assert forall|j: int| 0 <= j < shards.len() && (#[trigger] shards[j]).index
                == i implies merged_all(slots, shards)[i] == Some(shards[j].data) by {
                assert(agree(slots, shards[j], last));
                if j < earlier.len() {
                    assert(earlier[j].index == i);
                } else {
                    if merged_all(slots, earlier)[i] is Some {
                        let before = choose|b: int|
                            0 <= b < earlier.len() && (#[trigger] earlier[b]).index == i;
                        assert(agree(slots, shards[before], last));
                    }
                }
            }
            if forall|j: int| 0 <= j < shards.len() ==> (#[trigger] shards[j]).index != i {
                assert forall|j: int| 0 <= j < earlier.len() implies (#[trigger] earlier[j]).index
                    != i by {
                    assert(shards[j].index != i);
                }
                assert(last.index != i);
            }
        }
    }
}

/// The order in which shards are offered does not matter, as long as no two
/// of them contradict each other over `slots`: offering the same shards in
/// another order leaves the same slots.
pub proof fn lemma_merge_any_order(slots: Slots, first: Seq<ShardView>, second: Seq<ShardView>)
    requires
        consistent(slots, first),
        first.to_multiset() == second.to_multiset(),
    ensures
        merged_all(slots, first) == merged_all(slots, second),
{
    first.to_multiset_ensures();
    second.to_multiset_ensures();
    assert forall|j: int| 0 <= j < second.len() implies first.contains(#[trigger] second[j]) by {
        assert(second.contains(second[j]));
        assert(second.to_multiset().count(second[j]) > 0);
    }
    assert forall|j: int| 0 <= j < first.len() implies second.contains(#[trigger] first[j]) by {
        assert(first.contains(first[j]));
        assert(first.to_multiset().count(first[j]) > 0);
    }
    assert forall|a: int, b: int| 0 <= a < second.len() && 0 <= b < second.len() implies agree(
        slots,
        #[trigger] second[a],
        #[trigger] second[b],
    ) by {
        let x = choose|x: int| 0 <= x < first.len() && first[x] == second[a];
        let y = choose|y: int| 0 <= y < first.len() && first[y] == second[b];
        assert(agree(slots, first[x], first[y]));
    }
    assert forall|i: int| 0 <= i < slots.len() implies merged_all(slots, first)[i] == merged_all(
        slots,
        second,
    )[i] by {
        lemma_merged_all_slot(slots, first, i);
        lemma_merged_all_slot(slots, second, i);
        if slots[i] is None {
            if exists|j: int| 0 <= j < first.len() && (#[trigger] first[j]).index == i {
                let j = choose|j: int| 0 <= j < first.len() && (#[trigger] first[j]).index == i;
                let x = choose|x: int| 0 <= x < second.len() && second[x] == first[j];
                assert(second[x].index == i);
            } else {
                assert forall|x: int| 0 <= x < second.len() implies (#[trigger] second[x]).index
                    != i by {
                    let j = choose|j: int| 0 <= j < first.len() && first[j] == second[x];
                    assert(first[j].index != i);
                }
            }
        }
    }
    lemma_merged_all_len(slots, first);
    lemma_merged_all_len(slots, second);
    assert(merged_all(slots, first) =~= merged_all(slots, second));
}

/// Offering shards keeps the number of slots.
pub proof fn lemma_merged_all_len(slots: Slots, shards: Seq<ShardView>)
    ensures
        merged_all(slots, shards).len() == slots.len(),
    decreases shards.len(),
{
    if shards.len() > 0 {
        lemma_merged_all_len(slots, shards.drop_last());
    }
}

} // verus!
