//! Grouping of keyed items into an association list that keeps first-seen
//! key order, shared by the directory scanner and the listing reader.

use vstd::prelude::*;

verus! {

/// `item` appended to the group of `key`, or a new group where none has
/// that key yet.
pub open spec fn add_group<T>(
    gs: Seq<(Seq<char>, Seq<T>)>,
    key: Seq<char>,
    item: T,
) -> Seq<(Seq<char>, Seq<T>)>
    decreases gs.len(),
{
    if gs.len() == 0 {
        seq![(key, seq![item])]
    } else if gs[0].0 == key {
        seq![(gs[0].0, gs[0].1.push(item))] + gs.drop_first()
    } else {
        seq![gs[0]] + add_group(gs.drop_first(), key, item)
    }
}

/// Where the key already heads group `j`, adding appends to that group.
pub proof fn lemma_add_group_found<T>(
    gs: Seq<(Seq<char>, Seq<T>)>,
    key: Seq<char>,
    item: T,
    j: int,
)
    requires
        0 <= j < gs.len(),
        gs[j].0 == key,
        forall|k: int| 0 <= k < j ==> (#[trigger] gs[k]).0 != key,
    ensures
        add_group(gs, key, item) == gs.update(j, (key, gs[j].1.push(item))),
    decreases j,
{
    if j == 0 {
        assert(add_group(gs, key, item) =~= gs.update(0, (key, gs[0].1.push(item))));
    } else {
        let tail = gs.drop_first();
        assert(forall|k: int| 0 <= k < j - 1 ==> (#[trigger] tail[k]).0 != key) by {
            assert(forall|k: int| 0 <= k < j - 1 ==> tail[k] == gs[k + 1]);
        }
        assert(tail[j - 1] == gs[j]);
        lemma_add_group_found(tail, key, item, j - 1);
        assert(seq![gs[0]] + tail.update(j - 1, (key, tail[j - 1].1.push(item))) =~= gs.update(
            j,
            (key, gs[j].1.push(item)),
        ));
    }
}

/// Where no group has the key, adding appends a fresh group.
pub proof fn lemma_add_group_new<T>(gs: Seq<(Seq<char>, Seq<T>)>, key: Seq<char>, item: T)
    requires
        forall|k: int| 0 <= k < gs.len() ==> (#[trigger] gs[k]).0 != key,
    ensures
        add_group(gs, key, item) == gs.push((key, seq![item])),
    decreases gs.len(),
{
    if gs.len() == 0 {
        assert(add_group(gs, key, item) =~= gs.push((key, seq![item])));
    } else {
        let tail = gs.drop_first();
        assert(forall|k: int| 0 <= k < tail.len() ==> (#[trigger] tail[k]).0 != key) by {
            assert(forall|k: int| 0 <= k < tail.len() ==> tail[k] == gs[k + 1]);
        }
        lemma_add_group_new(tail, key, item);
        assert(seq![gs[0]] + tail.push((key, seq![item])) =~= gs.push((key, seq![item])));
    }
}

} // verus!
