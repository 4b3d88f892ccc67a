//! The board document and its counters agree: at every level the ids of a list
//! are unique and lie below the counter of the list's scope, so a counter never
//! issues an id that an entity of its scope carries.

use vstd::prelude::*;
use crate::model::{has_id, ids_below, ids_unique, Board, Card, Identified, Subtask, Task};
use crate::scope::{current, within, Owner, ScopeKey};

verus! {

/// The ids of `s` are unique and below the counter of scope `k`.
pub open spec fn list_fresh<T: Identified>(s: Seq<T>, m: Map<ScopeKey, i64>, k: ScopeKey) -> bool {
    ids_unique(s) && ids_below(s, current(m, k))
}

/// The tags of subtask `s` of task `t`, card `c`, board `b` agree with the counters.
pub open spec fn subtask_consistent(s: Subtask, m: Map<ScopeKey, i64>, b: i64, c: i64, t: i64) -> bool {
    list_fresh(s.tags@, m, ScopeKey::SubtaskTags { board: b, card: c, task: t, subtask: s.id })
}

/// Task `t` of card `c`, board `b`, and everything in it agree with the counters.
pub open spec fn task_consistent(t: Task, m: Map<ScopeKey, i64>, b: i64, c: i64) -> bool {
    &&& list_fresh(t.tags@, m, ScopeKey::TaskTags { board: b, card: c, task: t.id })
    &&& list_fresh(t.subtasks@, m, ScopeKey::Subtasks { board: b, card: c, task: t.id })
    &&& forall|j: int|
        0 <= j < t.subtasks@.len() ==> #[trigger] subtask_consistent(t.subtasks@[j], m, b, c, t.id)
}

/// Card `cd` of board `b` and everything in it agree with the counters.
pub open spec fn card_consistent(cd: Card, m: Map<ScopeKey, i64>, b: i64) -> bool {
    &&& list_fresh(cd.tasks@, m, ScopeKey::Tasks { board: b, card: cd.id })
    &&& forall|i: int| 0 <= i < cd.tasks@.len() ==> #[trigger] task_consistent(cd.tasks@[i], m, b, cd.id)
}

/// The cards cards of board `b` and everything in them agree with the counters.
pub open spec fn cards_consistent(cards: Seq<Card>, m: Map<ScopeKey, i64>, b: i64) -> bool {
    &&& list_fresh(cards, m, ScopeKey::Cards { board: b })
    &&& forall|i: int| 0 <= i < cards.len() ==> #[trigger] card_consistent(cards[i], m, b)
}

/// The board and the counters agree.
pub open spec fn consistent(board: Board, m: Map<ScopeKey, i64>) -> bool {
    cards_consistent(board.cards@, m, board.id)
}

/// `m1` and `m2` give every scope in the subtree of `o` the same counter.
pub open spec fn agree_within(m1: Map<ScopeKey, i64>, m2: Map<ScopeKey, i64>, o: Owner) -> bool {
    forall|k: ScopeKey| #[trigger] within(k, o) ==> current(m1, k) == current(m2, k)
}

/// A task's agreement depends only on the counters of its own subtree.
pub proof fn lemma_task_frame(t: Task, m1: Map<ScopeKey, i64>, m2: Map<ScopeKey, i64>, b: i64, c: i64)
    requires
        task_consistent(t, m1, b, c),
        agree_within(m1, m2, Owner::Task { board: b, card: c, task: t.id }),
    ensures
        task_consistent(t, m2, b, c),
{
    let o = Owner::Task { board: b, card: c, task: t.id };
    assert(within(ScopeKey::TaskTags { board: b, card: c, task: t.id }, o));
    assert(within(ScopeKey::Subtasks { board: b, card: c, task: t.id }, o));
    assert forall|j: int| 0 <= j < t.subtasks@.len() implies #[trigger] subtask_consistent(
        t.subtasks@[j],
        m2,
        b,
        c,
        t.id,
    ) by {
        assert(subtask_consistent(t.subtasks@[j], m1, b, c, t.id));
        let k = ScopeKey::SubtaskTags { board: b, card: c, task: t.id, subtask: t.subtasks@[j].id };
        assert(within(k, o));
    }
}

/// Scopes under task `t` lie under its card.
pub proof fn lemma_task_within_card(k: ScopeKey, b: i64, c: i64, t: i64)
    ensures
        within(k, Owner::Task { board: b, card: c, task: t }) ==> within(k, Owner::Card { board: b, card: c }),
{
}

/// A card's agreement depends only on the counters of its own subtree.
pub proof fn lemma_card_frame(cd: Card, m1: Map<ScopeKey, i64>, m2: Map<ScopeKey, i64>, b: i64)
    requires
        card_consistent(cd, m1, b),
        agree_within(m1, m2, Owner::Card { board: b, card: cd.id }),
    ensures
        card_consistent(cd, m2, b),
{
    let o = Owner::Card { board: b, card: cd.id };
    assert(within(ScopeKey::Tasks { board: b, card: cd.id }, o));
    assert forall|i: int| 0 <= i < cd.tasks@.len() implies #[trigger] task_consistent(cd.tasks@[i], m2, b, cd.id) by {
        let t = cd.tasks@[i];
        assert(task_consistent(t, m1, b, cd.id));
        assert forall|k: ScopeKey| #[trigger] within(k, Owner::Task { board: b, card: cd.id, task: t.id }) implies current(m1, k) == current(m2, k) by {
            lemma_task_within_card(k, b, cd.id, t.id);
        }
        lemma_task_frame(t, m1, m2, b, cd.id);
    }
}

/// A list numbered 1, 2, ... in order has unique ids, all below its length plus one.
pub proof fn lemma_numbered<T: Identified>(s: Seq<T>)
    requires
        s.len() < i64::MAX,
        forall|i: int| 0 <= i < s.len() ==> #[trigger] s[i].spec_id() == i + 1,
    ensures
        ids_unique(s),
        ids_below(s, (s.len() + 1) as i64),
{
}

/// In an agreeing list, the id that the list's scope issues next is carried by
/// no entity of the list, and is greater than every id in it.
pub proof fn lemma_next_id_fresh<T: Identified>(s: Seq<T>, m: Map<ScopeKey, i64>, k: ScopeKey)
    requires
        list_fresh(s, m, k),
    ensures
        !has_id(s, current(m, k)),
        forall|i: int| 0 <= i < s.len() ==> #[trigger] s[i].spec_id() < current(m, k),
{
}

} // verus!
