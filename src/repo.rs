//! Operations on one board document and the id counters of its scopes. Each
//! either succeeds whole or leaves both untouched; the caller persists the
//! document and the counters together.

use vstd::prelude::*;
use crate::access::{
    authorize_board_level, authorize_shared, may_administer, may_create_board, may_edit,
};
use crate::color::{is_valid_color, validate_color};
use crate::model::{
    card_same_but_tasks, has_id, ids_below, ids_unique, index_of, is_first_with_id, lemma_index_of,
    locate_card, locate_subtask, locate_task, position_of, resolves_subtask, resolves_task,
    lemma_push_fresh, lemma_remove_keeps_ids, lemma_same_ids, subtask_miss, subtask_of, task_miss, task_of,
    task_same_but_subtasks, Board, BoardHeader,
    BoardsShort, Card, Identified, NotFound, Subtask, Tag, Task, Timelines,
};
use crate::patch::{
    apply_executors, apply_flag, apply_text, background_after, background_ok, background_valid,
    check_background, check_background_value, check_color, check_flag, check_ids, check_text,
    check_title, color_ok, copy_background, executors_after, flag_after, flag_ok, ids_ok,
    text_after, text_ok, title_ok, Patch, PatchValue,
};
use crate::prepare::{
    card_fits, card_fits_check, card_prepared, card_seed, card_valid, lemma_prepared_card_fits,
    lemma_prepared_task_fits, prepare_card, prepare_subtask, prepare_task, seed_card, seed_task,
    seeded, subtask_fits, subtask_fits_check, subtask_prepared, subtask_valid, tag_valid,
    task_fits, task_fits_check, task_prepared, task_seed, task_valid, validate_card,
    validate_subtask, validate_tag, validate_task,
};
use crate::consistency::{
    agree_within, card_consistent, lemma_task_within_card, cards_consistent, consistent, lemma_card_frame, lemma_numbered,
    lemma_task_frame, list_fresh, subtask_consistent, task_consistent,
};
use crate::scope::{
    current, step, within, without_subtree, CounterOp, Owner, ScopeCounters, ScopeKey,
};

verus! {

/// Why an operation was refused.
#[derive(Debug, Clone, Copy, PartialEq, Eq, Structural)]
pub enum CoreError {
    /// The address resolves to no entity at the given level.
    NotFound(NotFound),
    /// The user lacks the relationship to the board that the operation needs.
    Unauthorized,
    /// A malformed color, an empty required title or a field of the wrong type.
    InvalidInput,
    /// A user without a paid plan already holds a board.
    QuotaExceeded,
    /// A scope has issued every id an `i64` can hold.
    IdsExhausted,
}

/// `a` equals `b` except, perhaps, in its cards.
pub open spec fn board_same_but_cards(a: Board, b: Board) -> bool {
    a == (Board { cards: a.cards, ..b })
}

/// Adds `card` to the board: the card gets the next id of the board's card
/// scope, and it and everything in it pass to `user_id`; executors are limited
/// to the board's members, and the counters of the new subtree are stored.
/// Returns the new card's id.
pub fn insert_card(board: &mut Board, counters: &mut ScopeCounters, user_id: i64, card: Card)
    -> (r: Result<i64, CoreError>)
    requires
        old(counters).wf(),
    ensures
        final(counters).wf(),
        consistent(*old(board), old(counters)@) ==> consistent(*final(board), final(counters)@),
        (r is Ok) == (may_edit(user_id, *old(board)) && card_valid(card) && card_fits(card) && current(
            old(counters)@,
            ScopeKey::Cards { board: old(board).id },
        ) < i64::MAX),
        match r {
            Ok(id) => {
                let n = final(board).cards@.last();
                &&& id == current(old(counters)@, ScopeKey::Cards { board: old(board).id })
                &&& board_same_but_cards(*final(board), *old(board))
                &&& final(board).cards@ == old(board).cards@.push(n)
                &&& card_prepared(n, card, id, user_id, old(board).shared_with@)
                &&& seeded(
                    final(counters)@,
                    step(old(counters)@, CounterOp::Next(ScopeKey::Cards { board: old(board).id })),
                    Owner::Card { board: old(board).id, card: id },
                    |k: ScopeKey| card_seed(old(board).id, n, n.tasks@.len() as int, k),
                )
            },
            Err(e) => {
                &&& *final(board) == *old(board)
                &&& final(counters)@ == old(counters)@
                &&& e == (if !may_edit(user_id, *old(board)) {
                    CoreError::Unauthorized
                } else if !card_valid(card) {
                    CoreError::InvalidInput
                } else {
                    CoreError::IdsExhausted
                })
            },
        },
{
    if !authorize_shared(user_id, board) {
        return Err(CoreError::Unauthorized);
    }
    let mut c = card;
    if !validate_card(&c) {
        return Err(CoreError::InvalidInput);
    }
    if !card_fits_check(&c) {
        return Err(CoreError::IdsExhausted);
    }
    let ghost m0 = counters@;
    let id = match counters.next(ScopeKey::Cards { board: board.id }) {
        Some(id) => id,
        None => return Err(CoreError::IdsExhausted),
    };
    let ghost o = c;
    prepare_card(&mut c, id, user_id, &board.shared_with);
    proof {
        lemma_prepared_card_fits(c, o, id, user_id, board.shared_with@);
    }
    seed_card(counters, board.id, &c);
    proof {
        if consistent(*board, m0) {
            lemma_insert_card_consistent(
                board.cards@,
                m0,
                counters@,
                board.id,
                c,
                o,
                user_id,
                board.shared_with@,
            );
        }
    }
    board.cards.push(c);
    Ok(id)
}

/// Adds `task` to card `card_id`: the task gets the next id of the card's task
/// scope, and it and its subtasks pass to `user_id`; executors are limited to
/// the board's members, and the counters of the new subtree are stored.
/// Returns the new task's id.
pub fn insert_task(
    board: &mut Board,
    counters: &mut ScopeCounters,
    user_id: i64,
    card_id: i64,
    task: Task,
) -> (r: Result<i64, CoreError>)
    requires
        old(counters).wf(),
    ensures
        final(counters).wf(),
        consistent(*old(board), old(counters)@) ==> consistent(*final(board), final(counters)@),
        (r is Ok) == (may_edit(user_id, *old(board)) && task_valid(task) && has_id(
            old(board).cards@,
            card_id,
        ) && task_fits(task)
            && current(old(counters)@, ScopeKey::Tasks { board: old(board).id, card: card_id })
            < i64::MAX),
        match r {
            Ok(id) => {
                let i = index_of(old(board).cards@, card_id);
                let oc = old(board).cards@[i];
                let nc = final(board).cards@[i];
                let n = nc.tasks@.last();
                &&& id == current(old(counters)@, ScopeKey::Tasks { board: old(board).id, card: card_id })
                &&& board_same_but_cards(*final(board), *old(board))
                &&& final(board).cards@ == old(board).cards@.update(i, nc)
                &&& card_same_but_tasks(nc, oc)
                &&& nc.tasks@ == oc.tasks@.push(n)
                &&& task_prepared(n, task, id, user_id, old(board).shared_with@)
                &&& seeded(
                    final(counters)@,
                    step(old(counters)@, CounterOp::Next(ScopeKey::Tasks { board: old(board).id, card: card_id })),
                    Owner::Task { board: old(board).id, card: card_id, task: id },
                    |k: ScopeKey| task_seed(old(board).id, card_id, n, n.subtasks@.len() as int, k),
                )
            },
            Err(e) => {
                &&& *final(board) == *old(board)
                &&& final(counters)@ == old(counters)@
                &&& e == (if !may_edit(user_id, *old(board)) {
                    CoreError::Unauthorized
                } else if !task_valid(task) {
                    CoreError::InvalidInput
                } else if !has_id(old(board).cards@, card_id) {
                    CoreError::NotFound(NotFound::Card)
                } else {
                    CoreError::IdsExhausted
                })
            },
        },
{
    if !authorize_shared(user_id, board) {
        return Err(CoreError::Unauthorized);
    }
    let mut t = task;
    if !validate_task(&t) {
        return Err(CoreError::InvalidInput);
    }
    let i = match locate_card(&board.cards, card_id) {
        Ok(i) => i,
        Err(e) => return Err(CoreError::NotFound(e)),
    };
    if !task_fits_check(&t) {
        return Err(CoreError::IdsExhausted);
    }
    let ghost m0 = counters@;
    let ghost old_cards = board.cards@;
    let id = match counters.next(ScopeKey::Tasks { board: board.id, card: card_id }) {
        Some(id) => id,
        None => return Err(CoreError::IdsExhausted),
    };
    let ghost o = t;
    prepare_task(&mut t, id, user_id, &board.shared_with);
    proof {
        lemma_prepared_task_fits(t, o, id, user_id, board.shared_with@);
    }
    seed_task(counters, board.id, card_id, &t);
    let ghost n = t;
    board.cards[i].tasks.push(t);
    proof {
        if cards_consistent(old_cards, m0, board.id) {
            assert(board.cards@ == old_cards.update(i as int, board.cards@[i as int]));
            lemma_insert_task_consistent(
                old_cards,
                board.cards@,
                m0,
                counters@,
                board.id,
                card_id,
                n,
                o,
                user_id,
                board.shared_with@,
            );
        }
    }
    Ok(id)
}

/// Adds `subtask` to task `task_id` of card `card_id`: the subtask gets the
/// next id of the task's subtask scope and passes to `user_id`; executors are
/// limited to the board's members, and the subtask's tag counter is stored.
/// Returns the new subtask's id.
pub fn insert_subtask(
    board: &mut Board,
    counters: &mut ScopeCounters,
    user_id: i64,
    card_id: i64,
    task_id: i64,
    subtask: Subtask,
) -> (r: Result<i64, CoreError>)
    requires
        old(counters).wf(),
    ensures
        consistent(*old(board), old(counters)@) ==> consistent(*final(board), final(counters)@),
        final(counters).wf(),
        (r is Ok) == (may_edit(user_id, *old(board)) && subtask_valid(subtask) && resolves_task(
            old(board).cards@,
            card_id,
            task_id,
        )
            && subtask_fits(subtask) && current(
            old(counters)@,
            ScopeKey::Subtasks { board: old(board).id, card: card_id, task: task_id },
        ) < i64::MAX),
        match r {
            Ok(id) => {
                let i = index_of(old(board).cards@, card_id);
                let oc = old(board).cards@[i];
                let nc = final(board).cards@[i];
                let j = index_of(oc.tasks@, task_id);
                let ot = oc.tasks@[j];
                let nt = nc.tasks@[j];
                let n = nt.subtasks@.last();
                &&& id == current(
                    old(counters)@,
                    ScopeKey::Subtasks { board: old(board).id, card: card_id, task: task_id },
                )
                &&& board_same_but_cards(*final(board), *old(board))
                &&& final(board).cards@ == old(board).cards@.update(i, nc)
                &&& card_same_but_tasks(nc, oc)
                &&& nc.tasks@ == oc.tasks@.update(j, nt)
                &&& task_same_but_subtasks(nt, ot)
                &&& nt.subtasks@ == ot.subtasks@.push(n)
                &&& subtask_prepared(n, subtask, id, user_id, old(board).shared_with@)
                &&& final(counters)@ == without_subtree(
                    step(
                        old(counters)@,
                        CounterOp::Next(
                            ScopeKey::Subtasks { board: old(board).id, card: card_id, task: task_id },
                        ),
                    ),
                    Owner::Subtask { board: old(board).id, card: card_id, task: task_id, subtask: id },
                ).insert(
                    ScopeKey::SubtaskTags {
                        board: old(board).id,
                        card: card_id,
                        task: task_id,
                        subtask: id,
                    },
                    (n.tags@.len() + 1) as i64,
                )
            },
            Err(e) => {
                &&& *final(board) == *old(board)
                &&& final(counters)@ == old(counters)@
                &&& e == (if !may_edit(user_id, *old(board)) {
                    CoreError::Unauthorized
                } else if !subtask_valid(subtask) {
                    CoreError::InvalidInput
                } else if !resolves_task(old(board).cards@, card_id, task_id) {
                    CoreError::NotFound(task_miss(old(board).cards@, card_id))
                } else {
                    CoreError::IdsExhausted
                })
            },
        },
{
    if !authorize_shared(user_id, board) {
        return Err(CoreError::Unauthorized);
    }
    let mut st = subtask;
    if !validate_subtask(&st) {
        return Err(CoreError::InvalidInput);
    }
    let (i, j) = match locate_task(&board.cards, card_id, task_id) {
        Ok(p) => p,
        Err(e) => return Err(CoreError::NotFound(e)),
    };
    if !subtask_fits_check(&st) {
        return Err(CoreError::IdsExhausted);
    }
    let ghost m0 = counters@;
    let id = match counters.next(ScopeKey::Subtasks { board: board.id, card: card_id, task: task_id }) {
        Some(id) => id,
        None => return Err(CoreError::IdsExhausted),
    };
    let ghost o = st;
    prepare_subtask(&mut st, id, user_id, &board.shared_with);
    counters.reset_subtree(
        &Owner::Subtask { board: board.id, card: card_id, task: task_id, subtask: id },
    );
    counters.set(
        ScopeKey::SubtaskTags { board: board.id, card: card_id, task: task_id, subtask: id },
        (st.tags.len() as i64) + 1,
    );
    board.cards[i].tasks[j].subtasks.push(st);
    proof {
        let oc = old(board).cards@;
        if consistent(*old(board), m0) {
            lemma_task_at_consistent(oc, m0, board.id, card_id, task_id);
            let ot = task_of(oc, card_id, task_id);
            let nt = task_in(board.cards@, oc, card_id, task_id);
            lemma_insert_subtask_task_consistent(
                ot,
                nt,
                m0,
                counters@,
                board.id,
                card_id,
                nt.subtasks@.last(),
                o,
                user_id,
                board.shared_with@,
            );
            lemma_replace_task_consistent(oc, board.cards@, m0, counters@, board.id, card_id, task_id, nt);
        }
    }
    Ok(id)
}

/// A copy of `tag` under id `id`.
pub open spec fn tag_with_id(tag: Tag, id: i64) -> Tag {
    Tag { id, ..tag }
}

fn copy_tag(tag: &Tag, id: i64) -> (r: Tag)
    ensures
        r == tag_with_id(*tag, id),
{
    Tag {
        id,
        title: tag.title.clone(),
        text_color: tag.text_color.clone(),
        background_color: tag.background_color.clone(),
    }
}

/// Adds a copy of `tag` to the tags of task `task_id` of card `card_id`, under
/// the next id of that task's tag scope. Returns the new tag's id.
pub fn create_tag_at_task(
    board: &mut Board,
    counters: &mut ScopeCounters,
    user_id: i64,
    card_id: i64,
    task_id: i64,
    tag: &Tag,
) -> (r: Result<i64, CoreError>)
    requires
        old(counters).wf(),
    ensures
        final(counters).wf(),
        consistent(*old(board), old(counters)@) ==> consistent(*final(board), final(counters)@),
        (r is Ok) == (may_edit(user_id, *old(board)) && tag_valid(*tag) && resolves_task(
            old(board).cards@,
            card_id,
            task_id,
        )
            && current(
            old(counters)@,
            ScopeKey::TaskTags { board: old(board).id, card: card_id, task: task_id },
        ) < i64::MAX),
        match r {
            Ok(id) => {
                let i = index_of(old(board).cards@, card_id);
                let oc = old(board).cards@[i];
                let nc = final(board).cards@[i];
                let j = index_of(oc.tasks@, task_id);
                let ot = oc.tasks@[j];
                let nt = nc.tasks@[j];
                &&& id == current(
                    old(counters)@,
                    ScopeKey::TaskTags { board: old(board).id, card: card_id, task: task_id },
                )
                &&& board_same_but_cards(*final(board), *old(board))
                &&& final(board).cards@ == old(board).cards@.update(i, nc)
                &&& card_same_but_tasks(nc, oc)
                &&& nc.tasks@ == oc.tasks@.update(j, nt)
                &&& nt == (Task { tags: nt.tags, ..ot })
                &&& nt.tags@ == ot.tags@.push(tag_with_id(*tag, id))
                &&& final(counters)@ == step(
                    old(counters)@,
                    CounterOp::Next(
                        ScopeKey::TaskTags { board: old(board).id, card: card_id, task: task_id },
                    ),
                )
            },
            Err(e) => {
                &&& *final(board) == *old(board)
                &&& final(counters)@ == old(counters)@
                &&& e == (if !may_edit(user_id, *old(board)) {
                    CoreError::Unauthorized
                } else if !tag_valid(*tag) {
                    CoreError::InvalidInput
                } else if !resolves_task(old(board).cards@, card_id, task_id) {
                    CoreError::NotFound(task_miss(old(board).cards@, card_id))
                } else {
                    CoreError::IdsExhausted
                })
            },
        },
{
    if !authorize_shared(user_id, board) {
        return Err(CoreError::Unauthorized);
    }
    if !validate_tag(tag) {
        return Err(CoreError::InvalidInput);
    }
    let (i, j) = match locate_task(&board.cards, card_id, task_id) {
        Ok(p) => p,
        Err(e) => return Err(CoreError::NotFound(e)),
    };
    let ghost m0 = counters@;
    let id = match counters.next(ScopeKey::TaskTags { board: board.id, card: card_id, task: task_id }) {
        Some(id) => id,
        None => return Err(CoreError::IdsExhausted),
    };
    let t = copy_tag(tag, id);
    board.cards[i].tasks[j].tags.push(t);
    proof {
        let oc = old(board).cards@;
        if consistent(*old(board), m0) {
            lemma_task_at_consistent(oc, m0, board.id, card_id, task_id);
            let ot = task_of(oc, card_id, task_id);
            let nt = task_in(board.cards@, oc, card_id, task_id);
            let key = ScopeKey::TaskTags { board: board.id, card: card_id, task: task_id };
            lemma_create_tag_keeps_ids(ot.tags@, nt.tags@, m0, counters@, key, id, *tag);
            lemma_task_tags_changed(ot, nt, m0, counters@, board.id, card_id);
            assert forall|k: ScopeKey| !within(k, Owner::Task { board: board.id, card: card_id, task: task_id }) implies #[trigger] current(m0, k) == current(counters@, k) by {
                assert(k != key);
            }
            lemma_replace_task_consistent(oc, board.cards@, m0, counters@, board.id, card_id, task_id, nt);
        }
    }
    Ok(id)
}

/// `a` equals `b` except, perhaps, in its tags.
pub open spec fn subtask_same_but_tags(a: Subtask, b: Subtask) -> bool {
    a == (Subtask { tags: a.tags, ..b })
}

/// `a` equals `b` except, perhaps, in its tags.
pub open spec fn task_same_but_tags(a: Task, b: Task) -> bool {
    a == (Task { tags: a.tags, ..b })
}

/// The subtask of `n` at the positions where `o` holds the subtask `(c, t, s)`.
pub open spec fn subtask_in(n: Seq<Card>, o: Seq<Card>, c: i64, t: i64, s: i64) -> Subtask {
    let i = index_of(o, c);
    let j = index_of(o[i].tasks@, t);
    let k = index_of(o[i].tasks@[j].subtasks@, s);
    n[i].tasks@[j].subtasks@[k]
}

/// The task of `n` at the positions where `o` holds the task `(c, t)`.
pub open spec fn task_in(n: Seq<Card>, o: Seq<Card>, c: i64, t: i64) -> Task {
    let i = index_of(o, c);
    let j = index_of(o[i].tasks@, t);
    n[i].tasks@[j]
}

/// The cards `n` are `o` with the subtask at address `(c, t, s)` replaced by `ns`.
pub open spec fn subtask_replaced(n: Seq<Card>, o: Seq<Card>, c: i64, t: i64, s: i64, ns: Subtask)
    -> bool {
    let i = index_of(o, c);
    let oc = o[i];
    let j = index_of(oc.tasks@, t);
    let ot = oc.tasks@[j];
    let k = index_of(ot.subtasks@, s);
    let nc = n[i];
    let nt = nc.tasks@[j];
    &&& n == o.update(i, nc)
    &&& card_same_but_tasks(nc, oc)
    &&& nc.tasks@ == oc.tasks@.update(j, nt)
    &&& task_same_but_subtasks(nt, ot)
    &&& nt.subtasks@ == ot.subtasks@.update(k, ns)
}

/// The cards `n` are `o` with the task at address `(c, t)` replaced by `nt`.
pub open spec fn task_replaced(n: Seq<Card>, o: Seq<Card>, c: i64, t: i64, nt: Task) -> bool {
    let i = index_of(o, c);
    let oc = o[i];
    let j = index_of(oc.tasks@, t);
    let nc = n[i];
    &&& n == o.update(i, nc)
    &&& card_same_but_tasks(nc, oc)
    &&& nc.tasks@ == oc.tasks@.update(j, nt)
}

/// Adds a copy of `tag` to the tags of subtask `(card_id, task_id, subtask_id)`,
/// under the next id of that subtask's tag scope. Returns the new tag's id.
pub fn create_tag_at_subtask(
    board: &mut Board,
    counters: &mut ScopeCounters,
    user_id: i64,
    card_id: i64,
    task_id: i64,
    subtask_id: i64,
    tag: &Tag,
) -> (r: Result<i64, CoreError>)
    requires
        old(counters).wf(),
    ensures
        final(counters).wf(),
        consistent(*old(board), old(counters)@) ==> consistent(*final(board), final(counters)@),
        (r is Ok) == (may_edit(user_id, *old(board)) && tag_valid(*tag) && resolves_subtask(
            old(board).cards@,
            card_id,
            task_id,
            subtask_id,
        ) && current(
            old(counters)@,
            ScopeKey::SubtaskTags {
                board: old(board).id,
                card: card_id,
                task: task_id,
                subtask: subtask_id,
            },
        ) < i64::MAX),
        match r {
            Ok(id) => {
                let os = subtask_of(old(board).cards@, card_id, task_id, subtask_id);
                let ns = subtask_in(final(board).cards@, old(board).cards@, card_id, task_id, subtask_id);
                &&& id == current(
                    old(counters)@,
                    ScopeKey::SubtaskTags {
                        board: old(board).id,
                        card: card_id,
                        task: task_id,
                        subtask: subtask_id,
                    },
                )
                &&& board_same_but_cards(*final(board), *old(board))
                &&& subtask_replaced(final(board).cards@, old(board).cards@, card_id, task_id, subtask_id, ns)
                &&& subtask_same_but_tags(ns, os)
                &&& ns.tags@ == os.tags@.push(tag_with_id(*tag, id))
                &&& final(counters)@ == step(
                    old(counters)@,
                    CounterOp::Next(
                        ScopeKey::SubtaskTags {
                            board: old(board).id,
                            card: card_id,
                            task: task_id,
                            subtask: subtask_id,
                        },
                    ),
                )
            },
            Err(e) => {
                &&& *final(board) == *old(board)
                &&& final(counters)@ == old(counters)@
                &&& e == (if !may_edit(user_id, *old(board)) {
                    CoreError::Unauthorized
                } else if !tag_valid(*tag) {
                    CoreError::InvalidInput
                } else if !resolves_subtask(old(board).cards@, card_id, task_id, subtask_id) {
                    CoreError::NotFound(subtask_miss(old(board).cards@, card_id, task_id))
                } else {
                    CoreError::IdsExhausted
                })
            },
        },
{
    if !authorize_shared(user_id, board) {
        return Err(CoreError::Unauthorized);
    }
    if !validate_tag(tag) {
        return Err(CoreError::InvalidInput);
    }
    let (i, j, k) = match locate_subtask(&board.cards, card_id, task_id, subtask_id) {
        Ok(p) => p,
        Err(e) => return Err(CoreError::NotFound(e)),
    };
    let ghost m0 = counters@;
    let id = match counters.next(
        ScopeKey::SubtaskTags { board: board.id, card: card_id, task: task_id, subtask: subtask_id },
    ) {
        Some(id) => id,
        None => return Err(CoreError::IdsExhausted),
    };
    let t = copy_tag(tag, id);
    board.cards[i].tasks[j].subtasks[k].tags.push(t);
    proof {
        let oc = old(board).cards@;
        if consistent(*old(board), m0) {
            let key = ScopeKey::SubtaskTags {
                board: board.id,
                card: card_id,
                task: task_id,
                subtask: subtask_id,
            };
            let os = subtask_of(oc, card_id, task_id, subtask_id);
            let ns = subtask_in(board.cards@, oc, card_id, task_id, subtask_id);
            lemma_subtask_at_consistent(oc, m0, board.id, card_id, task_id, subtask_id);
            lemma_create_tag_keeps_ids(os.tags@, ns.tags@, m0, counters@, key, id, *tag);
            assert forall|k2: ScopeKey|
                !within(k2, Owner::Subtask { board: board.id, card: card_id, task: task_id, subtask: subtask_id })
                implies #[trigger] current(m0, k2) == current(counters@, k2) by {
                assert(k2 != key);
            }
            lemma_replace_subtask_consistent(
                oc,
                board.cards@,
                m0,
                counters@,
                board.id,
                card_id,
                task_id,
                subtask_id,
                ns,
            );
        }
    }
    Ok(id)
}

/// Deletes card `card_id` with everything in it, and the counters of its subtree.
pub fn remove_card(
    board: &mut Board,
    counters: &mut ScopeCounters,
    user_id: i64,
    card_id: i64,
) -> (r: Result<(), CoreError>)
    requires
        old(counters).wf(),
    ensures
        (r is Ok && consistent(*old(board), old(counters)@)) ==> {
            &&& !has_id(final(board).cards@, card_id)
            &&& forall|t: i64| !#[trigger] resolves_task(final(board).cards@, card_id, t)
            &&& forall|t: i64, st: i64| !#[trigger] resolves_subtask(final(board).cards@, card_id, t, st)
        },
        final(counters).wf(),
        consistent(*old(board), old(counters)@) ==> consistent(*final(board), final(counters)@),
        (r is Ok) == (may_edit(user_id, *old(board)) && has_id(old(board).cards@, card_id)),
        match r {
            Ok(_) => {
                &&& board_same_but_cards(*final(board), *old(board))
                &&& final(board).cards@ == old(board).cards@.remove(
                    index_of(old(board).cards@, card_id),
                )
                &&& final(counters)@ == without_subtree(
                    old(counters)@,
                    Owner::Card { board: old(board).id, card: card_id },
                )
            },
            Err(e) => {
                &&& *final(board) == *old(board)
                &&& final(counters)@ == old(counters)@
                &&& e == (if !may_edit(user_id, *old(board)) {
                    CoreError::Unauthorized
                } else {
                    CoreError::NotFound(NotFound::Card)
                })
            },
        },
{
    if !authorize_shared(user_id, board) {
        return Err(CoreError::Unauthorized);
    }
    let i = match locate_card(&board.cards, card_id) {
        Ok(i) => i,
        Err(e) => return Err(CoreError::NotFound(e)),
    };
    proof {
        if consistent(*board, counters@) {
            lemma_remove_card_consistent(board.cards@, counters@, board.id, card_id);
            lemma_card_cascade(
                board.cards@,
                board.cards@.remove(i as int),
                counters@,
                without_subtree(counters@, Owner::Card { board: board.id, card: card_id }),
                board.id,
                card_id,
            );
        }
    }
    board.cards.remove(i);
    counters.reset_subtree(&Owner::Card { board: board.id, card: card_id });
    Ok(())
}

/// Deletes task `(card_id, task_id)` with its subtasks, and the counters of its subtree.
pub fn remove_task(
    board: &mut Board,
    counters: &mut ScopeCounters,
    user_id: i64,
    card_id: i64,
    task_id: i64,
) -> (r: Result<(), CoreError>)
    requires
        old(counters).wf(),
    ensures
        consistent(*old(board), old(counters)@) ==> consistent(*final(board), final(counters)@),
        final(counters).wf(),
        (r is Ok) == (may_edit(user_id, *old(board)) && resolves_task(old(board).cards@, card_id, task_id)),
        match r {
            Ok(_) => {
                let i = index_of(old(board).cards@, card_id);
                let oc = old(board).cards@[i];
                let nc = final(board).cards@[i];
                &&& board_same_but_cards(*final(board), *old(board))
                &&& final(board).cards@ == old(board).cards@.update(i, nc)
                &&& card_same_but_tasks(nc, oc)
                &&& nc.tasks@ == oc.tasks@.remove(index_of(oc.tasks@, task_id))
                &&& final(counters)@ == without_subtree(
                    old(counters)@,
                    Owner::Task { board: old(board).id, card: card_id, task: task_id },
                )
            },
            Err(e) => {
                &&& *final(board) == *old(board)
                &&& final(counters)@ == old(counters)@
                &&& e == (if !may_edit(user_id, *old(board)) {
                    CoreError::Unauthorized
                } else {
                    CoreError::NotFound(task_miss(old(board).cards@, card_id))
                })
            },
        },
{
    if !authorize_shared(user_id, board) {
        return Err(CoreError::Unauthorized);
    }
    let ghost m0 = counters@;
    let (i, j) = match locate_task(&board.cards, card_id, task_id) {
        Ok(p) => p,
        Err(e) => return Err(CoreError::NotFound(e)),
    };
    board.cards[i].tasks.remove(j);
    counters.reset_subtree(&Owner::Task { board: board.id, card: card_id, task: task_id });
    proof {
        if consistent(*old(board), m0) {
            lemma_remove_task_consistent(old(board).cards@, board.cards@, m0, board.id, card_id, task_id);
        }
    }
    Ok(())
}

/// Deletes subtask `(card_id, task_id, subtask_id)` and the counter of its tags.
pub fn remove_subtask(
    board: &mut Board,
    counters: &mut ScopeCounters,
    user_id: i64,
    card_id: i64,
    task_id: i64,
    subtask_id: i64,
) -> (r: Result<(), CoreError>)
    requires
        old(counters).wf(),
    ensures
        consistent(*old(board), old(counters)@) ==> consistent(*final(board), final(counters)@),
        final(counters).wf(),
        (r is Ok) == (may_edit(user_id, *old(board)) && resolves_subtask(
            old(board).cards@,
            card_id,
            task_id,
            subtask_id,
        )),
        match r {
            Ok(_) => {
                let ot = task_of(old(board).cards@, card_id, task_id);
                let nt = task_in(final(board).cards@, old(board).cards@, card_id, task_id);
                &&& board_same_but_cards(*final(board), *old(board))
                &&& task_replaced(final(board).cards@, old(board).cards@, card_id, task_id, nt)
                &&& task_same_but_subtasks(nt, ot)
                &&& nt.subtasks@ == ot.subtasks@.remove(index_of(ot.subtasks@, subtask_id))
                &&& final(counters)@ == without_subtree(
                    old(counters)@,
                    Owner::Subtask {
                        board: old(board).id,
                        card: card_id,
                        task: task_id,
                        subtask: subtask_id,
                    },
                )
            },
            Err(e) => {
                &&& *final(board) == *old(board)
                &&& final(counters)@ == old(counters)@
                &&& e == (if !may_edit(user_id, *old(board)) {
                    CoreError::Unauthorized
                } else {
                    CoreError::NotFound(subtask_miss(old(board).cards@, card_id, task_id))
                })
            },
        },
{
    if !authorize_shared(user_id, board) {
        return Err(CoreError::Unauthorized);
    }
    let ghost m0 = counters@;
    let (i, j, k) = match locate_subtask(&board.cards, card_id, task_id, subtask_id) {
        Ok(p) => p,
        Err(e) => return Err(CoreError::NotFound(e)),
    };
    board.cards[i].tasks[j].subtasks.remove(k);
    counters.reset_subtree(
        &Owner::Subtask { board: board.id, card: card_id, task: task_id, subtask: subtask_id },
    );
    proof {
        let oc = old(board).cards@;
        if consistent(*old(board), m0) {
            lemma_task_at_consistent(oc, m0, board.id, card_id, task_id);
            let ot = task_of(oc, card_id, task_id);
            let nt = task_in(board.cards@, oc, card_id, task_id);
            lemma_remove_subtask_task_consistent(ot, nt, m0, board.id, card_id, subtask_id);
            lemma_replace_task_consistent(oc, board.cards@, m0, counters@, board.id, card_id, task_id, nt);
        }
    }
    Ok(())
}

/// Deletes tag `tag_id` of task `(card_id, task_id)`.
pub fn delete_tag_at_task(
    board: &mut Board,
    user_id: i64,
    card_id: i64,
    task_id: i64,
    tag_id: i64,
) -> (r:
    Result<(), CoreError>)
    ensures
        forall|m: Map<ScopeKey, i64>|
            #[trigger] consistent(*old(board), m) ==> consistent(*final(board), m),
        (r is Ok) == (may_edit(user_id, *old(board)) && resolves_task(
            old(board).cards@,
            card_id,
            task_id,
        ) && has_id(
            task_of(old(board).cards@, card_id, task_id).tags@,
            tag_id,
        )),
        match r {
            Ok(_) => {
                let ot = task_of(old(board).cards@, card_id, task_id);
                let nt = task_in(final(board).cards@, old(board).cards@, card_id, task_id);
                &&& board_same_but_cards(*final(board), *old(board))
                &&& task_replaced(final(board).cards@, old(board).cards@, card_id, task_id, nt)
                &&& task_same_but_tags(nt, ot)
                &&& nt.tags@ == ot.tags@.remove(index_of(ot.tags@, tag_id))
            },
            Err(e) => {
                &&& *final(board) == *old(board)
                &&& e == (if !may_edit(user_id, *old(board)) {
                    CoreError::Unauthorized
                } else {
                    CoreError::NotFound(
                    if resolves_task(old(board).cards@, card_id, task_id) {
                        NotFound::Tag
                    } else {
                        task_miss(old(board).cards@, card_id)
                    },
                )
                })
            },
        },
{
    if !authorize_shared(user_id, board) {
        return Err(CoreError::Unauthorized);
    }
    let (i, j) = match locate_task(&board.cards, card_id, task_id) {
        Ok(p) => p,
        Err(e) => return Err(CoreError::NotFound(e)),
    };
    let k = match position_of(&board.cards[i].tasks[j].tags, tag_id) {
        Some(k) => k,
        None => return Err(CoreError::NotFound(NotFound::Tag)),
    };
    board.cards[i].tasks[j].tags.remove(k);
    proof {
        let oc = old(board).cards@;
        assert forall|m: Map<ScopeKey, i64>| #[trigger] consistent(*old(board), m) implies consistent(*board, m) by {
            lemma_task_at_consistent(oc, m, board.id, card_id, task_id);
            let ot = task_of(oc, card_id, task_id);
            let nt = task_in(board.cards@, oc, card_id, task_id);
            let key = ScopeKey::TaskTags { board: board.id, card: card_id, task: task_id };
            lemma_remove_keeps_ids(ot.tags@, index_of(ot.tags@, tag_id), current(m, key));
            lemma_task_tags_changed(ot, nt, m, m, board.id, card_id);
            lemma_replace_task_consistent(oc, board.cards@, m, m, board.id, card_id, task_id, nt);
        }
    }
    Ok(())
}

/// Deletes tag `tag_id` of subtask `(card_id, task_id, subtask_id)`.
pub fn delete_tag_at_subtask(
    board: &mut Board,
    user_id: i64,
    card_id: i64,
    task_id: i64,
    subtask_id: i64,
    tag_id: i64,
) -> (r: Result<(), CoreError>)
    ensures
        forall|m: Map<ScopeKey, i64>|
            #[trigger] consistent(*old(board), m) ==> consistent(*final(board), m),
        (r is Ok) == (may_edit(user_id, *old(board)) && resolves_subtask(
            old(board).cards@,
            card_id,
            task_id,
            subtask_id,
        ) && has_id(
            subtask_of(old(board).cards@, card_id, task_id, subtask_id).tags@,
            tag_id,
        )),
        match r {
            Ok(_) => {
                let os = subtask_of(old(board).cards@, card_id, task_id, subtask_id);
                let ns = subtask_in(final(board).cards@, old(board).cards@, card_id, task_id, subtask_id);
                &&& board_same_but_cards(*final(board), *old(board))
                &&& subtask_replaced(final(board).cards@, old(board).cards@, card_id, task_id, subtask_id, ns)
                &&& subtask_same_but_tags(ns, os)
                &&& ns.tags@ == os.tags@.remove(index_of(os.tags@, tag_id))
            },
            Err(e) => {
                &&& *final(board) == *old(board)
                &&& e == (if !may_edit(user_id, *old(board)) {
                    CoreError::Unauthorized
                } else {
                    CoreError::NotFound(
                    if resolves_subtask(old(board).cards@, card_id, task_id, subtask_id) {
                        NotFound::Tag
                    } else {
                        subtask_miss(old(board).cards@, card_id, task_id)
                    },
                )
                })
            },
        },
{
    if !authorize_shared(user_id, board) {
        return Err(CoreError::Unauthorized);
    }
    let (i, j, k) = match locate_subtask(&board.cards, card_id, task_id, subtask_id) {
        Ok(p) => p,
        Err(e) => return Err(CoreError::NotFound(e)),
    };
    let l = match position_of(&board.cards[i].tasks[j].subtasks[k].tags, tag_id) {
        Some(l) => l,
        None => return Err(CoreError::NotFound(NotFound::Tag)),
    };
    board.cards[i].tasks[j].subtasks[k].tags.remove(l);
    proof {
        let oc = old(board).cards@;
        assert forall|m: Map<ScopeKey, i64>| #[trigger] consistent(*old(board), m) implies consistent(*board, m) by {
            lemma_subtask_at_consistent(oc, m, board.id, card_id, task_id, subtask_id);
            let os = subtask_of(oc, card_id, task_id, subtask_id);
            let ns = subtask_in(board.cards@, oc, card_id, task_id, subtask_id);
            let key = ScopeKey::SubtaskTags { board: board.id, card: card_id, task: task_id, subtask: subtask_id };
            lemma_remove_keeps_ids(os.tags@, index_of(os.tags@, tag_id), current(m, key));
            lemma_replace_subtask_consistent(oc, board.cards@, m, m, board.id, card_id, task_id, subtask_id, ns);
        }
    }
    Ok(())
}

/// The patch's card fields are well typed and its colors well formed.
pub open spec fn card_patch_ok(p: Patch) -> bool {
    &&& text_ok(p.title)
    &&& color_ok(p.background_color)
    &&& color_ok(p.header_text_color)
    &&& color_ok(p.header_background_color)
}

/// The patch names a field that a card has.
pub open spec fn card_patch_touches(p: Patch) -> bool {
    p.title is Some || p.background_color is Some || p.header_text_color is Some
        || p.header_background_color is Some
}

/// The card once the patch is applied.
pub open spec fn card_patched(c: Card, p: Patch) -> Card {
    Card {
        title: text_after(c.title, p.title),
        background_color: text_after(c.background_color, p.background_color),
        header_text_color: text_after(c.header_text_color, p.header_text_color),
        header_background_color: text_after(c.header_background_color, p.header_background_color),
        ..c
    }
}

/// The patch's task fields are well typed.
pub open spec fn task_patch_ok(p: Patch) -> bool {
    &&& text_ok(p.title)
    &&& ids_ok(p.executors)
    &&& flag_ok(p.completed)
    &&& text_ok(p.notes)
}

/// The patch names a field that a task has.
pub open spec fn task_patch_touches(p: Patch) -> bool {
    p.title is Some || p.executors is Some || p.completed is Some || p.notes is Some
}

/// `n` is task `o` once the patch is applied on a board with members `shared`.
pub open spec fn task_patched(n: Task, o: Task, p: Patch, shared: Seq<i64>) -> bool {
    &&& n == (Task {
        title: text_after(o.title, p.title),
        executors: n.executors,
        completed: flag_after(o.completed, p.completed),
        notes: text_after(o.notes, p.notes),
        ..o
    })
    &&& n.executors@ == executors_after(o.executors@, p.executors, shared)
}

/// The patch's subtask fields are well typed.
pub open spec fn subtask_patch_ok(p: Patch) -> bool {
    &&& text_ok(p.title)
    &&& ids_ok(p.executors)
    &&& flag_ok(p.completed)
}

/// The patch names a field that a subtask has.
pub open spec fn subtask_patch_touches(p: Patch) -> bool {
    p.title is Some || p.executors is Some || p.completed is Some
}

/// `n` is subtask `o` once the patch is applied on a board with members `shared`.
pub open spec fn subtask_patched(n: Subtask, o: Subtask, p: Patch, shared: Seq<i64>) -> bool {
    &&& n == (Subtask {
        title: text_after(o.title, p.title),
        executors: n.executors,
        completed: flag_after(o.completed, p.completed),
        ..o
    })
    &&& n.executors@ == executors_after(o.executors@, p.executors, shared)
}

/// The patch's tag fields are well typed and its colors well formed.
pub open spec fn tag_patch_ok(p: Patch) -> bool {
    &&& text_ok(p.title)
    &&& color_ok(p.background_color)
    &&& color_ok(p.text_color)
}

/// The tag once the patch is applied.
pub open spec fn tag_patched(t: Tag, p: Patch) -> Tag {
    Tag {
        title: text_after(t.title, p.title),
        background_color: text_after(t.background_color, p.background_color),
        text_color: text_after(t.text_color, p.text_color),
        ..t
    }
}

/// The patch's board fields are well typed, the title not empty and the colors well formed.
pub open spec fn board_patch_ok(p: Patch) -> bool {
    &&& title_ok(p.title)
    &&& background_ok(p.background)
    &&& color_ok(p.header_background_color)
    &&& color_ok(p.header_text_color)
}

/// The patch names a field that a board has.
pub open spec fn board_patch_touches(p: Patch) -> bool {
    p.title is Some || p.background is Some || p.header_background_color is Some
        || p.header_text_color is Some
}

/// The board once the patch is applied.
pub open spec fn board_patched(b: Board, p: Patch) -> Board {
    Board {
        header: BoardHeader {
            title: text_after(b.header.title, p.title),
            header_text_color: text_after(b.header.header_text_color, p.header_text_color),
            header_background_color: text_after(
                b.header.header_background_color,
                p.header_background_color,
            ),
        },
        background: background_after(b.background, p.background),
        ..b
    }
}

/// Applies a patch to the board's header and background. Only the author may;
/// every named field is checked before any is written. Returns whether the
/// patch named any board field.
pub fn apply_patch_on_board(board: &mut Board, user_id: i64, patch: &Patch) -> (r: Result<
    bool,
    CoreError,
>)
    ensures
        forall|m: Map<ScopeKey, i64>|
            #[trigger] consistent(*old(board), m) ==> consistent(*final(board), m),
        (r is Ok) == (may_administer(user_id, *old(board)) && board_patch_ok(*patch)),
        match r {
            Ok(w) => w == board_patch_touches(*patch) && *final(board) == board_patched(
                *old(board),
                *patch,
            ),
            Err(e) => {
                &&& *final(board) == *old(board)
                &&& e == (if !may_administer(user_id, *old(board)) {
                    CoreError::Unauthorized
                } else {
                    CoreError::InvalidInput
                })
            },
        },
{
    if !authorize_board_level(user_id, board) {
        return Err(CoreError::Unauthorized);
    }
    if !(check_title(&patch.title) && check_background(&patch.background) && check_color(
        &patch.header_background_color,
    ) && check_color(&patch.header_text_color)) {
        return Err(CoreError::InvalidInput);
    }
    apply_text(&mut board.header.title, &patch.title);
    apply_text(&mut board.header.header_text_color, &patch.header_text_color);
    apply_text(&mut board.header.header_background_color, &patch.header_background_color);
    match &patch.background {
        Some(PatchValue::Background(b)) => {
            board.background = copy_background(b);
        },
        _ => {},
    }
    proof {
        assert forall|m: Map<ScopeKey, i64>| #[trigger] consistent(*old(board), m) implies consistent(*board, m) by {
            assert(board.cards == old(board).cards);
        }
    }
    Ok(patch.title.is_some() || patch.background.is_some() || patch.header_background_color.is_some()
        || patch.header_text_color.is_some())
}

/// Applies a patch to card `card_id`. Every named field is checked before any
/// is written. Returns whether the patch named any card field.
pub fn apply_patch_on_card(board: &mut Board, user_id: i64, card_id: i64, patch: &Patch) -> (r:
    Result<bool, CoreError>)
    ensures
        forall|m: Map<ScopeKey, i64>|
            #[trigger] consistent(*old(board), m) ==> consistent(*final(board), m),
        (r is Ok) == (may_edit(user_id, *old(board)) && has_id(old(board).cards@, card_id)
            && card_patch_ok(*patch)),
        match r {
            Ok(w) => {
                let i = index_of(old(board).cards@, card_id);
                &&& w == card_patch_touches(*patch)
                &&& board_same_but_cards(*final(board), *old(board))
                &&& final(board).cards@ == old(board).cards@.update(
                    i,
                    card_patched(old(board).cards@[i], *patch),
                )
            },
            Err(e) => {
                &&& *final(board) == *old(board)
                &&& e == (if !may_edit(user_id, *old(board)) {
                    CoreError::Unauthorized
                } else if !has_id(old(board).cards@, card_id) {
                    CoreError::NotFound(NotFound::Card)
                } else {
                    CoreError::InvalidInput
                })
            },
        },
{
    if !authorize_shared(user_id, board) {
        return Err(CoreError::Unauthorized);
    }
    let i = match locate_card(&board.cards, card_id) {
        Ok(i) => i,
        Err(e) => return Err(CoreError::NotFound(e)),
    };
    if !(check_text(&patch.title) && check_color(&patch.background_color) && check_color(
        &patch.header_text_color,
    ) && check_color(&patch.header_background_color)) {
        return Err(CoreError::InvalidInput);
    }
    apply_text(&mut board.cards[i].title, &patch.title);
    apply_text(&mut board.cards[i].background_color, &patch.background_color);
    apply_text(&mut board.cards[i].header_text_color, &patch.header_text_color);
    apply_text(&mut board.cards[i].header_background_color, &patch.header_background_color);
    proof {
        assert(board.cards@ =~= old(board).cards@.update(i as int, board.cards@[i as int]));
        assert forall|m: Map<ScopeKey, i64>| #[trigger] consistent(*old(board), m) implies consistent(*board, m) by {
            lemma_same_card_consistent(old(board).cards@, board.cards@, m, board.id, i as int);
        }
    }
    Ok(patch.title.is_some() || patch.background_color.is_some() || patch.header_text_color.is_some()
        || patch.header_background_color.is_some())
}

/// Applies a patch to task `(card_id, task_id)`; sent executors are limited to
/// the board's members. Every named field is checked before any is written.
/// Returns whether the patch named any task field.
pub fn apply_patch_on_task(
    board: &mut Board,
    user_id: i64,
    card_id: i64,
    task_id: i64,
    patch: &Patch,
) -> (r: Result<bool, CoreError>)
    ensures
        forall|m: Map<ScopeKey, i64>|
            #[trigger] consistent(*old(board), m) ==> consistent(*final(board), m),
        (r is Ok) == (may_edit(user_id, *old(board)) && resolves_task(
            old(board).cards@,
            card_id,
            task_id,
        ) && task_patch_ok(*patch)),
        match r {
            Ok(w) => {
                let nt = task_in(final(board).cards@, old(board).cards@, card_id, task_id);
                &&& w == task_patch_touches(*patch)
                &&& board_same_but_cards(*final(board), *old(board))
                &&& task_replaced(final(board).cards@, old(board).cards@, card_id, task_id, nt)
                &&& task_patched(
                    nt,
                    task_of(old(board).cards@, card_id, task_id),
                    *patch,
                    old(board).shared_with@,
                )
            },
            Err(e) => {
                &&& *final(board) == *old(board)
                &&& e == (if !may_edit(user_id, *old(board)) {
                    CoreError::Unauthorized
                } else if !resolves_task(old(board).cards@, card_id, task_id) {
                    CoreError::NotFound(task_miss(old(board).cards@, card_id))
                } else {
                    CoreError::InvalidInput
                })
            },
        },
{
    if !authorize_shared(user_id, board) {
        return Err(CoreError::Unauthorized);
    }
    let (i, j) = match locate_task(&board.cards, card_id, task_id) {
        Ok(p) => p,
        Err(e) => return Err(CoreError::NotFound(e)),
    };
    if !(check_text(&patch.title) && check_ids(&patch.executors) && check_flag(&patch.completed)
        && check_text(&patch.notes)) {
        return Err(CoreError::InvalidInput);
    }
    let shared = board.shared_with.clone();
    let t = &mut board.cards[i].tasks[j];
    apply_text(&mut t.title, &patch.title);
    apply_executors(&mut t.executors, &patch.executors, &shared);
    apply_flag(&mut t.completed, &patch.completed);
    apply_text(&mut t.notes, &patch.notes);
    proof {
        let oc = old(board).cards@;
        assert forall|m: Map<ScopeKey, i64>| #[trigger] consistent(*old(board), m) implies consistent(*board, m) by {
            lemma_task_at_consistent(oc, m, board.id, card_id, task_id);
            let ot = task_of(oc, card_id, task_id);
            let nt = task_in(board.cards@, oc, card_id, task_id);
            let key = ScopeKey::TaskTags { board: board.id, card: card_id, task: task_id };
            assert(nt.tags == ot.tags);
            lemma_task_tags_changed(ot, nt, m, m, board.id, card_id);
            lemma_replace_task_consistent(oc, board.cards@, m, m, board.id, card_id, task_id, nt);
        }
    }
    Ok(patch.title.is_some() || patch.executors.is_some() || patch.completed.is_some()
        || patch.notes.is_some())
}

/// Applies a patch to subtask `(card_id, task_id, subtask_id)`; sent executors
/// are limited to the board's members. Every named field is checked before any
/// is written. Returns whether the patch named any subtask field.
pub fn apply_patch_on_subtask(
    board: &mut Board,
    user_id: i64,
    card_id: i64,
    task_id: i64,
    subtask_id: i64,
    patch: &Patch,
) -> (r: Result<bool, CoreError>)
    ensures
        forall|m: Map<ScopeKey, i64>|
            #[trigger] consistent(*old(board), m) ==> consistent(*final(board), m),
        (r is Ok) == (may_edit(user_id, *old(board)) && resolves_subtask(
            old(board).cards@,
            card_id,
            task_id,
            subtask_id,
        ) && subtask_patch_ok(*patch)),
        match r {
            Ok(w) => {
                let ns = subtask_in(final(board).cards@, old(board).cards@, card_id, task_id, subtask_id);
                &&& w == subtask_patch_touches(*patch)
                &&& board_same_but_cards(*final(board), *old(board))
                &&& subtask_replaced(final(board).cards@, old(board).cards@, card_id, task_id, subtask_id, ns)
                &&& subtask_patched(
                    ns,
                    subtask_of(old(board).cards@, card_id, task_id, subtask_id),
                    *patch,
                    old(board).shared_with@,
                )
            },
            Err(e) => {
                &&& *final(board) == *old(board)
                &&& e == (if !may_edit(user_id, *old(board)) {
                    CoreError::Unauthorized
                } else if !resolves_subtask(old(board).cards@, card_id, task_id, subtask_id) {
                    CoreError::NotFound(subtask_miss(old(board).cards@, card_id, task_id))
                } else {
                    CoreError::InvalidInput
                })
            },
        },
{
    if !authorize_shared(user_id, board) {
        return Err(CoreError::Unauthorized);
    }
    let (i, j, k) = match locate_subtask(&board.cards, card_id, task_id, subtask_id) {
        Ok(p) => p,
        Err(e) => return Err(CoreError::NotFound(e)),
    };
    if !(check_text(&patch.title) && check_ids(&patch.executors) && check_flag(&patch.completed)) {
        return Err(CoreError::InvalidInput);
    }
    let shared = board.shared_with.clone();
    let st = &mut board.cards[i].tasks[j].subtasks[k];
    apply_text(&mut st.title, &patch.title);
    apply_executors(&mut st.executors, &patch.executors, &shared);
    apply_flag(&mut st.completed, &patch.completed);
    proof {
        let oc = old(board).cards@;
        assert forall|m: Map<ScopeKey, i64>| #[trigger] consistent(*old(board), m) implies consistent(*board, m) by {
            lemma_subtask_at_consistent(oc, m, board.id, card_id, task_id, subtask_id);
            let os = subtask_of(oc, card_id, task_id, subtask_id);
            let ns = subtask_in(board.cards@, oc, card_id, task_id, subtask_id);
            let key = ScopeKey::SubtaskTags { board: board.id, card: card_id, task: task_id, subtask: subtask_id };
            assert(ns.tags == os.tags);
            lemma_replace_subtask_consistent(oc, board.cards@, m, m, board.id, card_id, task_id, subtask_id, ns);
        }
    }
    Ok(patch.title.is_some() || patch.executors.is_some() || patch.completed.is_some())
}

/// Applies a patch to tag `tag_id` of task `(card_id, task_id)`. Every named
/// field is checked before any is written.
pub fn patch_tag_at_task(
    board: &mut Board,
    user_id: i64,
    card_id: i64,
    task_id: i64,
    tag_id: i64,
    patch: &Patch,
) -> (r: Result<(), CoreError>)
    ensures
        forall|m: Map<ScopeKey, i64>|
            #[trigger] consistent(*old(board), m) ==> consistent(*final(board), m),
        (r is Ok) == (may_edit(user_id, *old(board)) && resolves_task(
            old(board).cards@,
            card_id,
            task_id,
        ) && has_id(task_of(old(board).cards@, card_id, task_id).tags@, tag_id) && tag_patch_ok(
            *patch,
        )),
        match r {
            Ok(_) => {
                let ot = task_of(old(board).cards@, card_id, task_id);
                let nt = task_in(final(board).cards@, old(board).cards@, card_id, task_id);
                let l = index_of(ot.tags@, tag_id);
                &&& board_same_but_cards(*final(board), *old(board))
                &&& task_replaced(final(board).cards@, old(board).cards@, card_id, task_id, nt)
                &&& task_same_but_tags(nt, ot)
                &&& nt.tags@ == ot.tags@.update(l, tag_patched(ot.tags@[l], *patch))
            },
            Err(e) => {
                &&& *final(board) == *old(board)
                &&& e == (if !may_edit(user_id, *old(board)) {
                    CoreError::Unauthorized
                } else if !resolves_task(old(board).cards@, card_id, task_id) {
                    CoreError::NotFound(task_miss(old(board).cards@, card_id))
                } else if !has_id(task_of(old(board).cards@, card_id, task_id).tags@, tag_id) {
                    CoreError::NotFound(NotFound::Tag)
                } else {
                    CoreError::InvalidInput
                })
            },
        },
{
    if !authorize_shared(user_id, board) {
        return Err(CoreError::Unauthorized);
    }
    let (i, j) = match locate_task(&board.cards, card_id, task_id) {
        Ok(p) => p,
        Err(e) => return Err(CoreError::NotFound(e)),
    };
    let l = match position_of(&board.cards[i].tasks[j].tags, tag_id) {
        Some(l) => l,
        None => return Err(CoreError::NotFound(NotFound::Tag)),
    };
    if !(check_text(&patch.title) && check_color(&patch.background_color) && check_color(
        &patch.text_color,
    )) {
        return Err(CoreError::InvalidInput);
    }
    let tag = &mut board.cards[i].tasks[j].tags[l];
    apply_text(&mut tag.title, &patch.title);
    apply_text(&mut tag.background_color, &patch.background_color);
    apply_text(&mut tag.text_color, &patch.text_color);
    proof {
        let oc = old(board).cards@;
        assert forall|m: Map<ScopeKey, i64>| #[trigger] consistent(*old(board), m) implies consistent(*board, m) by {
            lemma_task_at_consistent(oc, m, board.id, card_id, task_id);
            let ot = task_of(oc, card_id, task_id);
            let nt = task_in(board.cards@, oc, card_id, task_id);
            let key = ScopeKey::TaskTags { board: board.id, card: card_id, task: task_id };
            lemma_same_ids(ot.tags@, nt.tags@, current(m, key));
            lemma_task_tags_changed(ot, nt, m, m, board.id, card_id);
            lemma_replace_task_consistent(oc, board.cards@, m, m, board.id, card_id, task_id, nt);
        }
    }
    Ok(())
}

/// Applies a patch to tag `tag_id` of subtask `(card_id, task_id, subtask_id)`.
/// Every named field is checked before any is written.
pub fn patch_tag_at_subtask(
    board: &mut Board,
    user_id: i64,
    card_id: i64,
    task_id: i64,
    subtask_id: i64,
    tag_id: i64,
    patch: &Patch,
) -> (r: Result<(), CoreError>)
    ensures
        forall|m: Map<ScopeKey, i64>|
            #[trigger] consistent(*old(board), m) ==> consistent(*final(board), m),
        (r is Ok) == (may_edit(user_id, *old(board)) && resolves_subtask(
            old(board).cards@,
            card_id,
            task_id,
            subtask_id,
        ) && has_id(subtask_of(old(board).cards@, card_id, task_id, subtask_id).tags@, tag_id)
            && tag_patch_ok(*patch)),
        match r {
            Ok(_) => {
                let os = subtask_of(old(board).cards@, card_id, task_id, subtask_id);
                let ns = subtask_in(final(board).cards@, old(board).cards@, card_id, task_id, subtask_id);
                let l = index_of(os.tags@, tag_id);
                &&& board_same_but_cards(*final(board), *old(board))
                &&& subtask_replaced(final(board).cards@, old(board).cards@, card_id, task_id, subtask_id, ns)
                &&& subtask_same_but_tags(ns, os)
                &&& ns.tags@ == os.tags@.update(l, tag_patched(os.tags@[l], *patch))
            },
            Err(e) => {
                &&& *final(board) == *old(board)
                &&& e == (if !may_edit(user_id, *old(board)) {
                    CoreError::Unauthorized
                } else if !resolves_subtask(old(board).cards@, card_id, task_id, subtask_id) {
                    CoreError::NotFound(subtask_miss(old(board).cards@, card_id, task_id))
                } else if !has_id(
                    subtask_of(old(board).cards@, card_id, task_id, subtask_id).tags@,
                    tag_id,
                ) {
                    CoreError::NotFound(NotFound::Tag)
                } else {
                    CoreError::InvalidInput
                })
            },
        },
{
    if !authorize_shared(user_id, board) {
        return Err(CoreError::Unauthorized);
    }
    let (i, j, k) = match locate_subtask(&board.cards, card_id, task_id, subtask_id) {
        Ok(p) => p,
        Err(e) => return Err(CoreError::NotFound(e)),
    };
    let l = match position_of(&board.cards[i].tasks[j].subtasks[k].tags, tag_id) {
        Some(l) => l,
        None => return Err(CoreError::NotFound(NotFound::Tag)),
    };
    if !(check_text(&patch.title) && check_color(&patch.background_color) && check_color(
        &patch.text_color,
    )) {
        return Err(CoreError::InvalidInput);
    }
    let tag = &mut board.cards[i].tasks[j].subtasks[k].tags[l];
    apply_text(&mut tag.title, &patch.title);
    apply_text(&mut tag.background_color, &patch.background_color);
    apply_text(&mut tag.text_color, &patch.text_color);
    proof {
        let oc = old(board).cards@;
        assert forall|m: Map<ScopeKey, i64>| #[trigger] consistent(*old(board), m) implies consistent(*board, m) by {
            lemma_subtask_at_consistent(oc, m, board.id, card_id, task_id, subtask_id);
            let os = subtask_of(oc, card_id, task_id, subtask_id);
            let ns = subtask_in(board.cards@, oc, card_id, task_id, subtask_id);
            let key = ScopeKey::SubtaskTags { board: board.id, card: card_id, task: task_id, subtask: subtask_id };
            lemma_same_ids(os.tags@, ns.tags@, current(m, key));
            lemma_replace_subtask_consistent(oc, board.cards@, m, m, board.id, card_id, task_id, subtask_id, ns);
        }
    }
    Ok(())
}

/// Sets the time limits of task `(card_id, task_id)`.
pub fn set_timelines_on_task(
    board: &mut Board,
    user_id: i64,
    card_id: i64,
    task_id: i64,
    timelines: Timelines,
) -> (r: Result<(), CoreError>)
    ensures
        forall|m: Map<ScopeKey, i64>|
            #[trigger] consistent(*old(board), m) ==> consistent(*final(board), m),
        (r is Ok) == (may_edit(user_id, *old(board)) && resolves_task(
            old(board).cards@,
            card_id,
            task_id,
        )),
        match r {
            Ok(_) => {
                let nt = task_in(final(board).cards@, old(board).cards@, card_id, task_id);
                &&& board_same_but_cards(*final(board), *old(board))
                &&& task_replaced(final(board).cards@, old(board).cards@, card_id, task_id, nt)
                &&& nt == (Task { timelines, ..task_of(old(board).cards@, card_id, task_id) })
            },
            Err(e) => {
                &&& *final(board) == *old(board)
                &&& e == (if !may_edit(user_id, *old(board)) {
                    CoreError::Unauthorized
                } else {
                    CoreError::NotFound(task_miss(old(board).cards@, card_id))
                })
            },
        },
{
    if !authorize_shared(user_id, board) {
        return Err(CoreError::Unauthorized);
    }
    let (i, j) = match locate_task(&board.cards, card_id, task_id) {
        Ok(p) => p,
        Err(e) => return Err(CoreError::NotFound(e)),
    };
    board.cards[i].tasks[j].timelines = timelines;
    proof {
        let oc = old(board).cards@;
        assert forall|m: Map<ScopeKey, i64>| #[trigger] consistent(*old(board), m) implies consistent(*board, m) by {
            lemma_task_at_consistent(oc, m, board.id, card_id, task_id);
            let ot = task_of(oc, card_id, task_id);
            let nt = task_in(board.cards@, oc, card_id, task_id);
            let key = ScopeKey::TaskTags { board: board.id, card: card_id, task: task_id };
            assert(nt.tags == ot.tags);
            lemma_task_tags_changed(ot, nt, m, m, board.id, card_id);
            lemma_replace_task_consistent(oc, board.cards@, m, m, board.id, card_id, task_id, nt);
        }
    }
    Ok(())
}

/// Sets the time limits of subtask `(card_id, task_id, subtask_id)`.
pub fn set_timelines_on_subtask(
    board: &mut Board,
    user_id: i64,
    card_id: i64,
    task_id: i64,
    subtask_id: i64,
    timelines: Timelines,
) -> (r: Result<(), CoreError>)
    ensures
        forall|m: Map<ScopeKey, i64>|
            #[trigger] consistent(*old(board), m) ==> consistent(*final(board), m),
        (r is Ok) == (may_edit(user_id, *old(board)) && resolves_subtask(
            old(board).cards@,
            card_id,
            task_id,
            subtask_id,
        )),
        match r {
            Ok(_) => {
                let ns = subtask_in(final(board).cards@, old(board).cards@, card_id, task_id, subtask_id);
                &&& board_same_but_cards(*final(board), *old(board))
                &&& subtask_replaced(final(board).cards@, old(board).cards@, card_id, task_id, subtask_id, ns)
                &&& ns == (Subtask {
                    timelines,
                    ..subtask_of(old(board).cards@, card_id, task_id, subtask_id)
                })
            },
            Err(e) => {
                &&& *final(board) == *old(board)
                &&& e == (if !may_edit(user_id, *old(board)) {
                    CoreError::Unauthorized
                } else {
                    CoreError::NotFound(subtask_miss(old(board).cards@, card_id, task_id))
                })
            },
        },
{
    if !authorize_shared(user_id, board) {
        return Err(CoreError::Unauthorized);
    }
    let (i, j, k) = match locate_subtask(&board.cards, card_id, task_id, subtask_id) {
        Ok(p) => p,
        Err(e) => return Err(CoreError::NotFound(e)),
    };
    board.cards[i].tasks[j].subtasks[k].timelines = timelines;
    proof {
        let oc = old(board).cards@;
        assert forall|m: Map<ScopeKey, i64>| #[trigger] consistent(*old(board), m) implies consistent(*board, m) by {
            lemma_subtask_at_consistent(oc, m, board.id, card_id, task_id, subtask_id);
            let os = subtask_of(oc, card_id, task_id, subtask_id);
            let ns = subtask_in(board.cards@, oc, card_id, task_id, subtask_id);
            let key = ScopeKey::SubtaskTags { board: board.id, card: card_id, task: task_id, subtask: subtask_id };
            assert(ns.tags == os.tags);
            lemma_replace_subtask_consistent(oc, board.cards@, m, m, board.id, card_id, task_id, subtask_id, ns);
        }
    }
    Ok(())
}

/// The tags of task `(card_id, task_id)`.
pub fn get_task_tags(board: &Board, user_id: i64, card_id: i64, task_id: i64) -> (r: Result<
    &Vec<Tag>,
    CoreError,
>)
    ensures
        (r is Ok) == (may_edit(user_id, *board) && resolves_task(board.cards@, card_id, task_id)),
        match r {
            Ok(tags) => *tags == task_of(board.cards@, card_id, task_id).tags,
            Err(e) => e == (if !may_edit(user_id, *board) {
                CoreError::Unauthorized
            } else {
                CoreError::NotFound(task_miss(board.cards@, card_id))
            }),
        },
{
    if !authorize_shared(user_id, board) {
        return Err(CoreError::Unauthorized);
    }
    let (i, j) = match locate_task(&board.cards, card_id, task_id) {
        Ok(p) => p,
        Err(e) => return Err(CoreError::NotFound(e)),
    };
    Ok(&board.cards[i].tasks[j].tags)
}

/// The tags of subtask `(card_id, task_id, subtask_id)`.
pub fn get_subtask_tags(
    board: &Board,
    user_id: i64,
    card_id: i64,
    task_id: i64,
    subtask_id: i64,
) -> (r: Result<&Vec<Tag>, CoreError>)
    ensures
        (r is Ok) == (may_edit(user_id, *board) && resolves_subtask(
            board.cards@,
            card_id,
            task_id,
            subtask_id,
        )),
        match r {
            Ok(tags) => *tags == subtask_of(board.cards@, card_id, task_id, subtask_id).tags,
            Err(e) => e == (if !may_edit(user_id, *board) {
                CoreError::Unauthorized
            } else {
                CoreError::NotFound(subtask_miss(board.cards@, card_id, task_id))
            }),
        },
{
    if !authorize_shared(user_id, board) {
        return Err(CoreError::Unauthorized);
    }
    let (i, j, k) = match locate_subtask(&board.cards, card_id, task_id, subtask_id) {
        Ok(p) => p,
        Err(e) => return Err(CoreError::NotFound(e)),
    };
    Ok(&board.cards[i].tasks[j].subtasks[k].tags)
}

/// The board's title is not empty and all its colors are well formed.
pub open spec fn board_valid(b: Board) -> bool {
    &&& b.header.title@.len() > 0
    &&& background_valid(b.background)
    &&& is_valid_color(b.header.header_background_color@)
    &&& is_valid_color(b.header.header_text_color@)
}

fn copy_header(h: &BoardHeader) -> (r: BoardHeader)
    ensures
        r == *h,
{
    BoardHeader {
        title: h.title.clone(),
        header_text_color: h.header_text_color.clone(),
        header_background_color: h.header_background_color.clone(),
    }
}

/// Creates a board from `board`'s header and background under id `new_id`:
/// `author` becomes its author and only member, it has no cards yet, and the
/// id joins the author's board list `shared_boards`. A user without a paid
/// plan who already holds a board is refused.
pub fn create_board(
    author: i64,
    billed: bool,
    shared_boards: &mut Vec<i64>,
    new_id: i64,
    board: &Board,
) -> (r: Result<Board, CoreError>)
    ensures
        (r is Ok) == ((billed || old(shared_boards)@.len() == 0) && board_valid(*board)),
        match r {
            Ok(b) => {
                &&& b == (Board { id: new_id, author, shared_with: b.shared_with, cards: b.cards, ..*board })
                &&& b.shared_with@ == seq![author]
                &&& b.cards@.len() == 0
                &&& forall|m: Map<ScopeKey, i64>| #[trigger] consistent(b, m)
                &&& final(shared_boards)@ == old(shared_boards)@.push(new_id)
            },
            Err(e) => {
                &&& final(shared_boards)@ == old(shared_boards)@
                &&& e == (if !(billed || old(shared_boards)@.len() == 0) {
                    CoreError::QuotaExceeded
                } else {
                    CoreError::InvalidInput
                })
            },
        },
{
    if !may_create_board(billed, shared_boards.len()) {
        return Err(CoreError::QuotaExceeded);
    }
    if board.header.title.as_str().is_empty() || !check_background_value(&board.background)
        || validate_color(board.header.header_background_color.as_str()).is_err() || validate_color(
        board.header.header_text_color.as_str(),
    ).is_err() {
        return Err(CoreError::InvalidInput);
    }
    let mut shared_with: Vec<i64> = Vec::new();
    shared_with.push(author);
    proof {
        assert(shared_with@ =~= seq![author]);
    }
    shared_boards.push(new_id);
    Ok(Board {
        id: new_id,
        header: copy_header(&board.header),
        author,
        shared_with,
        cards: Vec::new(),
        background: copy_background(&board.background),
    })
}

/// Deletes the board as far as its document and counters go: only the author
/// may, and every counter of the board goes. Removing the board from its
/// members' lists is `unshare_board`, once per member.
pub fn remove_board(board: &Board, counters: &mut ScopeCounters, user_id: i64) -> (r: Result<
    (),
    CoreError,
>)
    requires
        old(counters).wf(),
    ensures
        final(counters).wf(),
        (r is Ok) == may_administer(user_id, *board),
        match r {
            Ok(_) => final(counters)@ == without_subtree(
                old(counters)@,
                Owner::Board { board: board.id },
            ),
            Err(e) => final(counters)@ == old(counters)@ && e == CoreError::Unauthorized,
        },
{
    if !authorize_board_level(user_id, board) {
        return Err(CoreError::Unauthorized);
    }
    counters.reset_subtree(&Owner::Board { board: board.id });
    Ok(())
}

/// Takes `board_id` out of a member's board list: the last entry moves into
/// its place.
pub fn unshare_board(shared_boards: &mut Vec<i64>, board_id: i64) -> (r: Result<(), CoreError>)
    ensures
        (r is Ok) == old(shared_boards)@.contains(board_id),
        match r {
            Ok(_) => {
                let p = choose|p: int|
                    0 <= p < old(shared_boards)@.len() && old(shared_boards)@[p] == board_id && forall|
                        q: int,
                    | 0 <= q < p ==> old(shared_boards)@[q] != board_id;
                &&& 0 <= p < old(shared_boards)@.len()
                &&& final(shared_boards)@ == old(shared_boards)@.update(
                    p,
                    old(shared_boards)@.last(),
                ).drop_last()
            },
            Err(e) => {
                &&& final(shared_boards)@ == old(shared_boards)@
                &&& e == CoreError::NotFound(NotFound::Board)
            },
        },
{
    let mut i: usize = 0;
    while i < shared_boards.len()
        invariant
            0 <= i <= shared_boards@.len(),
            shared_boards@ == old(shared_boards)@,
            forall|q: int| 0 <= q < i ==> shared_boards@[q] != board_id,
        decreases shared_boards@.len() - i,
    {
        if shared_boards[i] == board_id {
            let ghost s = shared_boards@;
            proof {
                let p = choose|p: int|
                    0 <= p < s.len() && s[p] == board_id && forall|q: int|
                        0 <= q < p ==> s[q] != board_id;
                assert(0 <= i < s.len() && s[i as int] == board_id && forall|q: int|
                    0 <= q < i ==> s[q] != board_id);
                if p < i {
                    assert(s[p] != board_id);
                } else if p > i {
                    assert(s[i as int] != board_id);
                }
            }
            shared_boards.swap_remove(i);
            return Ok(());
        }
        i += 1;
    }
    Err(CoreError::NotFound(NotFound::Board))
}

/// The listing entry of board `id` with header `header`.
pub fn board_short(id: i64, header: &BoardHeader) -> (r: BoardsShort)
    ensures
        r == (BoardsShort {
            id,
            title: header.title,
            header_text_color: header.header_text_color,
            header_background_color: header.header_background_color,
        }),
{
    BoardsShort {
        id,
        title: header.title.clone(),
        header_text_color: header.header_text_color.clone(),
        header_background_color: header.header_background_color.clone(),
    }
}

/// Inserting a card keeps the card ids of the board unique and below the
/// board's card counter, so the counter never issues an id a card carries.
pub proof fn lemma_insert_card_keeps_ids(
    old_cards: Seq<Card>,
    new_cards: Seq<Card>,
    old_counters: Map<ScopeKey, i64>,
    new_counters: Map<ScopeKey, i64>,
    b: i64,
    id: i64,
    n: Card,
)
    requires
        ids_unique(old_cards),
        ids_below(old_cards, current(old_counters, ScopeKey::Cards { board: b })),
        id == current(old_counters, ScopeKey::Cards { board: b }),
        id < i64::MAX,
        n.id == id,
        new_cards == old_cards.push(n),
        seeded(
            new_counters,
            step(old_counters, CounterOp::Next(ScopeKey::Cards { board: b })),
            Owner::Card { board: b, card: id },
            |k: ScopeKey| card_seed(b, n, n.tasks@.len() as int, k),
        ),
    ensures
        ids_unique(new_cards),
        ids_below(new_cards, current(new_counters, ScopeKey::Cards { board: b })),
{
    let key = ScopeKey::Cards { board: b };
    assert(!within(key, Owner::Card { board: b, card: id }));
    assert(new_counters.contains_key(key));
    lemma_push_fresh(old_cards, n, id);
}

/// Inserting a task keeps the task ids of its card unique and below the
/// card's task counter.
pub proof fn lemma_insert_task_keeps_ids(
    old_tasks: Seq<Task>,
    new_tasks: Seq<Task>,
    old_counters: Map<ScopeKey, i64>,
    new_counters: Map<ScopeKey, i64>,
    b: i64,
    c: i64,
    id: i64,
    n: Task,
)
    requires
        ids_unique(old_tasks),
        ids_below(old_tasks, current(old_counters, ScopeKey::Tasks { board: b, card: c })),
        id == current(old_counters, ScopeKey::Tasks { board: b, card: c }),
        id < i64::MAX,
        n.id == id,
        new_tasks == old_tasks.push(n),
        seeded(
            new_counters,
            step(old_counters, CounterOp::Next(ScopeKey::Tasks { board: b, card: c })),
            Owner::Task { board: b, card: c, task: id },
            |k: ScopeKey| task_seed(b, c, n, n.subtasks@.len() as int, k),
        ),
    ensures
        ids_unique(new_tasks),
        ids_below(new_tasks, current(new_counters, ScopeKey::Tasks { board: b, card: c })),
{
    let key = ScopeKey::Tasks { board: b, card: c };
    assert(!within(key, Owner::Task { board: b, card: c, task: id }));
    assert(new_counters.contains_key(key));
    lemma_push_fresh(old_tasks, n, id);
}

/// Creating a tag keeps the tag ids of its task unique and below the task's
/// tag counter.
pub proof fn lemma_create_tag_keeps_ids(
    old_tags: Seq<Tag>,
    new_tags: Seq<Tag>,
    old_counters: Map<ScopeKey, i64>,
    new_counters: Map<ScopeKey, i64>,
    key: ScopeKey,
    id: i64,
    tag: Tag,
)
    requires
        ids_unique(old_tags),
        ids_below(old_tags, current(old_counters, key)),
        id == current(old_counters, key),
        id < i64::MAX,
        new_tags == old_tags.push(tag_with_id(tag, id)),
        new_counters == step(old_counters, CounterOp::Next(key)),
    ensures
        ids_unique(new_tags),
        ids_below(new_tags, current(new_counters, key)),
{
    lemma_push_fresh(old_tags, tag_with_id(tag, id), id);
}

/// Deleting a card leaves no counter of its subtree, and no address through it
/// resolves any more: not the card, nor any of its tasks or subtasks, nor so
/// their tags.
pub proof fn lemma_card_cascade(
    old_cards: Seq<Card>,
    new_cards: Seq<Card>,
    old_counters: Map<ScopeKey, i64>,
    new_counters: Map<ScopeKey, i64>,
    b: i64,
    c: i64,
)
    requires
        ids_unique(old_cards),
        has_id(old_cards, c),
        new_cards == old_cards.remove(index_of(old_cards, c)),
        new_counters == without_subtree(old_counters, Owner::Card { board: b, card: c }),
    ensures
        forall|k: ScopeKey|
            within(k, Owner::Card { board: b, card: c }) ==> !#[trigger] new_counters.contains_key(k),
        !has_id(new_cards, c),
        forall|t: i64| !#[trigger] resolves_task(new_cards, c, t),
        forall|t: i64, s: i64| !#[trigger] resolves_subtask(new_cards, c, t, s),
{
    lemma_index_of(old_cards, c);
    let i = index_of(old_cards, c);
    assert forall|j: int| 0 <= j < new_cards.len() implies #[trigger] new_cards[j].id != c by {
        assert(is_first_with_id(old_cards, c, i));
        if j < i {
            assert(new_cards[j] == old_cards[j]);
            assert(old_cards[j].spec_id() != c);
        } else {
            assert(new_cards[j] == old_cards[j + 1]);
            assert(old_cards[j + 1].spec_id() != old_cards[i].spec_id());
        }
    }
}

/// Deleting a card keeps the card ids of the board unique and below the
/// board's card counter, which the deletion leaves as it was.
pub proof fn lemma_remove_card_keeps_ids(
    old_cards: Seq<Card>,
    new_cards: Seq<Card>,
    old_counters: Map<ScopeKey, i64>,
    new_counters: Map<ScopeKey, i64>,
    b: i64,
    c: i64,
)
    requires
        ids_unique(old_cards),
        ids_below(old_cards, current(old_counters, ScopeKey::Cards { board: b })),
        has_id(old_cards, c),
        new_cards == old_cards.remove(index_of(old_cards, c)),
        new_counters == without_subtree(old_counters, Owner::Card { board: b, card: c }),
    ensures
        ids_unique(new_cards),
        ids_below(new_cards, current(new_counters, ScopeKey::Cards { board: b })),
{
    lemma_index_of(old_cards, c);
    let key = ScopeKey::Cards { board: b };
    assert(!within(key, Owner::Card { board: b, card: c }));
    assert(current(new_counters, key) == current(old_counters, key));
    lemma_remove_keeps_ids(old_cards, index_of(old_cards, c), current(old_counters, key));
}

/// Deleting a card keeps the board and the counters in agreement.
pub proof fn lemma_remove_card_consistent(cards: Seq<Card>, m: Map<ScopeKey, i64>, b: i64, c: i64)
    requires
        cards_consistent(cards, m, b),
        has_id(cards, c),
    ensures
        cards_consistent(
            cards.remove(index_of(cards, c)),
            without_subtree(m, Owner::Card { board: b, card: c }),
            b,
        ),
{
    let x = index_of(cards, c);
    let n = cards.remove(x);
    let m2 = without_subtree(m, Owner::Card { board: b, card: c });
    lemma_remove_card_keeps_ids(cards, n, m, m2, b, c);
    lemma_index_of(cards, c);
    assert forall|i: int| 0 <= i < n.len() implies #[trigger] card_consistent(n[i], m2, b) by {
        let oi = if i < x {
            i
        } else {
            i + 1
        };
        assert(n[i] == cards[oi]);
        assert(card_consistent(cards[oi], m, b));
        assert(cards[oi].spec_id() != cards[x].spec_id());
        let id = cards[oi].id;
        assert forall|k: ScopeKey| #[trigger] within(k, Owner::Card { board: b, card: id }) implies current(m, k) == current(m2, k) by {
            assert(!within(k, Owner::Card { board: b, card: c }));
        }
        lemma_card_frame(cards[oi], m, m2, b);
    }
}

/// A newly seeded task agrees with counters that hold its seeds.
proof fn lemma_new_task_consistent(
    n: Task,
    o: Task,
    m2: Map<ScopeKey, i64>,
    b: i64,
    c: i64,
    user: i64,
    shared: Seq<i64>,
)
    requires
        task_prepared(n, o, n.id, user, shared),
        task_fits(o),
        forall|k: ScopeKey|
            #[trigger] within(k, Owner::Task { board: b, card: c, task: n.id }) ==> (
            m2.contains_key(k) == task_seed(b, c, n, n.subtasks@.len() as int, k) is Some && (
            task_seed(b, c, n, n.subtasks@.len() as int, k) is Some ==> m2[k] == task_seed(
                b,
                c,
                n,
                n.subtasks@.len() as int,
                k,
            )->Some_0)),
    ensures
        task_consistent(n, m2, b, c),
{
    let ot = Owner::Task { board: b, card: c, task: n.id };
    lemma_prepared_task_fits(n, o, n.id, user, shared);
    let kt = ScopeKey::TaskTags { board: b, card: c, task: n.id };
    let ks = ScopeKey::Subtasks { board: b, card: c, task: n.id };
    assert(within(kt, ot));
    assert(within(ks, ot));
    lemma_numbered(n.tags@);
    assert forall|j: int| 0 <= j < n.subtasks@.len() implies #[trigger] n.subtasks@[j].spec_id() == j + 1 by {
        assert(subtask_prepared(n.subtasks@[j], o.subtasks@[j], (j + 1) as i64, user, shared));
    }
    lemma_numbered(n.subtasks@);
    assert forall|j: int| 0 <= j < n.subtasks@.len() implies #[trigger] subtask_consistent(
        n.subtasks@[j],
        m2,
        b,
        c,
        n.id,
    ) by {
        let st = n.subtasks@[j];
        assert(subtask_prepared(st, o.subtasks@[j], (j + 1) as i64, user, shared));
        assert(subtask_fits(o.subtasks@[j]));
        let k = ScopeKey::SubtaskTags { board: b, card: c, task: n.id, subtask: st.id };
        assert(within(k, ot));
        assert(task_seed(b, c, n, n.subtasks@.len() as int, k) == Some((st.tags@.len() + 1) as i64));
        lemma_numbered(st.tags@);
    }
}

/// Inserting a prepared card with seeded counters keeps the board and the
/// counters in agreement.
pub proof fn lemma_insert_card_consistent(
    cards: Seq<Card>,
    m: Map<ScopeKey, i64>,
    m2: Map<ScopeKey, i64>,
    b: i64,
    n: Card,
    o: Card,
    user: i64,
    shared: Seq<i64>,
)
    requires
        cards_consistent(cards, m, b),
        n.id == current(m, ScopeKey::Cards { board: b }),
        n.id < i64::MAX,
        card_prepared(n, o, n.id, user, shared),
        card_fits(o),
        seeded(
            m2,
            step(m, CounterOp::Next(ScopeKey::Cards { board: b })),
            Owner::Card { board: b, card: n.id },
            |k: ScopeKey| card_seed(b, n, n.tasks@.len() as int, k),
        ),
    ensures
        cards_consistent(cards.push(n), m2, b),
{
    let id = n.id;
    let oc = Owner::Card { board: b, card: id };
    let key = ScopeKey::Cards { board: b };
    let m1 = step(m, CounterOp::Next(key));
    lemma_insert_card_keeps_ids(cards, cards.push(n), m, m2, b, id, n);
    lemma_prepared_card_fits(n, o, id, user, shared);
    let all = cards.push(n);
    assert forall|i: int| 0 <= i < all.len() implies #[trigger] card_consistent(all[i], m2, b) by {
        if i < cards.len() {
            assert(all[i] == cards[i]);
            assert(card_consistent(cards[i], m, b));
            let ci = cards[i].id;
            assert(cards[i].spec_id() < current(m, key));
            assert forall|k: ScopeKey| #[trigger] within(k, Owner::Card { board: b, card: ci }) implies current(m, k) == current(m2, k) by {
                assert(!within(k, oc));
                assert(k != key);
                assert(m2.contains_key(k) == m1.contains_key(k));
            }
            lemma_card_frame(cards[i], m, m2, b);
        } else {
            assert(all[i] == n);
            let kt = ScopeKey::Tasks { board: b, card: id };
            assert(within(kt, oc));
            lemma_numbered(n.tasks@);
            assert forall|t: int| 0 <= t < n.tasks@.len() implies #[trigger] task_consistent(n.tasks@[t], m2, b, id) by {
                let tk = n.tasks@[t];
                assert(task_prepared(tk, o.tasks@[t], (t + 1) as i64, user, shared));
                assert(task_fits(o.tasks@[t]));
                assert forall|k: ScopeKey| #[trigger] within(k, Owner::Task { board: b, card: id, task: tk.id }) implies (
                    m2.contains_key(k) == task_seed(b, id, tk, tk.subtasks@.len() as int, k) is Some && (
                    task_seed(b, id, tk, tk.subtasks@.len() as int, k) is Some ==> m2[k] == task_seed(
                        b,
                        id,
                        tk,
                        tk.subtasks@.len() as int,
                        k,
                    )->Some_0)) by {
                    lemma_task_within_card(k, b, id, tk.id);
                    assert(within(k, oc));
                    assert(tk.id == t + 1);
                    assert(card_seed(b, n, n.tasks@.len() as int, k) == task_seed(b, id, tk, tk.subtasks@.len() as int, k));
                    assert(m2.contains_key(k) == card_seed(b, n, n.tasks@.len() as int, k) is Some);
                }
                lemma_new_task_consistent(tk, o.tasks@[t], m2, b, id, user, shared);
            }
        }
    }
}

/// Inserting a prepared task with seeded counters into card `c` keeps the
/// board and the counters in agreement.
pub proof fn lemma_insert_task_consistent(
    cards: Seq<Card>,
    new_cards: Seq<Card>,
    m: Map<ScopeKey, i64>,
    m2: Map<ScopeKey, i64>,
    b: i64,
    c: i64,
    n: Task,
    o: Task,
    user: i64,
    shared: Seq<i64>,
)
    requires
        cards_consistent(cards, m, b),
        has_id(cards, c),
        n.id == current(m, ScopeKey::Tasks { board: b, card: c }),
        n.id < i64::MAX,
        task_prepared(n, o, n.id, user, shared),
        task_fits(o),
        card_same_but_tasks(new_cards[index_of(cards, c)], cards[index_of(cards, c)]),
        new_cards[index_of(cards, c)].tasks@ == cards[index_of(cards, c)].tasks@.push(n),
        new_cards == cards.update(index_of(cards, c), new_cards[index_of(cards, c)]),
        seeded(
            m2,
            step(m, CounterOp::Next(ScopeKey::Tasks { board: b, card: c })),
            Owner::Task { board: b, card: c, task: n.id },
            |k: ScopeKey| task_seed(b, c, n, n.subtasks@.len() as int, k),
        ),
    ensures
        cards_consistent(new_cards, m2, b),
{
    lemma_index_of(cards, c);
    let x = index_of(cards, c);
    let id = n.id;
    let ot = Owner::Task { board: b, card: c, task: id };
    let key = ScopeKey::Tasks { board: b, card: c };
    let m1 = step(m, CounterOp::Next(key));
    let ck = ScopeKey::Cards { board: b };
    assert(!within(ck, ot));
    assert(m2.contains_key(ck) == m1.contains_key(ck));
    assert(current(m2, ck) == current(m, ck));
    assert forall|j: int| 0 <= j < new_cards.len() implies #[trigger] new_cards[j].spec_id() == cards[j].spec_id() by {}
    assert forall|j: int| 0 <= j < new_cards.len() implies #[trigger] new_cards[j].spec_id() < current(m2, ck) by {
        assert(new_cards[j].spec_id() == cards[j].spec_id());
    }
    assert forall|p: int, q: int|
        0 <= p < new_cards.len() && 0 <= q < new_cards.len() && p != q implies #[trigger] new_cards[p].spec_id()
        != #[trigger] new_cards[q].spec_id() by {
        assert(new_cards[p].spec_id() == cards[p].spec_id());
        assert(new_cards[q].spec_id() == cards[q].spec_id());
    }
    assert forall|j: int| 0 <= j < new_cards.len() implies #[trigger] card_consistent(new_cards[j], m2, b) by {
        assert(card_consistent(cards[j], m, b));
        if j != x {
            assert(new_cards[j] == cards[j]);
            assert(cards[j].spec_id() != cards[x].spec_id());
            let cj = cards[j].id;
            assert forall|k: ScopeKey| #[trigger] within(k, Owner::Card { board: b, card: cj }) implies current(m, k) == current(m2, k) by {
                assert(!within(k, ot));
                assert(k != key);
                assert(m2.contains_key(k) == m1.contains_key(k));
            }
            lemma_card_frame(cards[j], m, m2, b);
        } else {
            let oc = cards[x];
            let nc = new_cards[x];
            assert(!within(key, ot));
            assert(m2.contains_key(key));
            assert(current(m2, key) == id + 1);
            lemma_push_fresh(oc.tasks@, n, id);
            assert forall|t: int| 0 <= t < nc.tasks@.len() implies #[trigger] task_consistent(nc.tasks@[t], m2, b, c) by {
                if t < oc.tasks@.len() {
                    let tk = oc.tasks@[t];
                    assert(nc.tasks@[t] == tk);
                    assert(task_consistent(tk, m, b, c));
                    assert(tk.spec_id() < id);
                    assert forall|k: ScopeKey| #[trigger] within(k, Owner::Task { board: b, card: c, task: tk.id }) implies current(m, k) == current(m2, k) by {
                        assert(!within(k, ot));
                        assert(k != key);
                        assert(m2.contains_key(k) == m1.contains_key(k));
                    }
                    lemma_task_frame(tk, m, m2, b, c);
                } else {
                    assert(nc.tasks@[t] == n);
                    lemma_new_task_consistent(n, o, m2, b, c, user, shared);
                }
            }
        }
    }
}

/// Replacing task `(c, t)` by a task with the same id that agrees with the new
/// counters keeps the board in agreement, when the counters change only in
/// that task's subtree.
pub proof fn lemma_replace_task_consistent(
    cards: Seq<Card>,
    new_cards: Seq<Card>,
    m: Map<ScopeKey, i64>,
    m2: Map<ScopeKey, i64>,
    b: i64,
    c: i64,
    t: i64,
    nt: Task,
)
    requires
        cards_consistent(cards, m, b),
        resolves_task(cards, c, t),
        task_replaced(new_cards, cards, c, t, nt),
        nt.id == t,
        task_consistent(nt, m2, b, c),
        forall|k: ScopeKey|
            !within(k, Owner::Task { board: b, card: c, task: t }) ==> #[trigger] current(m, k)
                == current(m2, k),
    ensures
        cards_consistent(new_cards, m2, b),
{
    lemma_index_of(cards, c);
    let x = index_of(cards, c);
    let oc = cards[x];
    let nc = new_cards[x];
    lemma_index_of(oc.tasks@, t);
    let y = index_of(oc.tasks@, t);
    let ot = Owner::Task { board: b, card: c, task: t };
    let ck = ScopeKey::Cards { board: b };
    assert(!within(ck, ot));
    assert(current(m2, ck) == current(m, ck));
    assert forall|j: int| 0 <= j < new_cards.len() implies #[trigger] new_cards[j].spec_id() == cards[j].spec_id() by {}
    assert forall|j: int| 0 <= j < new_cards.len() implies #[trigger] new_cards[j].spec_id() < current(m2, ck) by {
        assert(new_cards[j].spec_id() == cards[j].spec_id());
    }
    assert forall|p: int, q: int|
        0 <= p < new_cards.len() && 0 <= q < new_cards.len() && p != q implies #[trigger] new_cards[p].spec_id()
        != #[trigger] new_cards[q].spec_id() by {
        assert(new_cards[p].spec_id() == cards[p].spec_id());
        assert(new_cards[q].spec_id() == cards[q].spec_id());
    }
    assert forall|j: int| 0 <= j < new_cards.len() implies #[trigger] card_consistent(new_cards[j], m2, b) by {
        assert(card_consistent(cards[j], m, b));
        if j != x {
            assert(new_cards[j] == cards[j]);
            assert(cards[j].spec_id() != cards[x].spec_id());
            let cj = cards[j].id;
            assert forall|k: ScopeKey| #[trigger] within(k, Owner::Card { board: b, card: cj }) implies current(m, k) == current(m2, k) by {
                assert(!within(k, ot));
            }
            lemma_card_frame(cards[j], m, m2, b);
        } else {
            let tk = ScopeKey::Tasks { board: b, card: c };
            assert(!within(tk, ot));
            assert(current(m2, tk) == current(m, tk));
            assert forall|i: int| 0 <= i < nc.tasks@.len() implies #[trigger] nc.tasks@[i].spec_id() == oc.tasks@[i].spec_id() by {}
            assert forall|i: int| 0 <= i < nc.tasks@.len() implies #[trigger] nc.tasks@[i].spec_id() < current(m2, tk) by {
                assert(nc.tasks@[i].spec_id() == oc.tasks@[i].spec_id());
            }
            assert forall|p: int, q: int|
                0 <= p < nc.tasks@.len() && 0 <= q < nc.tasks@.len() && p != q implies #[trigger] nc.tasks@[p].spec_id()
                != #[trigger] nc.tasks@[q].spec_id() by {
                assert(nc.tasks@[p].spec_id() == oc.tasks@[p].spec_id());
                assert(nc.tasks@[q].spec_id() == oc.tasks@[q].spec_id());
            }
            assert forall|i: int| 0 <= i < nc.tasks@.len() implies #[trigger] task_consistent(nc.tasks@[i], m2, b, c) by {
                if i != y {
                    let tki = oc.tasks@[i];
                    assert(nc.tasks@[i] == tki);
                    assert(task_consistent(tki, m, b, c));
                    assert(tki.spec_id() != oc.tasks@[y].spec_id());
                    assert forall|k: ScopeKey| #[trigger] within(k, Owner::Task { board: b, card: c, task: tki.id }) implies current(m, k) == current(m2, k) by {
                        assert(!within(k, ot));
                    }
                    lemma_task_frame(tki, m, m2, b, c);
                }
            }
        }
    }
}

/// Replacing subtask `(c, t, s)` by a subtask with the same id that agrees
/// with the new counters keeps the board in agreement, when the counters
/// change only in that subtask's subtree.
pub proof fn lemma_replace_subtask_consistent(
    cards: Seq<Card>,
    new_cards: Seq<Card>,
    m: Map<ScopeKey, i64>,
    m2: Map<ScopeKey, i64>,
    b: i64,
    c: i64,
    t: i64,
    s: i64,
    ns: Subtask,
)
    requires
        cards_consistent(cards, m, b),
        resolves_subtask(cards, c, t, s),
        subtask_replaced(new_cards, cards, c, t, s, ns),
        ns.id == s,
        subtask_consistent(ns, m2, b, c, t),
        forall|k: ScopeKey|
            !within(k, Owner::Subtask { board: b, card: c, task: t, subtask: s })
                ==> #[trigger] current(m, k) == current(m2, k),
    ensures
        cards_consistent(new_cards, m2, b),
{
    lemma_index_of(cards, c);
    let x = index_of(cards, c);
    let oc = cards[x];
    lemma_index_of(oc.tasks@, t);
    let y = index_of(oc.tasks@, t);
    let ot = oc.tasks@[y];
    lemma_index_of(ot.subtasks@, s);
    let z = index_of(ot.subtasks@, s);
    let nt = new_cards[x].tasks@[y];
    assert(card_consistent(oc, m, b));
    assert(task_consistent(ot, m, b, c));
    let os = Owner::Subtask { board: b, card: c, task: t, subtask: s };
    let tt = ScopeKey::TaskTags { board: b, card: c, task: t };
    let st = ScopeKey::Subtasks { board: b, card: c, task: t };
    assert(!within(tt, os));
    assert(!within(st, os));
    assert(current(m2, tt) == current(m, tt));
    assert(current(m2, st) == current(m, st));
    lemma_same_ids(ot.subtasks@, nt.subtasks@, current(m, st));
    assert forall|j: int| 0 <= j < nt.subtasks@.len() implies #[trigger] subtask_consistent(nt.subtasks@[j], m2, b, c, t) by {
        if j != z {
            let sj = ot.subtasks@[j];
            assert(nt.subtasks@[j] == sj);
            assert(subtask_consistent(sj, m, b, c, t));
            assert(sj.spec_id() != ot.subtasks@[z].spec_id());
            let k = ScopeKey::SubtaskTags { board: b, card: c, task: t, subtask: sj.id };
            assert(!within(k, os));
        }
    }
    assert(task_consistent(nt, m2, b, c));
    assert forall|k: ScopeKey| !within(k, Owner::Task { board: b, card: c, task: t }) implies #[trigger] current(m, k) == current(m2, k) by {
        assert(!within(k, os));
    }
    lemma_replace_task_consistent(cards, new_cards, m, m2, b, c, t, nt);
}

/// In agreeing cards, the task at a resolved address agrees and carries its id.
pub proof fn lemma_task_at_consistent(cards: Seq<Card>, m: Map<ScopeKey, i64>, b: i64, c: i64, t: i64)
    requires
        cards_consistent(cards, m, b),
        resolves_task(cards, c, t),
    ensures
        task_consistent(task_of(cards, c, t), m, b, c),
        task_of(cards, c, t).id == t,
{
    lemma_index_of(cards, c);
    let oc = cards[index_of(cards, c)];
    assert(card_consistent(oc, m, b));
    lemma_index_of(oc.tasks@, t);
    assert(task_consistent(oc.tasks@[index_of(oc.tasks@, t)], m, b, oc.id));
}

/// In agreeing cards, the subtask at a resolved address agrees and carries its id.
pub proof fn lemma_subtask_at_consistent(
    cards: Seq<Card>,
    m: Map<ScopeKey, i64>,
    b: i64,
    c: i64,
    t: i64,
    s: i64,
)
    requires
        cards_consistent(cards, m, b),
        resolves_subtask(cards, c, t, s),
    ensures
        subtask_consistent(subtask_of(cards, c, t, s), m, b, c, t),
        subtask_of(cards, c, t, s).id == s,
{
    lemma_task_at_consistent(cards, m, b, c, t);
    let ot = task_of(cards, c, t);
    lemma_index_of(ot.subtasks@, s);
    assert(subtask_consistent(ot.subtasks@[index_of(ot.subtasks@, s)], m, b, c, t));
}

/// A task whose tag list changes, ids kept fresh, still agrees when only its
/// tag counter may have changed.
pub proof fn lemma_task_tags_changed(
    ot: Task,
    nt: Task,
    m: Map<ScopeKey, i64>,
    m2: Map<ScopeKey, i64>,
    b: i64,
    c: i64,
)
    requires
        task_consistent(ot, m, b, c),
        nt.id == ot.id,
        nt.subtasks == ot.subtasks,
        list_fresh(nt.tags@, m2, ScopeKey::TaskTags { board: b, card: c, task: ot.id }),
        forall|k: ScopeKey|
            k != (ScopeKey::TaskTags { board: b, card: c, task: ot.id }) ==> #[trigger] current(m, k)
                == current(m2, k),
    ensures
        task_consistent(nt, m2, b, c),
{
    let st = ScopeKey::Subtasks { board: b, card: c, task: ot.id };
    assert(current(m, st) == current(m2, st));
    assert forall|j: int| 0 <= j < nt.subtasks@.len() implies #[trigger] subtask_consistent(nt.subtasks@[j], m2, b, c, nt.id) by {
        assert(subtask_consistent(ot.subtasks@[j], m, b, c, ot.id));
        let k = ScopeKey::SubtaskTags { board: b, card: c, task: ot.id, subtask: ot.subtasks@[j].id };
        assert(current(m, k) == current(m2, k));
    }
}

/// Adding a prepared subtask, with its tag counter stored, keeps its task in
/// agreement.
proof fn lemma_insert_subtask_task_consistent(
    ot: Task,
    nt: Task,
    m: Map<ScopeKey, i64>,
    m2: Map<ScopeKey, i64>,
    b: i64,
    c: i64,
    n: Subtask,
    o: Subtask,
    user: i64,
    shared: Seq<i64>,
)
    requires
        task_consistent(ot, m, b, c),
        task_same_but_subtasks(nt, ot),
        nt.subtasks@ == ot.subtasks@.push(n),
        n.id == current(m, ScopeKey::Subtasks { board: b, card: c, task: ot.id }),
        n.id < i64::MAX,
        subtask_prepared(n, o, n.id, user, shared),
        subtask_fits(o),
        m2 == without_subtree(
            step(m, CounterOp::Next(ScopeKey::Subtasks { board: b, card: c, task: ot.id })),
            Owner::Subtask { board: b, card: c, task: ot.id, subtask: n.id },
        ).insert(
            ScopeKey::SubtaskTags { board: b, card: c, task: ot.id, subtask: n.id },
            (n.tags@.len() + 1) as i64,
        ),
    ensures
        task_consistent(nt, m2, b, c),
        forall|k: ScopeKey|
            !within(k, Owner::Task { board: b, card: c, task: ot.id }) ==> #[trigger] current(m, k)
                == current(m2, k),
{
    let t = ot.id;
    let id = n.id;
    let os = Owner::Subtask { board: b, card: c, task: t, subtask: id };
    let st = ScopeKey::Subtasks { board: b, card: c, task: t };
    let tt = ScopeKey::TaskTags { board: b, card: c, task: t };
    let nk = ScopeKey::SubtaskTags { board: b, card: c, task: t, subtask: id };
    assert(!within(st, os));
    assert(!within(tt, os));
    assert(current(m2, tt) == current(m, tt));
    assert(current(m2, st) == id + 1);
    lemma_push_fresh(ot.subtasks@, n, id);
    assert(current(m2, nk) == n.tags@.len() + 1);
    lemma_numbered(n.tags@);
    assert forall|j: int| 0 <= j < nt.subtasks@.len() implies #[trigger] subtask_consistent(nt.subtasks@[j], m2, b, c, t) by {
        if j < ot.subtasks@.len() {
            let sj = ot.subtasks@[j];
            assert(nt.subtasks@[j] == sj);
            assert(subtask_consistent(sj, m, b, c, t));
            assert(sj.spec_id() < id);
            let k = ScopeKey::SubtaskTags { board: b, card: c, task: t, subtask: sj.id };
            assert(!within(k, os));
            assert(current(m2, k) == current(m, k));
        } else {
            assert(nt.subtasks@[j] == n);
        }
    }
    assert forall|k: ScopeKey| !within(k, Owner::Task { board: b, card: c, task: t }) implies #[trigger] current(m, k) == current(m2, k) by {
        assert(!within(k, os));
        assert(k != st);
        assert(k != nk);
    }
}

/// Deleting a subtask and its tag counter keeps its task in agreement.
proof fn lemma_remove_subtask_task_consistent(
    ot: Task,
    nt: Task,
    m: Map<ScopeKey, i64>,
    b: i64,
    c: i64,
    s: i64,
)
    requires
        task_consistent(ot, m, b, c),
        has_id(ot.subtasks@, s),
        task_same_but_subtasks(nt, ot),
        nt.subtasks@ == ot.subtasks@.remove(index_of(ot.subtasks@, s)),
    ensures
        task_consistent(
            nt,
            without_subtree(m, Owner::Subtask { board: b, card: c, task: ot.id, subtask: s }),
            b,
            c,
        ),
        forall|k: ScopeKey|
            !within(k, Owner::Task { board: b, card: c, task: ot.id }) ==> #[trigger] current(m, k)
                == current(
                without_subtree(m, Owner::Subtask { board: b, card: c, task: ot.id, subtask: s }),
                k,
            ),
{
    let t = ot.id;
    let os = Owner::Subtask { board: b, card: c, task: t, subtask: s };
    let m2 = without_subtree(m, os);
    lemma_index_of(ot.subtasks@, s);
    let z = index_of(ot.subtasks@, s);
    let st = ScopeKey::Subtasks { board: b, card: c, task: t };
    let tt = ScopeKey::TaskTags { board: b, card: c, task: t };
    assert(!within(st, os));
    assert(!within(tt, os));
    assert(current(m2, st) == current(m, st));
    assert(current(m2, tt) == current(m, tt));
    lemma_remove_keeps_ids(ot.subtasks@, z, current(m, st));
    assert forall|j: int| 0 <= j < nt.subtasks@.len() implies #[trigger] subtask_consistent(nt.subtasks@[j], m2, b, c, t) by {
        let oj = if j < z {
            j
        } else {
            j + 1
        };
        let sj = ot.subtasks@[oj];
        assert(nt.subtasks@[j] == sj);
        assert(subtask_consistent(sj, m, b, c, t));
        assert(sj.spec_id() != ot.subtasks@[z].spec_id());
        let k = ScopeKey::SubtaskTags { board: b, card: c, task: t, subtask: sj.id };
        assert(!within(k, os));
    }
    assert forall|k: ScopeKey| !within(k, Owner::Task { board: b, card: c, task: t }) implies #[trigger] current(m, k) == current(m2, k) by {
        assert(!within(k, os));
    }
}

/// Deleting a task and the counters of its subtree keeps the board in agreement.
pub proof fn lemma_remove_task_consistent(
    cards: Seq<Card>,
    new_cards: Seq<Card>,
    m: Map<ScopeKey, i64>,
    b: i64,
    c: i64,
    t: i64,
)
    requires
        cards_consistent(cards, m, b),
        resolves_task(cards, c, t),
        new_cards == cards.update(index_of(cards, c), new_cards[index_of(cards, c)]),
        card_same_but_tasks(new_cards[index_of(cards, c)], cards[index_of(cards, c)]),
        new_cards[index_of(cards, c)].tasks@ == cards[index_of(cards, c)].tasks@.remove(
            index_of(cards[index_of(cards, c)].tasks@, t),
        ),
    ensures
        cards_consistent(new_cards, without_subtree(m, Owner::Task { board: b, card: c, task: t }), b),
{
    lemma_index_of(cards, c);
    let x = index_of(cards, c);
    let oc = cards[x];
    let nc = new_cards[x];
    lemma_index_of(oc.tasks@, t);
    let y = index_of(oc.tasks@, t);
    let ot = Owner::Task { board: b, card: c, task: t };
    let m2 = without_subtree(m, ot);
    let ck = ScopeKey::Cards { board: b };
    let tk = ScopeKey::Tasks { board: b, card: c };
    assert(!within(ck, ot));
    assert(!within(tk, ot));
    assert(current(m2, ck) == current(m, ck));
    assert(current(m2, tk) == current(m, tk));
    assert forall|j: int| 0 <= j < new_cards.len() implies #[trigger] new_cards[j].spec_id() == cards[j].spec_id() by {}
    lemma_same_ids(cards, new_cards, current(m, ck));
    assert forall|j: int| 0 <= j < new_cards.len() implies #[trigger] card_consistent(new_cards[j], m2, b) by {
        assert(card_consistent(cards[j], m, b));
        if j != x {
            assert(new_cards[j] == cards[j]);
            assert(cards[j].spec_id() != cards[x].spec_id());
            let cj = cards[j].id;
            assert forall|k: ScopeKey| #[trigger] within(k, Owner::Card { board: b, card: cj }) implies current(m, k) == current(m2, k) by {
                assert(!within(k, ot));
            }
            lemma_card_frame(cards[j], m, m2, b);
        } else {
            lemma_remove_keeps_ids(oc.tasks@, y, current(m, tk));
            assert forall|i: int| 0 <= i < nc.tasks@.len() implies #[trigger] task_consistent(nc.tasks@[i], m2, b, c) by {
                let oi = if i < y {
                    i
                } else {
                    i + 1
                };
                let ti = oc.tasks@[oi];
                assert(nc.tasks@[i] == ti);
                assert(task_consistent(ti, m, b, c));
                assert(ti.spec_id() != oc.tasks@[y].spec_id());
                assert forall|k: ScopeKey| #[trigger] within(k, Owner::Task { board: b, card: c, task: ti.id }) implies current(m, k) == current(m2, k) by {
                    assert(!within(k, ot));
                }
                lemma_task_frame(ti, m, m2, b, c);
            }
        }
    }
}

/// Replacing a card by one with the same id and tasks keeps the board in agreement.
pub proof fn lemma_same_card_consistent(
    cards: Seq<Card>,
    new_cards: Seq<Card>,
    m: Map<ScopeKey, i64>,
    b: i64,
    x: int,
)
    requires
        cards_consistent(cards, m, b),
        0 <= x < cards.len(),
        new_cards == cards.update(x, new_cards[x]),
        new_cards[x].id == cards[x].id,
        new_cards[x].tasks == cards[x].tasks,
    ensures
        cards_consistent(new_cards, m, b),
{
    assert forall|j: int| 0 <= j < new_cards.len() implies #[trigger] new_cards[j].spec_id() == cards[j].spec_id() by {}
    lemma_same_ids(cards, new_cards, current(m, ScopeKey::Cards { board: b }));
    assert forall|j: int| 0 <= j < new_cards.len() implies #[trigger] card_consistent(new_cards[j], m, b) by {
        assert(card_consistent(cards[j], m, b));
    }
}

} // verus!
