//! Checking and preparing new entities before they join a board: colors are
//! validated, ids are issued in order from 1, authorship passes to the
//! creating user, and executors are limited to the board's members.

use vstd::prelude::*;
use crate::access::{admitted, filter_executors};
use crate::color::{is_valid_color, validate_color};
use crate::model::{Card, Subtask, Tag, Task};
use crate::scope::{within, Owner, ScopeCounters, ScopeKey};

verus! {

/// Both colors of the tag are well formed.
pub open spec fn tag_valid(t: Tag) -> bool {
    is_valid_color(t.background_color@) && is_valid_color(t.text_color@)
}

/// All tags of the list are well formed.
pub open spec fn tags_valid(tags: Seq<Tag>) -> bool {
    forall|i: int| 0 <= i < tags.len() ==> #[trigger] tag_valid(tags[i])
}

/// All colors inside the subtask are well formed.
pub open spec fn subtask_valid(s: Subtask) -> bool {
    tags_valid(s.tags@)
}

/// All colors inside the task are well formed.
pub open spec fn task_valid(t: Task) -> bool {
    &&& tags_valid(t.tags@)
    &&& forall|j: int| 0 <= j < t.subtasks@.len() ==> #[trigger] subtask_valid(t.subtasks@[j])
}

/// All colors of the card and inside it are well formed.
pub open spec fn card_valid(c: Card) -> bool {
    &&& is_valid_color(c.background_color@)
    &&& is_valid_color(c.header_text_color@)
    &&& is_valid_color(c.header_background_color@)
    &&& forall|i: int| 0 <= i < c.tasks@.len() ==> #[trigger] task_valid(c.tasks@[i])
}

/// Checks both colors of a tag.
pub fn validate_tag(t: &Tag) -> (r: bool)
    ensures
        r == tag_valid(*t),
{
    validate_color(t.background_color.as_str()).is_ok() && validate_color(
        t.text_color.as_str(),
    ).is_ok()
}

/// Checks the colors of every tag of a list.
pub fn validate_tags(tags: &Vec<Tag>) -> (r: bool)
    ensures
        r == tags_valid(tags@),
{
    let mut i: usize = 0;
    while i < tags.len()
        invariant
            0 <= i <= tags@.len(),
            forall|j: int| 0 <= j < i ==> #[trigger] tag_valid(tags@[j]),
        decreases tags@.len() - i,
    {
        if !validate_tag(&tags[i]) {
            return false;
        }
        i += 1;
    }
    true
}

/// Checks every color inside a subtask.
pub fn validate_subtask(s: &Subtask) -> (r: bool)
    ensures
        r == subtask_valid(*s),
{
    validate_tags(&s.tags)
}

/// Checks every color inside a task.
pub fn validate_task(t: &Task) -> (r: bool)
    ensures
        r == task_valid(*t),
{
    if !validate_tags(&t.tags) {
        return false;
    }
    let mut j: usize = 0;
    while j < t.subtasks.len()
        invariant
            0 <= j <= t.subtasks@.len(),
            forall|k: int| 0 <= k < j ==> #[trigger] subtask_valid(t.subtasks@[k]),
        decreases t.subtasks@.len() - j,
    {
        if !validate_subtask(&t.subtasks[j]) {
            return false;
        }
        j += 1;
    }
    true
}

/// Checks every color of a card and inside it.
pub fn validate_card(c: &Card) -> (r: bool)
    ensures
        r == card_valid(*c),
{
    if validate_color(c.background_color.as_str()).is_err() || validate_color(
        c.header_text_color.as_str(),
    ).is_err() || validate_color(c.header_background_color.as_str()).is_err() {
        return false;
    }
    let mut i: usize = 0;
    while i < c.tasks.len()
        invariant
            is_valid_color(c.background_color@),
            is_valid_color(c.header_text_color@),
            is_valid_color(c.header_background_color@),
            0 <= i <= c.tasks@.len(),
            forall|k: int| 0 <= k < i ==> #[trigger] task_valid(c.tasks@[k]),
        decreases c.tasks@.len() - i,
    {
        if !validate_task(&c.tasks[i]) {
            return false;
        }
        i += 1;
    }
    true
}

/// Every list inside the subtask is short enough to number from 1 in an `i64`.
pub open spec fn subtask_fits(s: Subtask) -> bool {
    s.tags@.len() < i64::MAX
}

/// Every list inside the task is short enough to number from 1 in an `i64`.
pub open spec fn task_fits(t: Task) -> bool {
    &&& t.tags@.len() < i64::MAX
    &&& t.subtasks@.len() < i64::MAX
    &&& forall|j: int| 0 <= j < t.subtasks@.len() ==> #[trigger] subtask_fits(t.subtasks@[j])
}

/// Every list inside the card is short enough to number from 1 in an `i64`.
pub open spec fn card_fits(c: Card) -> bool {
    &&& c.tasks@.len() < i64::MAX
    &&& forall|i: int| 0 <= i < c.tasks@.len() ==> #[trigger] task_fits(c.tasks@[i])
}

/// `n` is the tag list `o` with ids 1, 2, ... in order.
pub open spec fn tags_renumbered(n: Seq<Tag>, o: Seq<Tag>) -> bool {
    &&& n.len() == o.len()
    &&& forall|i: int| 0 <= i < o.len() ==> #[trigger] n[i] == (Tag { id: (i + 1) as i64, ..o[i] })
}

/// `n` is the new subtask `o` as it joins a board: id `id`, author `user`,
/// executors limited to `shared`, tags numbered from 1.
pub open spec fn subtask_prepared(n: Subtask, o: Subtask, id: i64, user: i64, shared: Seq<i64>)
    -> bool {
    &&& n == (Subtask { id, author: user, executors: n.executors, tags: n.tags, ..o })
    &&& n.executors@ == admitted(o.executors@, shared)
    &&& tags_renumbered(n.tags@, o.tags@)
}

/// `n` is the new task `o` as it joins a board; its subtasks are numbered from 1.
pub open spec fn task_prepared(n: Task, o: Task, id: i64, user: i64, shared: Seq<i64>) -> bool {
    &&& n == (Task {
        id,
        author: user,
        executors: n.executors,
        tags: n.tags,
        subtasks: n.subtasks,
        ..o
    })
    &&& n.executors@ == admitted(o.executors@, shared)
    &&& tags_renumbered(n.tags@, o.tags@)
    &&& n.subtasks@.len() == o.subtasks@.len()
    &&& forall|j: int|
        0 <= j < o.subtasks@.len() ==> #[trigger] subtask_prepared(
            n.subtasks@[j],
            o.subtasks@[j],
            (j + 1) as i64,
            user,
            shared,
        )
}

/// `n` is the new card `o` as it joins a board; its tasks are numbered from 1.
pub open spec fn card_prepared(n: Card, o: Card, id: i64, user: i64, shared: Seq<i64>) -> bool {
    &&& n == (Card { id, author: user, tasks: n.tasks, ..o })
    &&& n.tasks@.len() == o.tasks@.len()
    &&& forall|i: int|
        0 <= i < o.tasks@.len() ==> #[trigger] task_prepared(
            n.tasks@[i],
            o.tasks@[i],
            (i + 1) as i64,
            user,
            shared,
        )
}

/// Numbers the tags from 1, in order.
pub fn renumber_tags(tags: &mut Vec<Tag>)
    requires
        old(tags)@.len() < i64::MAX,
    ensures
        tags_renumbered(final(tags)@, old(tags)@),
{
    let ghost o = tags@;
    let mut i: usize = 0;
    while i < tags.len()
        invariant
            0 <= i <= tags@.len(),
            tags@.len() == o.len(),
            o.len() < i64::MAX,
            forall|k: int| 0 <= k < i ==> #[trigger] tags@[k] == (Tag { id: (k + 1) as i64, ..o[k] }),
            forall|k: int| i <= k < o.len() ==> #[trigger] tags@[k] == o[k],
        decreases o.len() - i,
    {
        tags[i].id = (i as i64) + 1;
        i += 1;
    }
}

/// Makes `s` a subtask with id `id` written by `user`, whose executors are members.
pub fn prepare_subtask(s: &mut Subtask, id: i64, user: i64, shared: &Vec<i64>)
    requires
        subtask_fits(*old(s)),
    ensures
        subtask_prepared(*final(s), *old(s), id, user, shared@),
{
    s.id = id;
    s.author = user;
    s.executors = filter_executors(&s.executors, shared);
    renumber_tags(&mut s.tags);
}

/// Makes `t` a task with id `id` written by `user`, and prepares its subtasks.
pub fn prepare_task(t: &mut Task, id: i64, user: i64, shared: &Vec<i64>)
    requires
        task_fits(*old(t)),
    ensures
        task_prepared(*final(t), *old(t), id, user, shared@),
{
    let ghost o = *t;
    t.id = id;
    t.author = user;
    t.executors = filter_executors(&t.executors, shared);
    renumber_tags(&mut t.tags);
    let mut j: usize = 0;
    while j < t.subtasks.len()
        invariant
            task_fits(o),
            *t == (Task {
                id,
                author: user,
                executors: t.executors,
                tags: t.tags,
                subtasks: t.subtasks,
                ..o
            }),
            t.executors@ == admitted(o.executors@, shared@),
            tags_renumbered(t.tags@, o.tags@),
            0 <= j <= t.subtasks@.len(),
            t.subtasks@.len() == o.subtasks@.len(),
            forall|k: int|
                0 <= k < j ==> #[trigger] subtask_prepared(
                    t.subtasks@[k],
                    o.subtasks@[k],
                    (k + 1) as i64,
                    user,
                    shared@,
                ),
            forall|k: int| j <= k < o.subtasks@.len() ==> #[trigger] t.subtasks@[k] == o.subtasks@[k],
        decreases o.subtasks@.len() - j,
    {
        proof {
            assert(subtask_fits(o.subtasks@[j as int]));
        }
        prepare_subtask(&mut t.subtasks[j], (j as i64) + 1, user, shared);
        j += 1;
    }
}

/// Makes `c` a card with id `id` written by `user`, and prepares its tasks.
pub fn prepare_card(c: &mut Card, id: i64, user: i64, shared: &Vec<i64>)
    requires
        card_fits(*old(c)),
    ensures
        card_prepared(*final(c), *old(c), id, user, shared@),
{
    let ghost o = *c;
    c.id = id;
    c.author = user;
    let mut i: usize = 0;
    while i < c.tasks.len()
        invariant
            card_fits(o),
            *c == (Card { id, author: user, tasks: c.tasks, ..o }),
            0 <= i <= c.tasks@.len(),
            c.tasks@.len() == o.tasks@.len(),
            forall|k: int|
                0 <= k < i ==> #[trigger] task_prepared(
                    c.tasks@[k],
                    o.tasks@[k],
                    (k + 1) as i64,
                    user,
                    shared@,
                ),
            forall|k: int| i <= k < o.tasks@.len() ==> #[trigger] c.tasks@[k] == o.tasks@[k],
        decreases o.tasks@.len() - i,
    {
        proof {
            assert(task_fits(o.tasks@[i as int]));
        }
        prepare_task(&mut c.tasks[i], (i as i64) + 1, user, shared);
        i += 1;
    }
}

/// The counter that scope `k` gets when task `t` joins card `c` of board `b`
/// (its subtasks and its subtasks' tags are numbered by position from 1), if any.
pub open spec fn task_seed(b: i64, c: i64, t: Task, upto: int, k: ScopeKey) -> Option<i64> {
    match k {
        ScopeKey::Subtasks { board, card, task } => if board == b && card == c && task == t.id {
            Some((t.subtasks@.len() + 1) as i64)
        } else {
            None
        },
        ScopeKey::TaskTags { board, card, task } => if board == b && card == c && task == t.id {
            Some((t.tags@.len() + 1) as i64)
        } else {
            None
        },
        ScopeKey::SubtaskTags { board, card, task, subtask } => if board == b && card == c && task
            == t.id && 1 <= subtask <= upto {
            Some((t.subtasks@[subtask - 1].tags@.len() + 1) as i64)
        } else {
            None
        },
        _ => None,
    }
}

/// The counter that scope `k` gets when card `cd` joins board `b`, with its
/// first `upto` tasks counted, if any.
pub open spec fn card_seed(b: i64, cd: Card, upto: int, k: ScopeKey) -> Option<i64> {
    match k {
        ScopeKey::Tasks { board, card } => if board == b && card == cd.id {
            Some((cd.tasks@.len() + 1) as i64)
        } else {
            None
        },
        ScopeKey::Subtasks { board, card, task } => if board == b && card == cd.id && 1 <= task
            <= upto {
            task_seed(b, cd.id, cd.tasks@[task - 1], cd.tasks@[task - 1].subtasks@.len() as int, k)
        } else {
            None
        },
        ScopeKey::TaskTags { board, card, task } => if board == b && card == cd.id && 1 <= task
            <= upto {
            task_seed(b, cd.id, cd.tasks@[task - 1], cd.tasks@[task - 1].subtasks@.len() as int, k)
        } else {
            None
        },
        ScopeKey::SubtaskTags { board, card, task, .. } => if board == b && card == cd.id && 1
            <= task <= upto {
            task_seed(b, cd.id, cd.tasks@[task - 1], cd.tasks@[task - 1].subtasks@.len() as int, k)
        } else {
            None
        },
        _ => None,
    }
}

/// `m` is `base` with the subtree of `o` replaced by the counters that `seed` gives.
pub open spec fn seeded(
    m: Map<ScopeKey, i64>,
    base: Map<ScopeKey, i64>,
    o: Owner,
    seed: spec_fn(ScopeKey) -> Option<i64>,
) -> bool {
    &&& forall|k: ScopeKey|
        !within(k, o) ==> (#[trigger] m.contains_key(k) == base.contains_key(k) && (
        base.contains_key(k) ==> m[k] == base[k]))
    &&& forall|k: ScopeKey|
        within(k, o) ==> (#[trigger] m.contains_key(k) == seed(k) is Some && (seed(k) is Some
            ==> m[k] == seed(k)->Some_0))
}

/// Stores the counters of a task that has just joined card `c` of board `b`.
pub fn seed_task(counters: &mut ScopeCounters, b: i64, c: i64, t: &Task)
    requires
        old(counters).wf(),
        task_fits(*t),
        forall|j: int| 0 <= j < t.subtasks@.len() ==> (#[trigger] t.subtasks@[j]).tags@.len() < i64::MAX,
    ensures
        final(counters).wf(),
        seeded(
            final(counters)@,
            old(counters)@,
            Owner::Task { board: b, card: c, task: t.id },
            |k: ScopeKey| task_seed(b, c, *t, t.subtasks@.len() as int, k),
        ),
{
    let o = Owner::Task { board: b, card: c, task: t.id };
    let ghost base = counters@;
    counters.reset_subtree(&o);
    counters.set(ScopeKey::Subtasks { board: b, card: c, task: t.id }, (t.subtasks.len() as i64) + 1);
    counters.set(ScopeKey::TaskTags { board: b, card: c, task: t.id }, (t.tags.len() as i64) + 1);
    let mut j: usize = 0;
    while j < t.subtasks.len()
        invariant
            counters.wf(),
            task_fits(*t),
            forall|j: int| 0 <= j < t.subtasks@.len() ==> (#[trigger] t.subtasks@[j]).tags@.len() < i64::MAX,
            0 <= j <= t.subtasks@.len(),
            o == (Owner::Task { board: b, card: c, task: t.id }),
            seeded(counters@, base, o, |k: ScopeKey| task_seed(b, c, *t, j as int, k)),
        decreases t.subtasks@.len() - j,
    {
        let ghost before = counters@;
        let key = ScopeKey::SubtaskTags { board: b, card: c, task: t.id, subtask: (j as i64) + 1 };
        proof {
            assert((t.subtasks@[j as int]).tags@.len() < i64::MAX);
            assert(within(key, o));
        }
        counters.set(key, (t.subtasks[j].tags.len() as i64) + 1);
        j += 1;
        proof {
            assert forall|k: ScopeKey| within(k, o) implies (#[trigger] counters@.contains_key(k)
                == task_seed(b, c, *t, j as int, k) is Some && (task_seed(
                b,
                c,
                *t,
                j as int,
                k,
            ) is Some ==> counters@[k] == task_seed(b, c, *t, j as int, k)->Some_0)) by {
                if k != key {
                    assert(task_seed(b, c, *t, j as int, k) == task_seed(b, c, *t, j - 1, k));
                    assert(before.contains_key(k) == task_seed(b, c, *t, j - 1, k) is Some);
                } else {
                    assert(task_seed(b, c, *t, j as int, k) == Some(
                        (t.subtasks@[j - 1].tags@.len() + 1) as i64,
                    ));
                }
            }
            assert forall|k: ScopeKey| !within(k, o) implies (#[trigger] counters@.contains_key(k)
                == base.contains_key(k) && (base.contains_key(k) ==> counters@[k] == base[k])) by {
                assert(k != key);
                assert(before.contains_key(k) == base.contains_key(k));
            }
            assert(seeded(counters@, base, o, |k: ScopeKey| task_seed(b, c, *t, j as int, k)));
        }
    }
}

/// Stores the counters of a card that has just joined board `b`; its tasks
/// carry ids 1, 2, ... in order.
pub fn seed_card(counters: &mut ScopeCounters, b: i64, cd: &Card)
    requires
        old(counters).wf(),
        card_fits(*cd),
        forall|i: int| 0 <= i < cd.tasks@.len() ==> (#[trigger] cd.tasks@[i]).id == i + 1,
    ensures
        final(counters).wf(),
        seeded(
            final(counters)@,
            old(counters)@,
            Owner::Card { board: b, card: cd.id },
            |k: ScopeKey| card_seed(b, *cd, cd.tasks@.len() as int, k),
        ),
{
    let o = Owner::Card { board: b, card: cd.id };
    let ghost base = counters@;
    counters.reset_subtree(&o);
    counters.set(ScopeKey::Tasks { board: b, card: cd.id }, (cd.tasks.len() as i64) + 1);
    let mut i: usize = 0;
    while i < cd.tasks.len()
        invariant
            counters.wf(),
            card_fits(*cd),
            forall|i: int| 0 <= i < cd.tasks@.len() ==> (#[trigger] cd.tasks@[i]).id == i + 1,
            0 <= i <= cd.tasks@.len(),
            o == (Owner::Card { board: b, card: cd.id }),
            seeded(counters@, base, o, |k: ScopeKey| card_seed(b, *cd, i as int, k)),
        decreases cd.tasks@.len() - i,
    {
        let ghost before = counters@;
        let ghost t = cd.tasks@[i as int];
        let ghost ot = Owner::Task { board: b, card: cd.id, task: t.id };
        proof {
            assert(task_fits(t));
            assert forall|j: int| 0 <= j < t.subtasks@.len() implies (#[trigger] t.subtasks@[j]).tags@.len()
                < i64::MAX by {
                assert(subtask_fits(t.subtasks@[j]));
            }
        }
        seed_task(counters, b, cd.id, &cd.tasks[i]);
        i += 1;
        proof {
            assert forall|k: ScopeKey| within(k, o) implies (#[trigger] counters@.contains_key(k)
                == card_seed(b, *cd, i as int, k) is Some && (card_seed(b, *cd, i as int, k) is Some
                ==> counters@[k] == card_seed(b, *cd, i as int, k)->Some_0)) by {
                if within(k, ot) {
                    assert(card_seed(b, *cd, i as int, k) == task_seed(
                        b,
                        cd.id,
                        t,
                        t.subtasks@.len() as int,
                        k,
                    ));
                    let seed = task_seed(b, cd.id, t, t.subtasks@.len() as int, k);
                    assert(counters@.contains_key(k) == seed is Some);
                } else {
                    assert(card_seed(b, *cd, i as int, k) == card_seed(b, *cd, i - 1, k));
                    assert(before.contains_key(k) == card_seed(b, *cd, i - 1, k) is Some);
                    assert(counters@.contains_key(k) == before.contains_key(k));
                    assert(before.contains_key(k) ==> counters@[k] == before[k]);
                }
            }
            assert forall|k: ScopeKey| !within(k, o) implies (#[trigger] counters@.contains_key(k)
                == base.contains_key(k) && (base.contains_key(k) ==> counters@[k] == base[k])) by {
                assert(!within(k, ot));
                assert(before.contains_key(k) == base.contains_key(k));
            }
        }
    }
}

/// Whether a list of this length can be numbered from 1 in an `i64`.
pub fn len_fits(n: usize) -> (r: bool)
    ensures
        r == (n < i64::MAX),
{
    (n as i128) < (i64::MAX as i128)
}

/// Whether every list inside the subtask can be numbered in an `i64`.
pub fn subtask_fits_check(s: &Subtask) -> (r: bool)
    ensures
        r == subtask_fits(*s),
{
    len_fits(s.tags.len())
}

/// Whether every list inside the task can be numbered in an `i64`.
pub fn task_fits_check(t: &Task) -> (r: bool)
    ensures
        r == task_fits(*t),
{
    if !len_fits(t.tags.len()) || !len_fits(t.subtasks.len()) {
        return false;
    }
    let mut j: usize = 0;
    while j < t.subtasks.len()
        invariant
            0 <= j <= t.subtasks@.len(),
            forall|k: int| 0 <= k < j ==> #[trigger] subtask_fits(t.subtasks@[k]),
        decreases t.subtasks@.len() - j,
    {
        if !subtask_fits_check(&t.subtasks[j]) {
            return false;
        }
        j += 1;
    }
    true
}

/// Whether every list inside the card can be numbered in an `i64`.
pub fn card_fits_check(c: &Card) -> (r: bool)
    ensures
        r == card_fits(*c),
{
    if !len_fits(c.tasks.len()) {
        return false;
    }
    let mut i: usize = 0;
    while i < c.tasks.len()
        invariant
            0 <= i <= c.tasks@.len(),
            forall|k: int| 0 <= k < i ==> #[trigger] task_fits(c.tasks@[k]),
        decreases c.tasks@.len() - i,
    {
        if !task_fits_check(&c.tasks[i]) {
            return false;
        }
        i += 1;
    }
    true
}

/// A prepared task still fits, and so do the tag lists of its subtasks.
pub proof fn lemma_prepared_task_fits(n: Task, o: Task, id: i64, user: i64, shared: Seq<i64>)
    requires
        task_prepared(n, o, id, user, shared),
        task_fits(o),
    ensures
        task_fits(n),
        forall|j: int| 0 <= j < n.subtasks@.len() ==> (#[trigger] n.subtasks@[j]).tags@.len() < i64::MAX,
{
    assert forall|j: int| 0 <= j < n.subtasks@.len() implies #[trigger] subtask_fits(n.subtasks@[j]) by {
        assert(subtask_fits(o.subtasks@[j]));
        assert(subtask_prepared(n.subtasks@[j], o.subtasks@[j], (j + 1) as i64, user, shared));
    }
    assert forall|j: int| 0 <= j < n.subtasks@.len() implies (#[trigger] n.subtasks@[j]).tags@.len() < i64::MAX by {
        assert(subtask_fits(n.subtasks@[j]));
    }
}

/// The tasks of a prepared card carry ids 1, 2, ... and still fit.
pub proof fn lemma_prepared_card_fits(n: Card, o: Card, id: i64, user: i64, shared: Seq<i64>)
    requires
        card_prepared(n, o, id, user, shared),
        card_fits(o),
    ensures
        card_fits(n),
        forall|i: int| 0 <= i < n.tasks@.len() ==> (#[trigger] n.tasks@[i]).id == i + 1,
{
    assert forall|i: int| 0 <= i < n.tasks@.len() implies task_fits(#[trigger] n.tasks@[i])
        && n.tasks@[i].id == i + 1 by {
        assert(task_prepared(n.tasks@[i], o.tasks@[i], (i + 1) as i64, user, shared));
        assert(task_fits(o.tasks@[i]));
        lemma_prepared_task_fits(n.tasks@[i], o.tasks@[i], (i + 1) as i64, user, shared);
    }
}

} // verus!
