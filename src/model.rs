//! The board document: cards hold tasks, tasks hold subtasks, and tasks and
//! subtasks hold tags. Each level is an ordered list addressed by id.

use vstd::prelude::*;
use crate::auth::UserCredentials;

verus! {

/// Which level of an address could not be resolved.
#[derive(Debug, Clone, Copy, PartialEq, Eq, Structural)]
pub enum NotFound {
    Board,
    Card,
    Task,
    Subtask,
    Tag,
}

/// An entity that carries an id, unique among its siblings.
pub trait Identified {
    spec fn spec_id(&self) -> i64;

    fn id(&self) -> (r: i64)
        ensures
            r == self.spec_id(),
    ;
}

/// Some element of `s` carries `id`.
pub open spec fn has_id<T: Identified>(s: Seq<T>, id: i64) -> bool {
    exists|i: int| 0 <= i < s.len() && #[trigger] s[i].spec_id() == id
}

/// `i` is the first position of `s` whose element carries `id`.
pub open spec fn is_first_with_id<T: Identified>(s: Seq<T>, id: i64, i: int) -> bool {
    &&& 0 <= i < s.len()
    &&& s[i].spec_id() == id
    &&& forall|j: int| 0 <= j < i ==> #[trigger] s[j].spec_id() != id
}

/// The first position of `s` that carries `id`, or -1 when there is none.
pub open spec fn index_of<T: Identified>(s: Seq<T>, id: i64) -> int {
    if has_id(s, id) {
        choose|i: int| is_first_with_id(s, id, i)
    } else {
        -1
    }
}

/// No two elements of `s` carry the same id.
pub open spec fn ids_unique<T: Identified>(s: Seq<T>) -> bool {
    forall|i: int, j: int|
        0 <= i < s.len() && 0 <= j < s.len() && i != j ==> #[trigger] s[i].spec_id()
            != #[trigger] s[j].spec_id()
}

/// Every element of `s` carries an id below `bound`.
pub open spec fn ids_below<T: Identified>(s: Seq<T>, bound: i64) -> bool {
    forall|i: int| 0 <= i < s.len() ==> #[trigger] s[i].spec_id() < bound
}

/// Appending an element whose id is the bound keeps ids unique, below the next bound.
pub proof fn lemma_push_fresh<T: Identified>(s: Seq<T>, n: T, bound: i64)
    requires
        ids_unique(s),
        ids_below(s, bound),
        n.spec_id() == bound,
        bound < i64::MAX,
    ensures
        ids_unique(s.push(n)),
        ids_below(s.push(n), (bound + 1) as i64),
{
    let t = s.push(n);
    assert forall|i: int| 0 <= i < t.len() implies #[trigger] t[i].spec_id() < bound + 1 by {
        if i < s.len() {
            assert(t[i] == s[i]);
        }
    }
    assert forall|i: int, j: int|
        0 <= i < t.len() && 0 <= j < t.len() && i != j implies #[trigger] t[i].spec_id()
        != #[trigger] t[j].spec_id() by {
        if i < s.len() {
            assert(t[i] == s[i]);
        }
        if j < s.len() {
            assert(t[j] == s[j]);
        }
    }
}

/// A list with the same ids, position by position, keeps uniqueness and bounds.
pub proof fn lemma_same_ids<T: Identified>(s: Seq<T>, t: Seq<T>, bound: i64)
    requires
        ids_unique(s),
        ids_below(s, bound),
        t.len() == s.len(),
        forall|i: int| 0 <= i < s.len() ==> #[trigger] t[i].spec_id() == s[i].spec_id(),
    ensures
        ids_unique(t),
        ids_below(t, bound),
{
    assert forall|i: int, j: int|
        0 <= i < t.len() && 0 <= j < t.len() && i != j implies #[trigger] t[i].spec_id()
        != #[trigger] t[j].spec_id() by {
        assert(t[i].spec_id() == s[i].spec_id());
        assert(t[j].spec_id() == s[j].spec_id());
    }
    assert forall|i: int| 0 <= i < t.len() implies #[trigger] t[i].spec_id() < bound by {
        assert(t[i].spec_id() == s[i].spec_id());
    }
}

/// Removing an element keeps ids unique and below any bound they were below.
pub proof fn lemma_remove_keeps_ids<T: Identified>(s: Seq<T>, x: int, bound: i64)
    requires
        ids_unique(s),
        ids_below(s, bound),
        0 <= x < s.len(),
    ensures
        ids_unique(s.remove(x)),
        ids_below(s.remove(x), bound),
{
    let t = s.remove(x);
    assert forall|i: int| 0 <= i < t.len() implies #[trigger] t[i] == s[if i < x {
        i
    } else {
        i + 1
    }] by {}
    assert forall|i: int| 0 <= i < t.len() implies #[trigger] t[i].spec_id() < bound by {
        assert(t[i] == s[if i < x {
            i
        } else {
            i + 1
        }]);
    }
    assert forall|i: int, j: int|
        0 <= i < t.len() && 0 <= j < t.len() && i != j implies #[trigger] t[i].spec_id()
        != #[trigger] t[j].spec_id() by {
        let si = if i < x {
            i
        } else {
            i + 1
        };
        let sj = if j < x {
            j
        } else {
            j + 1
        };
        assert(t[i] == s[si]);
        assert(t[j] == s[sj]);
    }
}

proof fn lemma_first_unique<T: Identified>(s: Seq<T>, id: i64, i: int, k: int)
    requires
        is_first_with_id(s, id, i),
        is_first_with_id(s, id, k),
    ensures
        i == k,
{
    if i < k {
        assert(s[i].spec_id() != id);
    } else if k < i {
        assert(s[k].spec_id() != id);
    }
}

/// `index_of` names the first position carrying `id`, when there is one.
pub proof fn lemma_index_of<T: Identified>(s: Seq<T>, id: i64)
    ensures
        has_id(s, id) ==> is_first_with_id(s, id, index_of(s, id)),
        !has_id(s, id) ==> index_of(s, id) == -1,
        has_id(s, id) <==> 0 <= index_of(s, id),
{
    if has_id(s, id) {
        let w = choose|i: int| 0 <= i < s.len() && #[trigger] s[i].spec_id() == id;
        let f = lemma_first_from(s, id, 0, w);
        let c = choose|i: int| is_first_with_id(s, id, i);
        lemma_first_unique(s, id, f, c);
    }
}

proof fn lemma_first_from<T: Identified>(s: Seq<T>, id: i64, k: int, w: int) -> (f: int)
    requires
        0 <= k <= w < s.len(),
        s[w].spec_id() == id,
        forall|j: int| 0 <= j < k ==> #[trigger] s[j].spec_id() != id,
    ensures
        is_first_with_id(s, id, f),
    decreases w - k,
{
    if s[k].spec_id() == id {
        k
    } else {
        lemma_first_from(s, id, k + 1, w)
    }
}

/// Finds the first position of `v` whose element carries `id`.
pub fn position_of<T: Identified>(v: &Vec<T>, id: i64) -> (r: Option<usize>)
    ensures
        match r {
            Some(i) => i as int == index_of(v@, id) && is_first_with_id(v@, id, i as int),
            None => index_of(v@, id) == -1,
        },
        r is Some <==> has_id(v@, id),
{
    let mut i: usize = 0;
    while i < v.len()
        invariant
            0 <= i <= v@.len(),
            forall|j: int| 0 <= j < i ==> #[trigger] v@[j].spec_id() != id,
        decreases v@.len() - i,
    {
        if v[i].id() == id {
            proof {
                assert(is_first_with_id(v@, id, i as int));
                lemma_index_of(v@, id);
                lemma_first_unique(v@, id, i as int, index_of(v@, id));
            }
            return Some(i);
        }
        i += 1;
    }
    proof {
        lemma_index_of(v@, id);
    }
    None
}

/// Time limits of a task or subtask. Instants are seconds since the Unix epoch.
#[derive(Debug, Clone, Copy, PartialEq, Eq, Structural)]
pub struct Timelines {
    /// Preferably done by this instant.
    pub preferred_time: i64,
    /// Done by this instant at the latest.
    pub max_time: i64,
    /// Expected duration, in minutes.
    pub expected_time: u32,
}

/// A label on a task or subtask.
#[derive(Debug, Clone)]
pub struct Tag {
    /// Unique within the owner's tag list.
    pub id: i64,
    pub title: String,
    pub text_color: String,
    pub background_color: String,
}

/// A subtask of a task.
#[derive(Debug, Clone)]
pub struct Subtask {
    /// Unique within the task.
    pub id: i64,
    pub author: i64,
    pub title: String,
    /// Users assigned to the subtask.
    pub executors: Vec<i64>,
    /// Whether the subtask is done.
    pub completed: bool,
    pub tags: Vec<Tag>,
    pub timelines: Timelines,
}

/// A task of a card.
#[derive(Debug, Clone)]
pub struct Task {
    /// Unique within the card.
    pub id: i64,
    pub author: i64,
    pub title: String,
    /// Users assigned to the task.
    pub executors: Vec<i64>,
    /// Whether the task is done.
    pub completed: bool,
    pub subtasks: Vec<Subtask>,
    pub notes: String,
    pub tags: Vec<Tag>,
    pub timelines: Timelines,
}

/// A card of a board.
#[derive(Debug, Clone)]
pub struct Card {
    /// Unique within the board.
    pub id: i64,
    pub author: i64,
    pub title: String,
    pub tasks: Vec<Task>,
    pub header_text_color: String,
    pub header_background_color: String,
    pub background_color: String,
}

/// Short description of a board, for listings.
#[derive(Debug, Clone)]
pub struct BoardsShort {
    pub id: i64,
    pub title: String,
    pub header_text_color: String,
    pub header_background_color: String,
}

/// Header of a board.
#[derive(Debug, Clone)]
pub struct BoardHeader {
    pub title: String,
    pub header_text_color: String,
    pub header_background_color: String,
}

/// Background of a board.
#[derive(Debug, Clone)]
pub enum BoardBackground {
    /// A plain color.
    Color { color: String },
    /// A picture from a remote resource.
    URL { url: String },
}

/// A board: its header, its members and its cards.
#[derive(Debug, Clone)]
pub struct Board {
    pub id: i64,
    pub header: BoardHeader,
    /// The creator; never changes.
    pub author: i64,
    /// Users who may read the board and change its children.
    pub shared_with: Vec<i64>,
    pub cards: Vec<Card>,
    pub background: BoardBackground,
}

/// A user: the boards they can reach and their credentials.
#[derive(Debug, Clone)]
pub struct User {
    pub id: i64,
    pub shared_boards: Vec<i64>,
    pub user_creds: UserCredentials,
}

impl Identified for Tag {
    open spec fn spec_id(&self) -> i64 {
        self.id
    }

    fn id(&self) -> (r: i64) {
        self.id
    }
}

impl Identified for Subtask {
    open spec fn spec_id(&self) -> i64 {
        self.id
    }

    fn id(&self) -> (r: i64) {
        self.id
    }
}

impl Identified for Task {
    open spec fn spec_id(&self) -> i64 {
        self.id
    }

    fn id(&self) -> (r: i64) {
        self.id
    }
}

impl Identified for Card {
    open spec fn spec_id(&self) -> i64 {
        self.id
    }

    fn id(&self) -> (r: i64) {
        self.id
    }
}

impl Task {
    /// Gives mutable access to the subtask with the given id.
    pub fn get_mut_subtask(&mut self, subtask_id: &i64) -> (r: Result<&mut Subtask, NotFound>)
        ensures
            match r {
                Ok(st) => {
                    let i = index_of(old(self).subtasks@, *subtask_id);
                    &&& has_id(old(self).subtasks@, *subtask_id)
                    &&& *st == old(self).subtasks@[i]
                    &&& task_same_but_subtasks(*final(self), *old(self))
                    &&& final(self).subtasks@ == old(self).subtasks@.update(i, *final(st))
                },
                Err(e) => {
                    &&& e == NotFound::Subtask
                    &&& !has_id(old(self).subtasks@, *subtask_id)
                    &&& *final(self) == *old(self)
                },
            },
    {
        match position_of(&self.subtasks, *subtask_id) {
            Some(i) => Ok(&mut self.subtasks[i]),
            None => Err(NotFound::Subtask),
        }
    }
}

/// The card that carries `c` (meaningful when `has_id(cards, c)`).
pub open spec fn card_of(cards: Seq<Card>, c: i64) -> Card {
    cards[index_of(cards, c)]
}

/// The address `(c, t)` names a task.
pub open spec fn resolves_task(cards: Seq<Card>, c: i64, t: i64) -> bool {
    has_id(cards, c) && has_id(card_of(cards, c).tasks@, t)
}

/// The task at address `(c, t)` (meaningful when it resolves).
pub open spec fn task_of(cards: Seq<Card>, c: i64, t: i64) -> Task {
    let tasks = card_of(cards, c).tasks@;
    tasks[index_of(tasks, t)]
}

/// The address `(c, t, s)` names a subtask.
pub open spec fn resolves_subtask(cards: Seq<Card>, c: i64, t: i64, s: i64) -> bool {
    resolves_task(cards, c, t) && has_id(task_of(cards, c, t).subtasks@, s)
}

/// The subtask at address `(c, t, s)` (meaningful when it resolves).
pub open spec fn subtask_of(cards: Seq<Card>, c: i64, t: i64, s: i64) -> Subtask {
    let subtasks = task_of(cards, c, t).subtasks@;
    subtasks[index_of(subtasks, s)]
}

/// The level at which the address `(c, t)` first fails to resolve.
pub open spec fn task_miss(cards: Seq<Card>, c: i64) -> NotFound {
    if has_id(cards, c) {
        NotFound::Task
    } else {
        NotFound::Card
    }
}

/// The level at which the address `(c, t, s)` first fails to resolve.
pub open spec fn subtask_miss(cards: Seq<Card>, c: i64, t: i64) -> NotFound {
    if !has_id(cards, c) {
        NotFound::Card
    } else if !resolves_task(cards, c, t) {
        NotFound::Task
    } else {
        NotFound::Subtask
    }
}

/// `a` equals `b` except, perhaps, in its task list.
pub open spec fn card_same_but_tasks(a: Card, b: Card) -> bool {
    a == (Card { tasks: a.tasks, ..b })
}

/// `a` equals `b` except, perhaps, in its subtask list.
pub open spec fn task_same_but_subtasks(a: Task, b: Task) -> bool {
    a == (Task { subtasks: a.subtasks, ..b })
}

/// Resolves the card id `c` to its position.
pub fn locate_card(cards: &Vec<Card>, c: i64) -> (r: Result<usize, NotFound>)
    ensures
        match r {
            Ok(i) => has_id(cards@, c) && i as int == index_of(cards@, c) && i < cards@.len(),
            Err(e) => !has_id(cards@, c) && e == NotFound::Card,
        },
{
    match position_of(cards, c) {
        Some(i) => Ok(i),
        None => Err(NotFound::Card),
    }
}

/// Resolves the address `(c, t)` to the positions of the card and of the task.
pub fn locate_task(cards: &Vec<Card>, c: i64, t: i64) -> (r: Result<(usize, usize), NotFound>)
    ensures
        match r {
            Ok((i, j)) => {
                &&& resolves_task(cards@, c, t)
                &&& i as int == index_of(cards@, c)
                &&& j as int == index_of(card_of(cards@, c).tasks@, t)
                &&& i < cards@.len()
                &&& j < cards@[i as int].tasks@.len()
            },
            Err(e) => !resolves_task(cards@, c, t) && e == task_miss(cards@, c),
        },
{
    let i = locate_card(cards, c)?;
    match position_of(&cards[i].tasks, t) {
        Some(j) => Ok((i, j)),
        None => Err(NotFound::Task),
    }
}

/// Resolves the address `(c, t, s)` to the positions of card, task and subtask.
pub fn locate_subtask(cards: &Vec<Card>, c: i64, t: i64, s: i64) -> (r: Result<
    (usize, usize, usize),
    NotFound,
>)
    ensures
        match r {
            Ok((i, j, k)) => {
                &&& resolves_subtask(cards@, c, t, s)
                &&& i as int == index_of(cards@, c)
                &&& j as int == index_of(card_of(cards@, c).tasks@, t)
                &&& k as int == index_of(task_of(cards@, c, t).subtasks@, s)
                &&& i < cards@.len()
                &&& j < cards@[i as int].tasks@.len()
                &&& k < cards@[i as int].tasks@[j as int].subtasks@.len()
            },
            Err(e) => !resolves_subtask(cards@, c, t, s) && e == subtask_miss(cards@, c, t),
        },
{
    let (i, j) = locate_task(cards, c, t)?;
    match position_of(&cards[i].tasks[j].subtasks, s) {
        Some(k) => Ok((i, j, k)),
        None => Err(NotFound::Subtask),
    }
}

impl Task {
    /// Gives read access to the subtask with the given id.
    pub fn get_subtask(&self, subtask_id: &i64) -> (r: Result<&Subtask, NotFound>)
        ensures
            match r {
                Ok(st) => has_id(self.subtasks@, *subtask_id) && *st == self.subtasks@[index_of(
                    self.subtasks@,
                    *subtask_id,
                )],
                Err(e) => !has_id(self.subtasks@, *subtask_id) && e == NotFound::Subtask,
            },
    {
        match position_of(&self.subtasks, *subtask_id) {
            Some(i) => Ok(&self.subtasks[i]),
            None => Err(NotFound::Subtask),
        }
    }

    /// Takes the subtask with the given id out of the task.
    pub fn remove_subtask(&mut self, subtask_id: &i64) -> (r: Result<Subtask, NotFound>)
        ensures
            match r {
                Ok(st) => {
                    let i = index_of(old(self).subtasks@, *subtask_id);
                    &&& has_id(old(self).subtasks@, *subtask_id)
                    &&& st == old(self).subtasks@[i]
                    &&& task_same_but_subtasks(*final(self), *old(self))
                    &&& final(self).subtasks@ == old(self).subtasks@.remove(i)
                },
                Err(e) => {
                    &&& e == NotFound::Subtask
                    &&& !has_id(old(self).subtasks@, *subtask_id)
                    &&& *final(self) == *old(self)
                },
            },
    {
        match position_of(&self.subtasks, *subtask_id) {
            Some(i) => Ok(self.subtasks.remove(i)),
            None => Err(NotFound::Subtask),
        }
    }
}

impl Card {
    /// Gives mutable access to the task with the given id.
    pub fn get_mut_task(&mut self, task_id: &i64) -> (r: Result<&mut Task, NotFound>)
        ensures
            match r {
                Ok(t) => {
                    let i = index_of(old(self).tasks@, *task_id);
                    &&& has_id(old(self).tasks@, *task_id)
                    &&& *t == old(self).tasks@[i]
                    &&& card_same_but_tasks(*final(self), *old(self))
                    &&& final(self).tasks@ == old(self).tasks@.update(i, *final(t))
                },
                Err(e) => {
                    &&& e == NotFound::Task
                    &&& !has_id(old(self).tasks@, *task_id)
                    &&& *final(self) == *old(self)
                },
            },
    {
        match position_of(&self.tasks, *task_id) {
            Some(i) => Ok(&mut self.tasks[i]),
            None => Err(NotFound::Task),
        }
    }

    /// Gives read access to the task with the given id.
    pub fn get_task(&self, task_id: &i64) -> (r: Result<&Task, NotFound>)
        ensures
            match r {
                Ok(t) => has_id(self.tasks@, *task_id) && *t == self.tasks@[index_of(
                    self.tasks@,
                    *task_id,
                )],
                Err(e) => !has_id(self.tasks@, *task_id) && e == NotFound::Task,
            },
    {
        match position_of(&self.tasks, *task_id) {
            Some(i) => Ok(&self.tasks[i]),
            None => Err(NotFound::Task),
        }
    }

    /// Gives mutable access to a subtask of one of the tasks.
    pub fn get_mut_subtask(&mut self, task_id: &i64, subtask_id: &i64) -> (r: Result<
        &mut Subtask,
        NotFound,
    >)
        ensures
            match r {
                Ok(st) => {
                    let i = index_of(old(self).tasks@, *task_id);
                    let t = old(self).tasks@[i];
                    let j = index_of(t.subtasks@, *subtask_id);
                    &&& has_id(old(self).tasks@, *task_id)
                    &&& has_id(t.subtasks@, *subtask_id)
                    &&& *st == t.subtasks@[j]
                    &&& card_same_but_tasks(*final(self), *old(self))
                    &&& final(self).tasks@.len() == old(self).tasks@.len()
                    &&& forall|k: int|
                        0 <= k < old(self).tasks@.len() && k != i
                            ==> final(self).tasks@[k] == #[trigger] old(self).tasks@[k]
                    &&& task_same_but_subtasks(final(self).tasks@[i], t)
                    &&& final(self).tasks@[i].subtasks@ == t.subtasks@.update(j, *final(st))
                },
                Err(e) => {
                    &&& card_same_but_tasks(*final(self), *old(self))
                    &&& final(self).tasks@ == old(self).tasks@
                    &&& !has_id(old(self).tasks@, *task_id) ==> e == NotFound::Task
                    &&& has_id(old(self).tasks@, *task_id) ==> e == NotFound::Subtask && !has_id(
                        old(self).tasks@[index_of(old(self).tasks@, *task_id)].subtasks@,
                        *subtask_id,
                    )
                },
            },
    {
        match position_of(&self.tasks, *task_id) {
            Some(i) => self.tasks[i].get_mut_subtask(subtask_id),
            None => Err(NotFound::Task),
        }
    }

    /// Gives read access to a subtask of one of the tasks.
    pub fn get_subtask(&self, task_id: &i64, subtask_id: &i64) -> (r: Result<&Subtask, NotFound>)
        ensures
            match r {
                Ok(st) => {
                    let t = self.tasks@[index_of(self.tasks@, *task_id)];
                    &&& has_id(self.tasks@, *task_id)
                    &&& has_id(t.subtasks@, *subtask_id)
                    &&& *st == t.subtasks@[index_of(t.subtasks@, *subtask_id)]
                },
                Err(e) => {
                    &&& !has_id(self.tasks@, *task_id) ==> e == NotFound::Task
                    &&& has_id(self.tasks@, *task_id) ==> e == NotFound::Subtask && !has_id(
                        self.tasks@[index_of(self.tasks@, *task_id)].subtasks@,
                        *subtask_id,
                    )
                },
            },
    {
        match position_of(&self.tasks, *task_id) {
            Some(i) => self.tasks[i].get_subtask(subtask_id),
            None => Err(NotFound::Task),
        }
    }

    /// Takes the task with the given id out of the card.
    pub fn remove_task(&mut self, task_id: &i64) -> (r: Result<Task, NotFound>)
        ensures
            match r {
                Ok(t) => {
                    let i = index_of(old(self).tasks@, *task_id);
                    &&& has_id(old(self).tasks@, *task_id)
                    &&& t == old(self).tasks@[i]
                    &&& card_same_but_tasks(*final(self), *old(self))
                    &&& final(self).tasks@ == old(self).tasks@.remove(i)
                },
                Err(e) => {
                    &&& e == NotFound::Task
                    &&& !has_id(old(self).tasks@, *task_id)
                    &&& *final(self) == *old(self)
                },
            },
    {
        match position_of(&self.tasks, *task_id) {
            Some(i) => Ok(self.tasks.remove(i)),
            None => Err(NotFound::Task),
        }
    }

    /// Takes a subtask out of one of the tasks.
    pub fn remove_subtask(&mut self, task_id: &i64, subtask_id: &i64) -> (r: Result<
        Subtask,
        NotFound,
    >)
        ensures
            match r {
                Ok(st) => {
                    let i = index_of(old(self).tasks@, *task_id);
                    let t = old(self).tasks@[i];
                    let j = index_of(t.subtasks@, *subtask_id);
                    &&& has_id(old(self).tasks@, *task_id)
                    &&& has_id(t.subtasks@, *subtask_id)
                    &&& st == t.subtasks@[j]
                    &&& card_same_but_tasks(*final(self), *old(self))
                    &&& final(self).tasks@.len() == old(self).tasks@.len()
                    &&& forall|k: int|
                        0 <= k < old(self).tasks@.len() && k != i
                            ==> final(self).tasks@[k] == #[trigger] old(self).tasks@[k]
                    &&& task_same_but_subtasks(final(self).tasks@[i], t)
                    &&& final(self).tasks@[i].subtasks@ == t.subtasks@.remove(j)
                },
                Err(e) => {
                    &&& card_same_but_tasks(*final(self), *old(self))
                    &&& final(self).tasks@ == old(self).tasks@
                    &&& !has_id(old(self).tasks@, *task_id) ==> e == NotFound::Task
                    &&& has_id(old(self).tasks@, *task_id) ==> e == NotFound::Subtask && !has_id(
                        old(self).tasks@[index_of(old(self).tasks@, *task_id)].subtasks@,
                        *subtask_id,
                    )
                },
            },
    {
        match position_of(&self.tasks, *task_id) {
            Some(i) => self.tasks[i].remove_subtask(subtask_id),
            None => Err(NotFound::Task),
        }
    }
}

/// Addressed access to a board's card list.
pub trait Cards {
    /// The cards, in order.
    spec fn cards(&self) -> Seq<Card>;

    /// Gives read access to card `card_id`.
    fn get_card(&self, card_id: &i64) -> (r: Result<&Card, NotFound>)
        ensures
            match r {
                Ok(c) => has_id(self.cards(), *card_id) && *c == card_of(self.cards(), *card_id),
                Err(e) => !has_id(self.cards(), *card_id) && e == NotFound::Card,
            },
    ;

    /// Gives mutable access to card `card_id`.
    fn get_mut_card(&mut self, card_id: &i64) -> (r: Result<&mut Card, NotFound>)
        ensures
            match r {
                Ok(c) => {
                    &&& has_id(old(self).cards(), *card_id)
                    &&& *c == card_of(old(self).cards(), *card_id)
                    &&& final(self).cards() == old(self).cards().update(
                        index_of(old(self).cards(), *card_id),
                        *final(c),
                    )
                },
                Err(e) => {
                    &&& !has_id(old(self).cards(), *card_id)
                    &&& e == NotFound::Card
                    &&& final(self).cards() == old(self).cards()
                },
            },
    ;

    /// Gives read access to task `(card_id, task_id)`.
    fn get_task(&self, card_id: &i64, task_id: &i64) -> (r: Result<&Task, NotFound>)
        ensures
            match r {
                Ok(t) => resolves_task(self.cards(), *card_id, *task_id) && *t == task_of(
                    self.cards(),
                    *card_id,
                    *task_id,
                ),
                Err(e) => !resolves_task(self.cards(), *card_id, *task_id) && e == task_miss(
                    self.cards(),
                    *card_id,
                ),
            },
    ;

    /// Gives read access to subtask `(card_id, task_id, subtask_id)`.
    fn get_subtask(&self, card_id: &i64, task_id: &i64, subtask_id: &i64) -> (r: Result<
        &Subtask,
        NotFound,
    >)
        ensures
            match r {
                Ok(s) => resolves_subtask(self.cards(), *card_id, *task_id, *subtask_id) && *s
                    == subtask_of(self.cards(), *card_id, *task_id, *subtask_id),
                Err(e) => !resolves_subtask(self.cards(), *card_id, *task_id, *subtask_id) && e
                    == subtask_miss(self.cards(), *card_id, *task_id),
            },
    ;

    /// Takes card `card_id` out of the list.
    fn remove_card(&mut self, card_id: &i64) -> (r: Result<Card, NotFound>)
        ensures
            match r {
                Ok(c) => {
                    &&& has_id(old(self).cards(), *card_id)
                    &&& c == card_of(old(self).cards(), *card_id)
                    &&& final(self).cards() == old(self).cards().remove(
                        index_of(old(self).cards(), *card_id),
                    )
                },
                Err(e) => {
                    &&& !has_id(old(self).cards(), *card_id)
                    &&& e == NotFound::Card
                    &&& final(self).cards() == old(self).cards()
                },
            },
    ;
    /// Gives mutable access to task `(card_id, task_id)`.
    fn get_mut_task(&mut self, card_id: &i64, task_id: &i64) -> (r: Result<&mut Task, NotFound>)
        ensures
            match r {
                Ok(t) => {
                    let i = index_of(old(self).cards(), *card_id);
                    let oc = old(self).cards()[i];
                    let nc = final(self).cards()[i];
                    &&& resolves_task(old(self).cards(), *card_id, *task_id)
                    &&& *t == task_of(old(self).cards(), *card_id, *task_id)
                    &&& final(self).cards() == old(self).cards().update(i, nc)
                    &&& card_same_but_tasks(nc, oc)
                    &&& nc.tasks@ == oc.tasks@.update(index_of(oc.tasks@, *task_id), *final(t))
                },
                Err(e) => {
                    &&& !resolves_task(old(self).cards(), *card_id, *task_id)
                    &&& e == task_miss(old(self).cards(), *card_id)
                    &&& final(self).cards() == old(self).cards()
                },
            },
    ;

    /// Gives mutable access to subtask `(card_id, task_id, subtask_id)`.
    fn get_mut_subtask(&mut self, card_id: &i64, task_id: &i64, subtask_id: &i64) -> (r: Result<
        &mut Subtask,
        NotFound,
    >)
        ensures
            match r {
                Ok(s) => {
                    let i = index_of(old(self).cards(), *card_id);
                    let oc = old(self).cards()[i];
                    let nc = final(self).cards()[i];
                    let j = index_of(oc.tasks@, *task_id);
                    let ot = oc.tasks@[j];
                    let nt = nc.tasks@[j];
                    &&& resolves_subtask(old(self).cards(), *card_id, *task_id, *subtask_id)
                    &&& *s == subtask_of(old(self).cards(), *card_id, *task_id, *subtask_id)
                    &&& final(self).cards() == old(self).cards().update(i, nc)
                    &&& card_same_but_tasks(nc, oc)
                    &&& nc.tasks@ == oc.tasks@.update(j, nt)
                    &&& task_same_but_subtasks(nt, ot)
                    &&& nt.subtasks@ == ot.subtasks@.update(
                        index_of(ot.subtasks@, *subtask_id),
                        *final(s),
                    )
                },
                Err(e) => {
                    &&& !resolves_subtask(old(self).cards(), *card_id, *task_id, *subtask_id)
                    &&& e == subtask_miss(old(self).cards(), *card_id, *task_id)
                    &&& final(self).cards() == old(self).cards()
                },
            },
    ;

    /// Takes task `(card_id, task_id)` out of its card.
    fn remove_task(&mut self, card_id: &i64, task_id: &i64) -> (r: Result<Task, NotFound>)
        ensures
            match r {
                Ok(t) => {
                    let i = index_of(old(self).cards(), *card_id);
                    let oc = old(self).cards()[i];
                    let nc = final(self).cards()[i];
                    &&& resolves_task(old(self).cards(), *card_id, *task_id)
                    &&& t == task_of(old(self).cards(), *card_id, *task_id)
                    &&& final(self).cards() == old(self).cards().update(i, nc)
                    &&& card_same_but_tasks(nc, oc)
                    &&& nc.tasks@ == oc.tasks@.remove(index_of(oc.tasks@, *task_id))
                },
                Err(e) => {
                    &&& !resolves_task(old(self).cards(), *card_id, *task_id)
                    &&& e == task_miss(old(self).cards(), *card_id)
                    &&& final(self).cards() == old(self).cards()
                },
            },
    ;

    /// Takes subtask `(card_id, task_id, subtask_id)` out of its task.
    fn remove_subtask(&mut self, card_id: &i64, task_id: &i64, subtask_id: &i64) -> (r: Result<
        Subtask,
        NotFound,
    >)
        ensures
            match r {
                Ok(s) => {
                    let i = index_of(old(self).cards(), *card_id);
                    let oc = old(self).cards()[i];
                    let nc = final(self).cards()[i];
                    let j = index_of(oc.tasks@, *task_id);
                    let ot = oc.tasks@[j];
                    let nt = nc.tasks@[j];
                    &&& resolves_subtask(old(self).cards(), *card_id, *task_id, *subtask_id)
                    &&& s == subtask_of(old(self).cards(), *card_id, *task_id, *subtask_id)
                    &&& final(self).cards() == old(self).cards().update(i, nc)
                    &&& card_same_but_tasks(nc, oc)
                    &&& nc.tasks@ == oc.tasks@.update(j, nt)
                    &&& task_same_but_subtasks(nt, ot)
                    &&& nt.subtasks@ == ot.subtasks@.remove(index_of(ot.subtasks@, *subtask_id))
                },
                Err(e) => {
                    &&& !resolves_subtask(old(self).cards(), *card_id, *task_id, *subtask_id)
                    &&& e == subtask_miss(old(self).cards(), *card_id, *task_id)
                    &&& final(self).cards() == old(self).cards()
                },
            },
    ;
}

impl Cards for Vec<Card> {
    open spec fn cards(&self) -> Seq<Card> {
        self@
    }

    fn get_card(&self, card_id: &i64) -> (r: Result<&Card, NotFound>) {
        let i = locate_card(self, *card_id)?;
        Ok(&self[i])
    }

    fn get_mut_card(&mut self, card_id: &i64) -> (r: Result<&mut Card, NotFound>) {
        let i = locate_card(self, *card_id)?;
        Ok(&mut self[i])
    }

    fn get_task(&self, card_id: &i64, task_id: &i64) -> (r: Result<&Task, NotFound>) {
        let (i, j) = locate_task(self, *card_id, *task_id)?;
        Ok(&self[i].tasks[j])
    }

    fn get_subtask(&self, card_id: &i64, task_id: &i64, subtask_id: &i64) -> (r: Result<
        &Subtask,
        NotFound,
    >) {
        let (i, j, k) = locate_subtask(self, *card_id, *task_id, *subtask_id)?;
        Ok(&self[i].tasks[j].subtasks[k])
    }

    fn remove_card(&mut self, card_id: &i64) -> (r: Result<Card, NotFound>) {
        let i = locate_card(self, *card_id)?;
        Ok(self.remove(i))
    }
    fn get_mut_task(&mut self, card_id: &i64, task_id: &i64) -> (r: Result<&mut Task, NotFound>) {
        let (i, j) = locate_task(self, *card_id, *task_id)?;
        Ok(&mut self[i].tasks[j])
    }

    fn get_mut_subtask(&mut self, card_id: &i64, task_id: &i64, subtask_id: &i64) -> (r: Result<
        &mut Subtask,
        NotFound,
    >) {
        let (i, j, k) = locate_subtask(self, *card_id, *task_id, *subtask_id)?;
        Ok(&mut self[i].tasks[j].subtasks[k])
    }

    fn remove_task(&mut self, card_id: &i64, task_id: &i64) -> (r: Result<Task, NotFound>) {
        let (i, j) = locate_task(self, *card_id, *task_id)?;
        Ok(self[i].tasks.remove(j))
    }

    fn remove_subtask(&mut self, card_id: &i64, task_id: &i64, subtask_id: &i64) -> (r: Result<
        Subtask,
        NotFound,
    >) {
        let (i, j, k) = locate_subtask(self, *card_id, *task_id, *subtask_id)?;
        Ok(self[i].tasks[j].subtasks.remove(k))
    }
}

} // verus!
