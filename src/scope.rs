//! Scoped id allocation: one counter per scope, holding the next id to issue.

use vstd::prelude::*;

verus! {

/// A scope in which ids are issued, as a tuple of typed ids.
#[derive(Debug, Clone, Copy, PartialEq, Eq, Structural)]
pub enum ScopeKey {
    /// The cards of a board.
    Cards { board: i64 },
    /// The tasks of a card.
    Tasks { board: i64, card: i64 },
    /// The subtasks of a task.
    Subtasks { board: i64, card: i64, task: i64 },
    /// The tags of a task.
    TaskTags { board: i64, card: i64, task: i64 },
    /// The tags of a subtask.
    SubtaskTags { board: i64, card: i64, task: i64, subtask: i64 },
}

/// An entity whose deletion takes the counters of its subtree with it.
#[derive(Debug, Clone, Copy, PartialEq, Eq, Structural)]
pub enum Owner {
    Board { board: i64 },
    Card { board: i64, card: i64 },
    Task { board: i64, card: i64, task: i64 },
    Subtask { board: i64, card: i64, task: i64, subtask: i64 },
}

/// The scope `k` belongs to the subtree of `o`: it counts ids of `o`'s
/// children or of their descendants.
pub open spec fn within(k: ScopeKey, o: Owner) -> bool {
    match o {
        Owner::Board { board } => match k {
            ScopeKey::Cards { board: b } => b == board,
            ScopeKey::Tasks { board: b, .. } => b == board,
            ScopeKey::Subtasks { board: b, .. } => b == board,
            ScopeKey::TaskTags { board: b, .. } => b == board,
            ScopeKey::SubtaskTags { board: b, .. } => b == board,
        },
        Owner::Card { board, card } => match k {
            ScopeKey::Cards { .. } => false,
            ScopeKey::Tasks { board: b, card: c } => b == board && c == card,
            ScopeKey::Subtasks { board: b, card: c, .. } => b == board && c == card,
            ScopeKey::TaskTags { board: b, card: c, .. } => b == board && c == card,
            ScopeKey::SubtaskTags { board: b, card: c, .. } => b == board && c == card,
        },
        Owner::Task { board, card, task } => match k {
            ScopeKey::Subtasks { board: b, card: c, task: t } => b == board && c == card && t
                == task,
            ScopeKey::TaskTags { board: b, card: c, task: t } => b == board && c == card && t
                == task,
            ScopeKey::SubtaskTags { board: b, card: c, task: t, .. } => b == board && c == card
                && t == task,
            _ => false,
        },
        Owner::Subtask { board, card, task, subtask } => match k {
            ScopeKey::SubtaskTags { board: b, card: c, task: t, subtask: s } => b == board && c
                == card && t == task && s == subtask,
            _ => false,
        },
    }
}

impl ScopeKey {
    /// Whether this scope belongs to the subtree of `o`.
    pub fn is_within(&self, o: &Owner) -> (r: bool)
        ensures
            r == within(*self, *o),
    {
        match *o {
            Owner::Board { board } => match *self {
                ScopeKey::Cards { board: b } => b == board,
                ScopeKey::Tasks { board: b, .. } => b == board,
                ScopeKey::Subtasks { board: b, .. } => b == board,
                ScopeKey::TaskTags { board: b, .. } => b == board,
                ScopeKey::SubtaskTags { board: b, .. } => b == board,
            },
            Owner::Card { board, card } => match *self {
                ScopeKey::Cards { .. } => false,
                ScopeKey::Tasks { board: b, card: c } => b == board && c == card,
                ScopeKey::Subtasks { board: b, card: c, .. } => b == board && c == card,
                ScopeKey::TaskTags { board: b, card: c, .. } => b == board && c == card,
                ScopeKey::SubtaskTags { board: b, card: c, .. } => b == board && c == card,
            },
            Owner::Task { board, card, task } => match *self {
                ScopeKey::Subtasks { board: b, card: c, task: t } => b == board && c == card && t
                    == task,
                ScopeKey::TaskTags { board: b, card: c, task: t } => b == board && c == card && t
                    == task,
                ScopeKey::SubtaskTags { board: b, card: c, task: t, .. } => b == board && c
                    == card && t == task,
                _ => false,
            },
            Owner::Subtask { board, card, task, subtask } => match *self {
                ScopeKey::SubtaskTags { board: b, card: c, task: t, subtask: s } => b == board
                    && c == card && t == task && s == subtask,
                _ => false,
            },
        }
    }
}

/// The storage columns of a scope: its kind (0 to 4, in declaration order)
/// and its board, card, task and subtask ids, 0 where the kind has none.
pub open spec fn columns_of(k: ScopeKey) -> (u8, i64, i64, i64, i64) {
    match k {
        ScopeKey::Cards { board } => (0, board, 0, 0, 0),
        ScopeKey::Tasks { board, card } => (1, board, card, 0, 0),
        ScopeKey::Subtasks { board, card, task } => (2, board, card, task, 0),
        ScopeKey::TaskTags { board, card, task } => (3, board, card, task, 0),
        ScopeKey::SubtaskTags { board, card, task, subtask } => (4, board, card, task, subtask),
    }
}

impl ScopeKey {
    /// The storage columns of this scope.
    pub fn to_columns(&self) -> (r: (u8, i64, i64, i64, i64))
        ensures
            r == columns_of(*self),
    {
        match *self {
            ScopeKey::Cards { board } => (0, board, 0, 0, 0),
            ScopeKey::Tasks { board, card } => (1, board, card, 0, 0),
            ScopeKey::Subtasks { board, card, task } => (2, board, card, task, 0),
            ScopeKey::TaskTags { board, card, task } => (3, board, card, task, 0),
            ScopeKey::SubtaskTags { board, card, task, subtask } => (4, board, card, task, subtask),
        }
    }

    /// The scope stored in these columns; `None` for an unknown kind or for a
    /// nonzero id where the kind has none.
    pub fn from_columns(kind: u8, board: i64, card: i64, task: i64, subtask: i64) -> (r: Option<
        ScopeKey,
    >)
        ensures
            match r {
                Some(k) => columns_of(k) == (kind, board, card, task, subtask),
                None => forall|k: ScopeKey| columns_of(k) != (kind, board, card, task, subtask),
            },
    {
        if kind == 0 && card == 0 && task == 0 && subtask == 0 {
            Some(ScopeKey::Cards { board })
        } else if kind == 1 && task == 0 && subtask == 0 {
            Some(ScopeKey::Tasks { board, card })
        } else if kind == 2 && subtask == 0 {
            Some(ScopeKey::Subtasks { board, card, task })
        } else if kind == 3 && subtask == 0 {
            Some(ScopeKey::TaskTags { board, card, task })
        } else if kind == 4 {
            Some(ScopeKey::SubtaskTags { board, card, task, subtask })
        } else {
            None
        }
    }
}

/// Storage columns name each scope once: reading back the columns of a scope
/// gives that scope.
pub proof fn lemma_columns_round_trip(k: ScopeKey, j: ScopeKey)
    ensures
        columns_of(k) == columns_of(j) ==> k == j,
{
}

/// The id that a scope issues next: its stored counter, or 1 when it has none.
pub open spec fn current(m: Map<ScopeKey, i64>, k: ScopeKey) -> i64 {
    if m.contains_key(k) {
        m[k]
    } else {
        1
    }
}

/// The counters once every scope in the subtree of `o` is gone.
pub open spec fn without_subtree(m: Map<ScopeKey, i64>, o: Owner) -> Map<ScopeKey, i64> {
    m.restrict(m.dom().filter(|k: ScopeKey| !within(k, o)))
}

/// A step on the counters: issuing an id in a scope, or dropping a subtree.
#[derive(Debug, Clone, Copy, PartialEq, Eq, Structural)]
pub enum CounterOp {
    Next(ScopeKey),
    Reset(Owner),
}

/// The counters after one step, as `ScopeCounters::next` and
/// `ScopeCounters::reset_subtree` perform it.
pub open spec fn step(m: Map<ScopeKey, i64>, op: CounterOp) -> Map<ScopeKey, i64> {
    match op {
        CounterOp::Next(k) => if current(m, k) == i64::MAX {
            m
        } else {
            m.insert(k, (current(m, k) + 1) as i64)
        },
        CounterOp::Reset(o) => without_subtree(m, o),
    }
}

/// The ids issued in scope `k` along `ops`, in order.
pub open spec fn issued(m: Map<ScopeKey, i64>, ops: Seq<CounterOp>, k: ScopeKey) -> Seq<i64>
    decreases ops.len(),
{
    if ops.len() == 0 {
        Seq::empty()
    } else {
        let head = if ops[0] == CounterOp::Next(k) && current(m, k) < i64::MAX {
            seq![current(m, k)]
        } else {
            Seq::empty()
        };
        head + issued(step(m, ops[0]), ops.drop_first(), k)
    }
}

/// No step of `ops` drops the counter of scope `k`.
pub open spec fn keeps_scope(ops: Seq<CounterOp>, k: ScopeKey) -> bool {
    forall|i: int|
        0 <= i < ops.len() ==> match #[trigger] ops[i] {
            CounterOp::Reset(o) => !within(k, o),
            CounterOp::Next(_) => true,
        }
}

proof fn lemma_issued_bounds(m: Map<ScopeKey, i64>, ops: Seq<CounterOp>, k: ScopeKey)
    requires
        keeps_scope(ops, k),
    ensures
        forall|i: int|
            0 <= i < issued(m, ops, k).len() ==> current(m, k) <= #[trigger] issued(m, ops, k)[i],
        forall|i: int, j: int|
            0 <= i < j < issued(m, ops, k).len() ==> #[trigger] issued(m, ops, k)[i]
                < #[trigger] issued(m, ops, k)[j],
    decreases ops.len(),
{
    if ops.len() > 0 {
        let m2 = step(m, ops[0]);
        let rest = ops.drop_first();
        assert forall|i: int| 0 <= i < rest.len() implies match #[trigger] rest[i] {
            CounterOp::Reset(o) => !within(k, o),
            CounterOp::Next(_) => true,
        } by {
            assert(rest[i] == ops[i + 1]);
        }
        lemma_issued_bounds(m2, rest, k);
        assert(ops[0] == ops[0]);
        match ops[0] {
            CounterOp::Reset(o) => {
                assert(!within(k, o));
                assert(m2.contains_key(k) == m.contains_key(k));
            },
            CounterOp::Next(_) => {},
        }
        assert(current(m, k) <= current(m2, k));
        let head = if ops[0] == CounterOp::Next(k) && current(m, k) < i64::MAX {
            seq![current(m, k)]
        } else {
            Seq::empty()
        };
        let r = issued(m2, rest, k);
        let all = issued(m, ops, k);
        assert(all == head + r);
        if head.len() == 1 {
            assert(current(m2, k) == current(m, k) + 1);
        }
        assert forall|i: int| 0 <= i < all.len() implies current(m, k) <= #[trigger] all[i] by {
            if i >= head.len() {
                assert(all[i] == r[i - head.len()]);
            }
        }
        assert forall|i: int, j: int| 0 <= i < j < all.len() implies #[trigger] all[i]
            < #[trigger] all[j] by {
            assert(all[j] == r[j - head.len()]);
            if i >= head.len() {
                assert(all[i] == r[i - head.len()]);
            }
        }
    }
}

/// Ids issued in one scope strictly increase, and so never repeat, as long as
/// no step drops that scope's counter; deleting entities inside the scope
/// drops only their own subtrees.
pub proof fn lemma_ids_increase(m: Map<ScopeKey, i64>, ops: Seq<CounterOp>, k: ScopeKey)
    requires
        keeps_scope(ops, k),
    ensures
        forall|i: int, j: int|
            0 <= i < j < issued(m, ops, k).len() ==> #[trigger] issued(m, ops, k)[i]
                < #[trigger] issued(m, ops, k)[j],
{
    lemma_issued_bounds(m, ops, k);
}

/// The counter rows of some scopes: at most one row per scope.
pub struct ScopeCounters {
    rows: Vec<(ScopeKey, i64)>,
    model: Ghost<Map<ScopeKey, i64>>,
}

impl View for ScopeCounters {
    type V = Map<ScopeKey, i64>;

    closed spec fn view(&self) -> Map<ScopeKey, i64> {
        self.model@
    }
}

impl ScopeCounters {
    /// Rows and model agree, and no scope has two rows.
    pub closed spec fn wf(&self) -> bool {
        &&& forall|i: int, j: int|
            0 <= i < self.rows@.len() && 0 <= j < self.rows@.len() && i != j
                ==> #[trigger] self.rows@[i].0 != #[trigger] self.rows@[j].0
        &&& forall|i: int|
            0 <= i < self.rows@.len() ==> #[trigger] self.model@.contains_key(self.rows@[i].0)
                && self.model@[self.rows@[i].0] == self.rows@[i].1
        &&& forall|k: ScopeKey|
            #[trigger] self.model@.contains_key(k) ==> exists|i: int|
                0 <= i < self.rows@.len() && #[trigger] self.rows@[i].0 == k
    }

    /// No counters at all.
    pub fn new() -> (r: Self)
        ensures
            r.wf(),
            r@ == Map::<ScopeKey, i64>::empty(),
    {
        ScopeCounters { rows: Vec::new(), model: Ghost(Map::empty()) }
    }

    fn find(&self, k: &ScopeKey) -> (r: Option<usize>)
        requires
            self.wf(),
        ensures
            match r {
                Some(i) => i < self.rows@.len() && self.rows@[i as int].0 == *k,
                None => !self@.contains_key(*k),
            },
    {
        let mut i: usize = 0;
        while i < self.rows.len()
            invariant
                self.wf(),
                0 <= i <= self.rows@.len(),
                forall|j: int| 0 <= j < i ==> #[trigger] self.rows@[j].0 != *k,
            decreases self.rows@.len() - i,
        {
            if self.rows[i].0 == *k {
                return Some(i);
            }
            i += 1;
        }
        None
    }

    /// The stored counter of scope `k`, if it has one.
    pub fn get(&self, k: &ScopeKey) -> (r: Option<i64>)
        requires
            self.wf(),
        ensures
            r == (if self@.contains_key(*k) {
                Some(self@[*k])
            } else {
                None::<i64>
            }),
    {
        match self.find(k) {
            Some(i) => Some(self.rows[i].1),
            None => None,
        }
    }

    /// Stores `v` as the counter of scope `k`.
    pub fn set(&mut self, k: ScopeKey, v: i64)
        requires
            old(self).wf(),
        ensures
            final(self).wf(),
            final(self)@ == old(self)@.insert(k, v),
    {
        let ghost old_rows = self.rows@;
        let ghost mut idx: int = 0;
        match self.find(&k) {
            Some(i) => {
                self.rows.set(i, (k, v));
                proof {
                    idx = i as int;
                }
            },
            None => {
                self.rows.push((k, v));
                proof {
                    idx = self.rows@.len() - 1;
                }
            },
        }
        self.model = Ghost(self.model@.insert(k, v));
        proof {
            assert(self.rows@[idx].0 == k);
            assert forall|k2: ScopeKey| #[trigger] self.model@.contains_key(k2) implies exists|
                i: int,
            | 0 <= i < self.rows@.len() && #[trigger] self.rows@[i].0 == k2 by {
                if k2 != k {
                    let j = choose|j: int| 0 <= j < old_rows.len() && #[trigger] old_rows[j].0 == k2;
                    assert(self.rows@[j].0 == k2);
                }
            }
        }
    }

    /// Issues the next id of scope `k` and advances its counter; `None` when the
    /// counter cannot advance.
    pub fn next(&mut self, k: ScopeKey) -> (r: Option<i64>)
        requires
            old(self).wf(),
        ensures
            final(self).wf(),
            match r {
                Some(id) => {
                    &&& id == current(old(self)@, k)
                    &&& id < i64::MAX
                    &&& final(self)@ == old(self)@.insert(k, (id + 1) as i64)
                },
                None => current(old(self)@, k) == i64::MAX && final(self)@ == old(self)@,
            },
            final(self)@ == step(old(self)@, CounterOp::Next(k)),
    {
        let id = match self.get(&k) {
            Some(v) => v,
            None => 1,
        };
        if id == i64::MAX {
            return None;
        }
        self.set(k, id + 1);
        Some(id)
    }

    /// Drops the counter of every scope in the subtree of `o`.
    pub fn reset_subtree(&mut self, o: &Owner)
        requires
            old(self).wf(),
        ensures
            final(self).wf(),
            final(self)@ == without_subtree(old(self)@, *o),
            final(self)@ == step(old(self)@, CounterOp::Reset(*o)),
    {
        let mut kept = ScopeCounters::new();
        let ghost m = self@;
        let mut i: usize = 0;
        while i < self.rows.len()
            invariant
                self.wf(),
                kept.wf(),
                m == self@,
                0 <= i <= self.rows@.len(),
                forall|k: ScopeKey| #[trigger]
                    kept@.contains_key(k) ==> m.contains_key(k) && kept@[k] == m[k] && !within(
                        k,
                        *o,
                    ),
                forall|j: int|
                    0 <= j < i && !within(#[trigger] self.rows@[j].0, *o) ==> kept@.contains_key(
                        self.rows@[j].0,
                    ),
            decreases self.rows@.len() - i,
        {
            let row = self.rows[i];
            if !row.0.is_within(o) {
                kept.set(row.0, row.1);
            }
            i += 1;
        }
        proof {
            assert forall|k: ScopeKey| #[trigger] m.contains_key(k) && !within(k, *o) implies kept@.contains_key(k) by {
                let j = choose|j: int| 0 <= j < self.rows@.len() && #[trigger] self.rows@[j].0 == k;
            }
            assert(kept@ =~= without_subtree(m, *o));
        }
        *self = kept;
    }

    /// The rows, in storage order.
    pub closed spec fn row_seq(&self) -> Seq<(ScopeKey, i64)> {
        self.rows@
    }

    /// Each row holds a stored counter, and each stored counter has a row.
    pub proof fn lemma_rows(&self)
        requires
            self.wf(),
        ensures
            forall|i: int|
                0 <= i < self.row_seq().len() ==> #[trigger] self@.contains_key(
                    self.row_seq()[i].0,
                ) && self@[self.row_seq()[i].0] == self.row_seq()[i].1,
            forall|k: ScopeKey| #[trigger]
                self@.contains_key(k) ==> exists|i: int|
                    0 <= i < self.row_seq().len() && #[trigger] self.row_seq()[i].0 == k,
    {
        assert(self@ == self.model@);
        assert(self.row_seq() == self.rows@);
        assert forall|i: int| 0 <= i < self.row_seq().len() implies #[trigger] self@.contains_key(
            self.row_seq()[i].0,
        ) && self@[self.row_seq()[i].0] == self.row_seq()[i].1 by {
            assert(self.model@.contains_key(self.rows@[i].0));
        }
    }

    /// The rows, one per scope.
    pub fn rows(&self) -> (r: &Vec<(ScopeKey, i64)>)
        ensures
            r@ == self.row_seq(),
    {
        &self.rows
    }
}

} // verus!
