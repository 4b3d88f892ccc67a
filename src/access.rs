//! Who may do what on a board, and which executors a board admits.

use vstd::prelude::*;
use crate::model::Board;

verus! {

/// Whether `v` holds `x`.
pub fn contains_id(v: &Vec<i64>, x: i64) -> (r: bool)
    ensures
        r == v@.contains(x),
{
    let mut i: usize = 0;
    while i < v.len()
        invariant
            0 <= i <= v@.len(),
            forall|j: int| 0 <= j < i ==> v@[j] != x,
        decreases v@.len() - i,
    {
        if v[i] == x {
            assert(v@[i as int] == x);
            return true;
        }
        i += 1;
    }
    false
}

/// The executors that the board's members admit, in their order.
pub open spec fn admitted(executors: Seq<i64>, shared_with: Seq<i64>) -> Seq<i64> {
    executors.filter(|e: i64| shared_with.contains(e))
}

/// Keeps the executors who are members of the board, in their order.
pub fn filter_executors(executors: &Vec<i64>, shared_with: &Vec<i64>) -> (r: Vec<i64>)
    ensures
        r@ == admitted(executors@, shared_with@),
{
    let mut r: Vec<i64> = Vec::new();
    let mut i: usize = 0;
    while i < executors.len()
        invariant
            0 <= i <= executors@.len(),
            r@ == admitted(executors@.take(i as int), shared_with@),
        decreases executors@.len() - i,
    {
        let e = executors[i];
        proof {
            assert(executors@.take(i as int + 1) == executors@.take(i as int).push(e));
            executors@.take(i as int).lemma_filter_push(e, |e: i64| shared_with@.contains(e));
        }
        if contains_id(shared_with, e) {
            r.push(e);
        }
        i += 1;
    }
    assert(executors@.take(executors@.len() as int) == executors@);
    r
}

/// The user may change the board itself: its header and background, or delete it.
pub open spec fn may_administer(user_id: i64, board: Board) -> bool {
    user_id == board.author
}

/// The user may read the board and change its cards, tasks, subtasks and tags.
pub open spec fn may_edit(user_id: i64, board: Board) -> bool {
    board.shared_with@.contains(user_id)
}

/// Only the board's author may change its header and background, or delete it.
pub fn authorize_board_level(user_id: i64, board: &Board) -> (r: bool)
    ensures
        r == may_administer(user_id, *board),
{
    user_id == board.author
}

/// Members of the board may read it and change its cards, tasks, subtasks and tags.
pub fn authorize_shared(user_id: i64, board: &Board) -> (r: bool)
    ensures
        r == may_edit(user_id, *board),
{
    contains_id(&board.shared_with, user_id)
}

/// Shared access as the board records it: the user is among the board's
/// members, the author included.
pub fn in_shared_with(board_members: &Vec<i64>, user_id: i64) -> (r: bool)
    ensures
        r == board_members@.contains(user_id),
{
    contains_id(board_members, user_id)
}

/// Board quota: a user without a paid plan may hold one board at most.
pub fn may_create_board(billed: bool, boards_held: usize) -> (r: bool)
    ensures
        r == (billed || boards_held == 0),
{
    billed || boards_held == 0
}

/// The authorization boundary: a member who is not the author may change the
/// board's cards, tasks, subtasks and tags, but not the board's own header or
/// background.
pub proof fn lemma_authorization_boundary(board: Board, user_id: i64)
    requires
        board.shared_with@.contains(user_id),
        user_id != board.author,
    ensures
        may_edit(user_id, board),
        !may_administer(user_id, board),
{
}

} // verus!
