use taskboard::access::{filter_executors, in_shared_with, may_create_board};
use taskboard::model::{
    Board, BoardBackground, BoardHeader, Card, Cards, NotFound, Subtask, Tag, Task, Timelines,
};
use taskboard::patch::{Patch, PatchValue};
use taskboard::repo::{
    apply_patch_on_board, apply_patch_on_card, apply_patch_on_subtask, apply_patch_on_task,
    board_short, create_board, create_tag_at_subtask, create_tag_at_task, delete_tag_at_subtask,
    delete_tag_at_task, get_subtask_tags, get_task_tags, insert_card, insert_subtask, insert_task,
    patch_tag_at_subtask, patch_tag_at_task, remove_board, remove_card, remove_subtask,
    remove_task, set_timelines_on_subtask, set_timelines_on_task, unshare_board, CoreError,
};
use taskboard::scope::{Owner, ScopeCounters, ScopeKey};

const AUTHOR: i64 = 1;
const MEMBER: i64 = 3;
const STRANGER: i64 = 9;
const BOARD: i64 = 7;

fn timelines() -> Timelines {
    Timelines { preferred_time: 100, max_time: 200, expected_time: 30 }
}

fn tag(id: i64, title: &str) -> Tag {
    Tag {
        id,
        title: title.to_string(),
        text_color: "#000000".to_string(),
        background_color: "#ffffff".to_string(),
    }
}

fn subtask(title: &str, executors: Vec<i64>, tags: Vec<Tag>) -> Subtask {
    Subtask {
        id: 0,
        author: 0,
        title: title.to_string(),
        executors,
        completed: false,
        tags,
        timelines: timelines(),
    }
}

fn task(title: &str, executors: Vec<i64>, subtasks: Vec<Subtask>, tags: Vec<Tag>) -> Task {
    Task {
        id: 0,
        author: 0,
        title: title.to_string(),
        executors,
        completed: false,
        subtasks,
        notes: String::new(),
        tags,
        timelines: timelines(),
    }
}

fn card(title: &str, tasks: Vec<Task>) -> Card {
    Card {
        id: 0,
        author: 0,
        title: title.to_string(),
        tasks,
        header_text_color: "#111111".to_string(),
        header_background_color: "#222222".to_string(),
        background_color: "#333333".to_string(),
    }
}

fn board() -> Board {
    Board {
        id: BOARD,
        header: BoardHeader {
            title: "Plans".to_string(),
            header_text_color: "#010101".to_string(),
            header_background_color: "#020202".to_string(),
        },
        author: AUTHOR,
        shared_with: vec![AUTHOR, MEMBER],
        cards: vec![],
        background: BoardBackground::Color { color: "#030303".to_string() },
    }
}

fn empty_patch() -> Patch {
    Patch {
        title: None,
        background: None,
        background_color: None,
        header_text_color: None,
        header_background_color: None,
        text_color: None,
        executors: None,
        completed: None,
        notes: None,
    }
}

fn text(s: &str) -> Option<PatchValue> {
    Some(PatchValue::Text(s.to_string()))
}

/// A board with one card (id 1) holding one task (id 1) holding one subtask (id 1).
fn populated() -> (Board, ScopeCounters) {
    let mut b = board();
    let mut counters = ScopeCounters::new();
    let st = subtask("sub", vec![AUTHOR], vec![tag(40, "s-tag")]);
    let t = task("task", vec![AUTHOR, MEMBER], vec![st], vec![tag(50, "t-tag")]);
    let id = insert_card(&mut b, &mut counters, AUTHOR, card("card", vec![t])).unwrap();
    assert_eq!(id, 1);
    (b, counters)
}

#[test]
fn insert_card_numbers_everything_from_one() {
    let mut b = board();
    let mut counters = ScopeCounters::new();
    let st1 = subtask("a", vec![2, MEMBER], vec![tag(17, "x"), tag(17, "y")]);
    let st2 = subtask("b", vec![], vec![]);
    let t1 = task("t1", vec![AUTHOR, 2, MEMBER], vec![st1, st2], vec![tag(99, "z")]);
    let t2 = task("t2", vec![], vec![], vec![]);
    let mut c = card("c", vec![t1, t2]);
    c.id = 55;
    c.author = STRANGER;
    let id = insert_card(&mut b, &mut counters, MEMBER, c).unwrap();
    assert_eq!(id, 1);
    let c = &b.cards[0];
    assert_eq!(c.id, 1);
    assert_eq!(c.author, MEMBER);
    assert_eq!(c.tasks[0].id, 1);
    assert_eq!(c.tasks[1].id, 2);
    assert_eq!(c.tasks[0].author, MEMBER);
    assert_eq!(c.tasks[0].executors, vec![AUTHOR, MEMBER]);
    assert_eq!(c.tasks[0].tags[0].id, 1);
    assert_eq!(c.tasks[0].subtasks[0].id, 1);
    assert_eq!(c.tasks[0].subtasks[1].id, 2);
    assert_eq!(c.tasks[0].subtasks[0].author, MEMBER);
    assert_eq!(c.tasks[0].subtasks[0].executors, vec![MEMBER]);
    assert_eq!(c.tasks[0].subtasks[0].tags[0].id, 1);
    assert_eq!(c.tasks[0].subtasks[0].tags[1].id, 2);
    assert_eq!(counters.get(&ScopeKey::Cards { board: BOARD }), Some(2));
    assert_eq!(counters.get(&ScopeKey::Tasks { board: BOARD, card: 1 }), Some(3));
    assert_eq!(counters.get(&ScopeKey::Subtasks { board: BOARD, card: 1, task: 1 }), Some(3));
    assert_eq!(counters.get(&ScopeKey::Subtasks { board: BOARD, card: 1, task: 2 }), Some(1));
    assert_eq!(counters.get(&ScopeKey::TaskTags { board: BOARD, card: 1, task: 1 }), Some(2));
    assert_eq!(
        counters.get(&ScopeKey::SubtaskTags { board: BOARD, card: 1, task: 1, subtask: 1 }),
        Some(3)
    );
    assert_eq!(
        counters.get(&ScopeKey::SubtaskTags { board: BOARD, card: 1, task: 1, subtask: 2 }),
        Some(1)
    );
    let second = insert_card(&mut b, &mut counters, AUTHOR, card("d", vec![])).unwrap();
    assert_eq!(second, 2);
    assert_eq!(b.cards.len(), 2);
}

#[test]
fn insert_card_rejects_bad_colors_and_leaves_state() {
    let mut b = board();
    let mut counters = ScopeCounters::new();
    let mut c = card("c", vec![]);
    c.background_color = "#12345".to_string();
    assert_eq!(insert_card(&mut b, &mut counters, AUTHOR, c), Err(CoreError::InvalidInput));
    let mut bad_tag = tag(1, "t");
    bad_tag.text_color = "1234567".to_string();
    let c = card("c", vec![task("t", vec![], vec![], vec![bad_tag])]);
    assert_eq!(insert_card(&mut b, &mut counters, AUTHOR, c), Err(CoreError::InvalidInput));
    assert!(b.cards.is_empty());
    assert_eq!(counters.get(&ScopeKey::Cards { board: BOARD }), None);
}

#[test]
fn insert_card_when_scope_exhausted() {
    let mut b = board();
    let mut counters = ScopeCounters::new();
    counters.set(ScopeKey::Cards { board: BOARD }, i64::MAX);
    assert_eq!(
        insert_card(&mut b, &mut counters, AUTHOR, card("c", vec![])),
        Err(CoreError::IdsExhausted)
    );
    assert!(b.cards.is_empty());
}

#[test]
fn insert_task_filters_executors_keeping_order() {
    let (mut b, mut counters) = populated();
    b.shared_with = vec![10, 30];
    b.author = 10;
    let t = task("new", vec![10, 20, 30], vec![], vec![]);
    let id = insert_task(&mut b, &mut counters, 10, 1, t).unwrap();
    assert_eq!(id, 2);
    assert_eq!(b.cards[0].tasks[1].executors, vec![10, 30]);
    assert_eq!(b.cards[0].tasks[1].author, 10);
    assert_eq!(filter_executors(&vec![5, 4, 3, 2, 1], &vec![1, 3, 5]), vec![5, 3, 1]);
}

#[test]
fn insert_task_errors() {
    let (mut b, mut counters) = populated();
    let t = || task("new", vec![], vec![], vec![]);
    assert_eq!(insert_task(&mut b, &mut counters, STRANGER, 1, t()), Err(CoreError::Unauthorized));
    assert_eq!(
        insert_task(&mut b, &mut counters, MEMBER, 8, t()),
        Err(CoreError::NotFound(NotFound::Card))
    );
    assert_eq!(b.cards[0].tasks.len(), 1);
}

#[test]
fn insert_subtask_and_its_tag_counter() {
    let (mut b, mut counters) = populated();
    let st = subtask("s2", vec![MEMBER, STRANGER], vec![tag(5, "a"), tag(6, "b")]);
    let id = insert_subtask(&mut b, &mut counters, MEMBER, 1, 1, st).unwrap();
    assert_eq!(id, 2);
    let s = &b.cards[0].tasks[0].subtasks[1];
    assert_eq!(s.executors, vec![MEMBER]);
    assert_eq!(s.tags[1].id, 2);
    assert_eq!(
        counters.get(&ScopeKey::SubtaskTags { board: BOARD, card: 1, task: 1, subtask: 2 }),
        Some(3)
    );
    assert_eq!(
        insert_subtask(&mut b, &mut counters, MEMBER, 1, 4, subtask("x", vec![], vec![])),
        Err(CoreError::NotFound(NotFound::Task))
    );
}

#[test]
fn tag_ids_follow_their_own_scope() {
    let (mut b, mut counters) = populated();
    let a = create_tag_at_task(&mut b, &mut counters, MEMBER, 1, 1, &tag(0, "a")).unwrap();
    let c = create_tag_at_task(&mut b, &mut counters, MEMBER, 1, 1, &tag(0, "c")).unwrap();
    assert_eq!((a, c), (2, 3));
    let s = create_tag_at_subtask(&mut b, &mut counters, MEMBER, 1, 1, 1, &tag(0, "s")).unwrap();
    assert_eq!(s, 2);
    let tags = get_task_tags(&b, MEMBER, 1, 1).unwrap();
    assert_eq!(tags.len(), 3);
    assert_eq!(tags[2].title, "c");
    let stags = get_subtask_tags(&b, MEMBER, 1, 1, 1).unwrap();
    assert_eq!(stags[1].id, 2);
    let mut bad = tag(0, "bad");
    bad.background_color = "#abc".to_string();
    assert_eq!(
        create_tag_at_task(&mut b, &mut counters, MEMBER, 1, 1, &bad),
        Err(CoreError::InvalidInput)
    );
    assert_eq!(
        create_tag_at_subtask(&mut b, &mut counters, MEMBER, 1, 1, 9, &tag(0, "z")),
        Err(CoreError::NotFound(NotFound::Subtask))
    );
}

#[test]
fn ids_keep_increasing_after_deletions() {
    let (mut b, mut counters) = populated();
    let t2 = insert_task(&mut b, &mut counters, AUTHOR, 1, task("b", vec![], vec![], vec![])).unwrap();
    remove_task(&mut b, &mut counters, AUTHOR, 1, t2).unwrap();
    let t3 = insert_task(&mut b, &mut counters, AUTHOR, 1, task("c", vec![], vec![], vec![])).unwrap();
    remove_task(&mut b, &mut counters, AUTHOR, 1, 1).unwrap();
    let t4 = insert_task(&mut b, &mut counters, AUTHOR, 1, task("d", vec![], vec![], vec![])).unwrap();
    assert_eq!((t2, t3, t4), (2, 3, 4));
}

#[test]
fn deleting_a_card_cascades() {
    let (mut b, mut counters) = populated();
    insert_card(&mut b, &mut counters, AUTHOR, card("other", vec![])).unwrap();
    remove_card(&mut b, &mut counters, MEMBER, 1).unwrap();
    assert_eq!(b.cards.len(), 1);
    assert_eq!(b.cards[0].id, 2);
    assert_eq!(counters.get(&ScopeKey::Tasks { board: BOARD, card: 1 }), None);
    assert_eq!(counters.get(&ScopeKey::Subtasks { board: BOARD, card: 1, task: 1 }), None);
    assert_eq!(counters.get(&ScopeKey::TaskTags { board: BOARD, card: 1, task: 1 }), None);
    assert_eq!(
        counters.get(&ScopeKey::SubtaskTags { board: BOARD, card: 1, task: 1, subtask: 1 }),
        None
    );
    assert_eq!(counters.get(&ScopeKey::Tasks { board: BOARD, card: 2 }), Some(1));
    assert_eq!(counters.get(&ScopeKey::Cards { board: BOARD }), Some(3));
    assert!(matches!(b.cards.get_task(&1, &1), Err(NotFound::Card)));
    assert!(matches!(b.cards.get_subtask(&1, &1, &1), Err(NotFound::Card)));
    assert_eq!(remove_card(&mut b, &mut counters, MEMBER, 1), Err(CoreError::NotFound(NotFound::Card)));
}

#[test]
fn deleting_subtask_and_tags() {
    let (mut b, mut counters) = populated();
    delete_tag_at_task(&mut b, MEMBER, 1, 1, 1).unwrap();
    assert!(b.cards[0].tasks[0].tags.is_empty());
    assert_eq!(
        delete_tag_at_task(&mut b, MEMBER, 1, 1, 1),
        Err(CoreError::NotFound(NotFound::Tag))
    );
    delete_tag_at_subtask(&mut b, MEMBER, 1, 1, 1, 1).unwrap();
    assert!(b.cards[0].tasks[0].subtasks[0].tags.is_empty());
    remove_subtask(&mut b, &mut counters, MEMBER, 1, 1, 1).unwrap();
    assert!(b.cards[0].tasks[0].subtasks.is_empty());
    assert_eq!(
        counters.get(&ScopeKey::SubtaskTags { board: BOARD, card: 1, task: 1, subtask: 1 }),
        None
    );
    assert_eq!(
        remove_subtask(&mut b, &mut counters, MEMBER, 1, 1, 1),
        Err(CoreError::NotFound(NotFound::Subtask))
    );
    assert_eq!(
        remove_task(&mut b, &mut counters, STRANGER, 1, 1),
        Err(CoreError::Unauthorized)
    );
}

#[test]
fn patch_with_one_bad_field_changes_nothing() {
    let (mut b, _) = populated();
    let mut p = empty_patch();
    p.title = text("renamed");
    p.background_color = Some(PatchValue::Flag(true));
    assert_eq!(apply_patch_on_card(&mut b, MEMBER, 1, &p), Err(CoreError::InvalidInput));
    assert_eq!(b.cards[0].title, "card");
    assert_eq!(b.cards[0].background_color, "#333333");
    p.background_color = text("#abcdef");
    assert_eq!(apply_patch_on_card(&mut b, MEMBER, 1, &p), Ok(true));
    assert_eq!(b.cards[0].title, "renamed");
    assert_eq!(b.cards[0].background_color, "#abcdef");
    assert_eq!(b.cards[0].header_text_color, "#111111");
}

#[test]
fn patch_without_known_fields_is_a_no_op() {
    let (mut b, _) = populated();
    let mut p = empty_patch();
    p.notes = text("card has no notes");
    assert_eq!(apply_patch_on_card(&mut b, MEMBER, 1, &p), Ok(false));
    assert_eq!(b.cards[0].title, "card");
    assert_eq!(
        apply_patch_on_card(&mut b, MEMBER, 4, &p),
        Err(CoreError::NotFound(NotFound::Card))
    );
}

#[test]
fn patch_task_and_subtask() {
    let (mut b, _) = populated();
    let mut p = empty_patch();
    p.title = text("t");
    p.executors = Some(PatchValue::Ids(vec![MEMBER, STRANGER, AUTHOR]));
    p.completed = Some(PatchValue::Flag(true));
    p.notes = text("n");
    assert_eq!(apply_patch_on_task(&mut b, MEMBER, 1, 1, &p), Ok(true));
    let t = &b.cards[0].tasks[0];
    assert_eq!(t.title, "t");
    assert_eq!(t.executors, vec![MEMBER, AUTHOR]);
    assert!(t.completed);
    assert_eq!(t.notes, "n");
    assert_eq!(apply_patch_on_subtask(&mut b, MEMBER, 1, 1, 1, &p), Ok(true));
    let s = &b.cards[0].tasks[0].subtasks[0];
    assert_eq!(s.title, "t");
    assert_eq!(s.executors, vec![MEMBER, AUTHOR]);
    p.completed = Some(PatchValue::Text("yes".to_string()));
    assert_eq!(apply_patch_on_task(&mut b, MEMBER, 1, 1, &p), Err(CoreError::InvalidInput));
    assert_eq!(
        apply_patch_on_subtask(&mut b, MEMBER, 1, 2, 1, &p),
        Err(CoreError::NotFound(NotFound::Task))
    );
}

#[test]
fn patch_tags() {
    let (mut b, _) = populated();
    let mut p = empty_patch();
    p.title = text("new");
    p.text_color = text("#999999");
    patch_tag_at_task(&mut b, MEMBER, 1, 1, 1, &p).unwrap();
    assert_eq!(b.cards[0].tasks[0].tags[0].title, "new");
    assert_eq!(b.cards[0].tasks[0].tags[0].text_color, "#999999");
    assert_eq!(
        patch_tag_at_task(&mut b, MEMBER, 1, 1, 5, &p),
        Err(CoreError::NotFound(NotFound::Tag))
    );
    p.text_color = text("999999");
    assert_eq!(patch_tag_at_subtask(&mut b, MEMBER, 1, 1, 1, 1, &p), Err(CoreError::InvalidInput));
    assert_eq!(b.cards[0].tasks[0].subtasks[0].tags[0].title, "s-tag");
}

#[test]
fn member_cannot_touch_the_board_itself() {
    let (mut b, mut counters) = populated();
    let mut p = empty_patch();
    p.title = text("Mine now");
    p.background = Some(PatchValue::Background(BoardBackground::URL { url: "u".to_string() }));
    assert_eq!(apply_patch_on_board(&mut b, MEMBER, &p), Err(CoreError::Unauthorized));
    assert_eq!(b.header.title, "Plans");
    assert!(matches!(&b.background, BoardBackground::Color { color } if color == "#030303"));
    let mut cp = empty_patch();
    cp.title = text("member edit");
    assert_eq!(apply_patch_on_card(&mut b, MEMBER, 1, &cp), Ok(true));
    assert!(insert_card(&mut b, &mut counters, MEMBER, card("m", vec![])).is_ok());
    assert_eq!(remove_board(&b, &mut counters, MEMBER), Err(CoreError::Unauthorized));
    assert_eq!(apply_patch_on_card(&mut b, STRANGER, 1, &cp), Err(CoreError::Unauthorized));
}

#[test]
fn author_patches_the_board() {
    let mut b = board();
    let mut p = empty_patch();
    p.title = text("");
    assert_eq!(apply_patch_on_board(&mut b, AUTHOR, &p), Err(CoreError::InvalidInput));
    p.title = text("New");
    p.header_text_color = text("#0a0b0c");
    p.background = Some(PatchValue::Background(BoardBackground::Color { color: "#bad".to_string() }));
    assert_eq!(apply_patch_on_board(&mut b, AUTHOR, &p), Err(CoreError::InvalidInput));
    assert_eq!(b.header.title, "Plans");
    p.background = Some(PatchValue::Background(BoardBackground::URL { url: "http://x".to_string() }));
    assert_eq!(apply_patch_on_board(&mut b, AUTHOR, &p), Ok(true));
    assert_eq!(b.header.title, "New");
    assert_eq!(b.header.header_text_color, "#0a0b0c");
    assert_eq!(b.header.header_background_color, "#020202");
    assert!(matches!(&b.background, BoardBackground::URL { url } if url == "http://x"));
}

#[test]
fn timelines_are_set() {
    let (mut b, _) = populated();
    let tl = Timelines { preferred_time: 5, max_time: 6, expected_time: 7 };
    set_timelines_on_task(&mut b, MEMBER, 1, 1, tl).unwrap();
    assert_eq!(b.cards[0].tasks[0].timelines, tl);
    set_timelines_on_subtask(&mut b, MEMBER, 1, 1, 1, tl).unwrap();
    assert_eq!(b.cards[0].tasks[0].subtasks[0].timelines, tl);
    assert_eq!(
        set_timelines_on_subtask(&mut b, MEMBER, 3, 1, 1, tl),
        Err(CoreError::NotFound(NotFound::Card))
    );
}

#[test]
fn board_creation_and_quota() {
    let mut mine: Vec<i64> = vec![];
    let created = create_board(4, false, &mut mine, 12, &board()).unwrap();
    assert_eq!(created.id, 12);
    assert_eq!(created.author, 4);
    assert_eq!(created.shared_with, vec![4]);
    assert!(created.cards.is_empty());
    assert_eq!(created.header.title, "Plans");
    assert_eq!(mine, vec![12]);
    assert_eq!(create_board(4, false, &mut mine, 13, &board()).err(), Some(CoreError::QuotaExceeded));
    let mut nameless = board();
    nameless.header.title = String::new();
    assert_eq!(create_board(4, true, &mut mine, 13, &nameless).err(), Some(CoreError::InvalidInput));
    assert!(create_board(4, true, &mut mine, 13, &board()).is_ok());
    assert_eq!(mine, vec![12, 13]);
    assert!(may_create_board(false, 0));
    assert!(!may_create_board(false, 1));
    assert!(may_create_board(true, 5));
}

#[test]
fn board_removal() {
    let (b, mut counters) = populated();
    counters.set(ScopeKey::Cards { board: 8 }, 4);
    remove_board(&b, &mut counters, AUTHOR).unwrap();
    assert_eq!(counters.get(&ScopeKey::Cards { board: BOARD }), None);
    assert_eq!(counters.get(&ScopeKey::Tasks { board: BOARD, card: 1 }), None);
    assert_eq!(counters.get(&ScopeKey::Cards { board: 8 }), Some(4));
    let mut list = vec![1, 2, 3, 4];
    unshare_board(&mut list, 2).unwrap();
    assert_eq!(list, vec![1, 4, 3]);
    assert_eq!(unshare_board(&mut list, 2), Err(CoreError::NotFound(NotFound::Board)));
    assert!(in_shared_with(&vec![1, 3], 3));
    assert!(in_shared_with(&vec![1, 3], 1));
    assert!(!in_shared_with(&vec![1], 3));
}

#[test]
fn listing_entry() {
    let short = board_short(BOARD, &board().header);
    assert_eq!(short.id, BOARD);
    assert_eq!(short.title, "Plans");
    assert_eq!(short.header_background_color, "#020202");
}

#[test]
fn card_list_lookups() {
    let (mut b, _) = populated();
    assert_eq!(b.cards.get_card(&1).unwrap().title, "card");
    assert!(matches!(b.cards.get_card(&2), Err(NotFound::Card)));
    assert!(matches!(b.cards.get_task(&1, &2), Err(NotFound::Task)));
    assert!(matches!(b.cards.get_subtask(&1, &1, &2), Err(NotFound::Subtask)));
    b.cards.get_mut_card(&1).unwrap().title = "c2".to_string();
    b.cards.get_mut_task(&1, &1).unwrap().notes = "n2".to_string();
    b.cards.get_mut_subtask(&1, &1, &1).unwrap().title = "s2".to_string();
    assert_eq!(b.cards[0].title, "c2");
    assert_eq!(b.cards[0].tasks[0].notes, "n2");
    assert_eq!(b.cards[0].get_task(&1).unwrap().subtasks[0].title, "s2");
    assert_eq!(b.cards[0].get_subtask(&1, &1).unwrap().title, "s2");
    assert_eq!(b.cards.remove_subtask(&1, &1, &1).unwrap().title, "s2");
    assert_eq!(b.cards.remove_task(&1, &1).unwrap().notes, "n2");
    assert!(matches!(b.cards[0].remove_task(&1), Err(NotFound::Task)));
    assert_eq!(b.cards.remove_card(&1).unwrap().title, "c2");
    assert!(b.cards.is_empty());
}

#[test]
fn counters_next_and_reset() {
    let mut counters = ScopeCounters::new();
    let k = ScopeKey::Tasks { board: 1, card: 2 };
    assert_eq!(counters.next(k), Some(1));
    assert_eq!(counters.next(k), Some(2));
    counters.reset_subtree(&Owner::Task { board: 1, card: 2, task: 1 });
    assert_eq!(counters.next(k), Some(3));
    counters.reset_subtree(&Owner::Card { board: 1, card: 2 });
    assert_eq!(counters.get(&k), None);
    assert_eq!(counters.next(k), Some(1));
    counters.set(k, i64::MAX);
    assert_eq!(counters.next(k), None);
    assert_eq!(counters.rows().len(), 1);
}
