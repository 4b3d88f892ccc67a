use taskboard::access::{authorize_board_level, authorize_shared, contains_id};
use taskboard::model::{Board, BoardBackground, BoardHeader};
use taskboard::scope::{Owner, ScopeKey};

fn keys() -> Vec<ScopeKey> {
    vec![
        ScopeKey::Cards { board: 3 },
        ScopeKey::Tasks { board: 3, card: 4 },
        ScopeKey::Subtasks { board: 3, card: 4, task: 5 },
        ScopeKey::TaskTags { board: 3, card: 4, task: 5 },
        ScopeKey::SubtaskTags { board: 3, card: 4, task: 5, subtask: 6 },
    ]
}

#[test]
fn columns_round_trip() {
    for (i, k) in keys().into_iter().enumerate() {
        let (kind, b, c, t, s) = k.to_columns();
        assert_eq!(kind as usize, i);
        assert_eq!(ScopeKey::from_columns(kind, b, c, t, s), Some(k));
    }
    assert_eq!(ScopeKey::Tasks { board: 3, card: 4 }.to_columns(), (1, 3, 4, 0, 0));
    assert_eq!(ScopeKey::from_columns(5, 1, 0, 0, 0), None);
    assert_eq!(ScopeKey::from_columns(0, 1, 2, 0, 0), None);
    assert_eq!(ScopeKey::from_columns(3, 1, 2, 3, 4), None);
}

#[test]
fn subtree_membership() {
    let k = keys();
    let card = Owner::Card { board: 3, card: 4 };
    let task = Owner::Task { board: 3, card: 4, task: 5 };
    let subtask = Owner::Subtask { board: 3, card: 4, task: 5, subtask: 6 };
    let within: Vec<bool> = k.iter().map(|x| x.is_within(&card)).collect();
    assert_eq!(within, vec![false, true, true, true, true]);
    let within: Vec<bool> = k.iter().map(|x| x.is_within(&task)).collect();
    assert_eq!(within, vec![false, false, true, true, true]);
    let within: Vec<bool> = k.iter().map(|x| x.is_within(&subtask)).collect();
    assert_eq!(within, vec![false, false, false, false, true]);
    assert!(k.iter().all(|x| x.is_within(&Owner::Board { board: 3 })));
    assert!(!k[1].is_within(&Owner::Card { board: 3, card: 40 }));
    assert!(!k[0].is_within(&Owner::Board { board: 30 }));
}

#[test]
fn authorization_checks() {
    let board = Board {
        id: 1,
        header: BoardHeader {
            title: "t".to_string(),
            header_text_color: "#000000".to_string(),
            header_background_color: "#000000".to_string(),
        },
        author: 10,
        shared_with: vec![10, 20],
        cards: vec![],
        background: BoardBackground::URL { url: "u".to_string() },
    };
    assert!(authorize_board_level(10, &board));
    assert!(!authorize_board_level(20, &board));
    assert!(authorize_shared(20, &board));
    assert!(!authorize_shared(30, &board));
    assert!(contains_id(&vec![1, 2, 3], 3));
    assert!(!contains_id(&vec![], 3));
}
