use kanban::auth::AuthError;
use kanban::models::{BoardSummary, CreateBoard, CreateCard, Status, Token, UpdateCard};
use kanban::routes;
use kanban::store::Store;

fn store_with_token(id: &str, expired_at: i64) -> Store {
    let mut store = Store::new();
    assert!(store.install_token(Token { id: id.to_string(), expired_at }));
    store
}

fn header(text: &str) -> Vec<u8> {
    text.as_bytes().to_vec()
}

#[test]
fn missing_header_is_bad_request_not_unauthorized() {
    let store = store_with_token("abc", 1_000);
    let r = Token::from_request(None, Some(&store), 100);
    let e = r.err().expect("must be rejected");
    assert_eq!(e, AuthError::MissingHeader);
    assert_eq!(e.status(), 400);
    assert_ne!(e.status(), 401);
    assert_eq!(e.message(), "missing Authorization header");
}

#[test]
fn malformed_header_is_bad_request() {
    let store = store_with_token("abc", 1_000);
    let mut bad = header("Bearer abc");
    bad.push(0xC3);
    let e = Token::from_request(Some(&bad), Some(&store), 100).err().unwrap();
    assert_eq!(e, AuthError::MalformedHeader);
    assert_eq!(e.status(), 400);
    assert_eq!(e.message(), "malformed Authorization header");
}

#[test]
fn blank_header_is_missing_type() {
    let store = store_with_token("abc", 1_000);
    let blank = header("   ");
    let e = Token::from_request(Some(&blank), Some(&store), 100).err().unwrap();
    assert_eq!(e, AuthError::MissingType);
    assert_eq!(e.status(), 400);
    assert_eq!(e.message(), "missing Authorization type");
}

#[test]
fn lowercase_scheme_is_rejected_case_sensitively() {
    let store = store_with_token("abc", 1_000);
    let h = header("bearer abc");
    let e = Token::from_request(Some(&h), Some(&store), 100).err().unwrap();
    assert_eq!(e, AuthError::UnsupportedType);
    assert_eq!(e.status(), 400);
    assert_eq!(e.message(), "unsupported Authorization type");
}

#[test]
fn scheme_without_credential_is_missing_token() {
    let store = store_with_token("abc", 1_000);
    let h = header("Bearer");
    let e = Token::from_request(Some(&h), Some(&store), 100).err().unwrap();
    assert_eq!(e, AuthError::MissingToken);
    assert_eq!(e.status(), 400);
    assert_eq!(e.message(), "missing Bearer token");
}

#[test]
fn unreachable_store_is_internal_error() {
    let h = header("Bearer abc");
    let e = Token::from_request(Some(&h), None, 100).err().unwrap();
    assert_eq!(e, AuthError::StoreUnreachable);
    assert_eq!(e.status(), 500);
    assert_eq!(e.message(), "internal error");
}

#[test]
fn unknown_and_expired_tokens_are_indistinguishable() {
    let h = header("Bearer abc");
    // no token with that id at all
    let store_unknown = store_with_token("other", 1_000);
    let unknown = Token::from_request(Some(&h), Some(&store_unknown), 100).err().unwrap();
    // the token exists but its expiry is not strictly after now
    let store_expired = store_with_token("abc", 100);
    let expired = Token::from_request(Some(&h), Some(&store_expired), 100).err().unwrap();
    assert_eq!(unknown, AuthError::InvalidToken);
    assert_eq!(expired, unknown);
    assert_eq!(unknown.status(), 401);
    assert_eq!(unknown.message(), "invalid Bearer token");
}

#[test]
fn valid_token_authenticates_and_hands_over_the_matching_row() {
    let store = store_with_token("abc", 1_000);
    let h = header("Bearer abc");
    let t = Token::from_request(Some(&h), Some(&store), 999).expect("must authenticate");
    assert_eq!(t.id, "abc");
    assert_eq!(t.expired_at, 1_000);
    // the gated handler runs once, with that token, and sees the store
    let listed = routes::boards(&store, &t).expect("listing cannot fail");
    assert_eq!(listed.len(), 0);
}

#[test]
fn extra_whitespace_and_trailing_words_are_tolerated() {
    let store = store_with_token("abc", 1_000);
    let h = header("  Bearer   abc  ignored");
    let t = Token::from_request(Some(&h), Some(&store), 1).expect("must authenticate");
    assert_eq!(t.id, "abc");
}

#[test]
fn boards_roundtrip_through_create_and_list() {
    let mut store = Store::new();
    let token = Token { id: "t".to_string(), expired_at: 10 };
    let b = routes::create_board(
        &mut store,
        CreateBoard { name: "groceries".to_string() },
        &token,
        42,
    )
    .expect("create cannot fail");
    assert_eq!(b.id, 1);
    assert_eq!(b.name, "groceries");
    assert_eq!(b.created_at, 42);
    let listed = routes::boards(&store, &token).unwrap();
    assert_eq!(listed.len(), 1);
    assert_eq!(listed[0].id, 1);
    assert_eq!(listed[0].name, "groceries");
}

#[test]
fn summary_counts_by_status_and_zero_fills() {
    let mut store = Store::new();
    let token = Token { id: "t".to_string(), expired_at: 10 };
    let board = store.create_board(CreateBoard { name: "b".to_string() }, 0);
    let c1 = store
        .create_card(CreateCard { board_id: board.id, description: "one".to_string() }, 1)
        .unwrap();
    let _c2 = store
        .create_card(CreateCard { board_id: board.id, description: "two".to_string() }, 2)
        .unwrap();
    let c3 = store
        .create_card(CreateCard { board_id: board.id, description: "three".to_string() }, 3)
        .unwrap();
    assert_eq!(c1.status, Status::Todo);
    // move one card to Doing: {Todo x2, Doing x1}
    store
        .update_card(c3.id, UpdateCard { description: "three".to_string(), status: Status::Doing })
        .unwrap();
    let s = routes::board_summary(&store, board.id, &token).unwrap();
    assert_eq!((s.todo, s.doing, s.done), (2, 1, 0));
    // a board with no cards summarizes to all zero
    let empty = store.create_board(CreateBoard { name: "empty".to_string() }, 0);
    let s0 = routes::board_summary(&store, empty.id, &token).unwrap();
    assert_eq!((s0.todo, s0.doing, s0.done), (0, 0, 0));
    // so does a board id with no row at all
    let s_none = routes::board_summary(&store, 999, &token).unwrap();
    assert_eq!((s_none.todo, s_none.doing, s_none.done), (0, 0, 0));
}

#[test]
fn create_card_with_unknown_board_fails_and_stores_nothing() {
    let mut store = Store::new();
    let token = Token { id: "t".to_string(), expired_at: 10 };
    let board = store.create_board(CreateBoard { name: "b".to_string() }, 0);
    let rej = routes::create_card(
        &mut store,
        CreateCard { board_id: 12345, description: "lost".to_string() },
        &token,
        1,
    )
    .err()
    .expect("unknown board must fail");
    assert_eq!(rej.status, 500);
    assert_eq!(rej.message, "internal error");
    // no row was created anywhere
    assert_eq!(routes::cards(&store, board.id, &token).unwrap().len(), 0);
    assert_eq!(routes::cards(&store, 12345, &token).unwrap().len(), 0);
}

#[test]
fn deleting_absent_rows_succeeds_and_changes_nothing() {
    let mut store = Store::new();
    let token = Token { id: "t".to_string(), expired_at: 10 };
    let board = store.create_board(CreateBoard { name: "b".to_string() }, 0);
    let card = store
        .create_card(CreateCard { board_id: board.id, description: "c".to_string() }, 1)
        .unwrap();
    let status = routes::delete_board(&mut store, 999, &token).unwrap();
    assert_eq!(status, 200);
    let status = routes::delete_card(&mut store, 999, &token).unwrap();
    assert_eq!(status, 200);
    let boards = routes::boards(&store, &token).unwrap();
    assert_eq!(boards.len(), 1);
    let cards = routes::cards(&store, board.id, &token).unwrap();
    assert_eq!(cards.len(), 1);
    assert_eq!(cards[0].id, card.id);
}

#[test]
fn card_round_trip_reflects_exactly_the_updated_fields() {
    let mut store = Store::new();
    let token = Token { id: "t".to_string(), expired_at: 10 };
    let board = store.create_board(CreateBoard { name: "b".to_string() }, 0);
    let created = routes::create_card(
        &mut store,
        CreateCard { board_id: board.id, description: "draft".to_string() },
        &token,
        7,
    )
    .unwrap();
    let updated = routes::update_card(
        &mut store,
        created.id,
        UpdateCard { description: "final text".to_string(), status: Status::Done },
        &token,
    )
    .unwrap();
    assert_eq!(updated.id, created.id);
    assert_eq!(updated.board_id, created.board_id);
    assert_eq!(updated.created_at, created.created_at);
    assert_eq!(updated.description, "final text");
    assert_eq!(updated.status, Status::Done);
    let listed = routes::cards(&store, board.id, &token).unwrap();
    assert_eq!(listed.len(), 1);
    assert_eq!(listed[0].id, created.id);
    assert_eq!(listed[0].board_id, board.id);
    assert_eq!(listed[0].description, "final text");
    assert_eq!(listed[0].status, Status::Done);
    assert_eq!(listed[0].created_at, created.created_at);
}

#[test]
fn updating_an_absent_card_fails_and_changes_nothing() {
    let mut store = Store::new();
    let token = Token { id: "t".to_string(), expired_at: 10 };
    let rej = routes::update_card(
        &mut store,
        77,
        UpdateCard { description: "x".to_string(), status: Status::Done },
        &token,
    )
    .err()
    .expect("absent card must fail");
    assert_eq!(rej.status, 500);
    assert_eq!(rej.message, "internal error");
}

#[test]
fn deleting_a_board_cascades_to_its_cards() {
    let mut store = Store::new();
    let token = Token { id: "t".to_string(), expired_at: 10 };
    let kept = store.create_board(CreateBoard { name: "kept".to_string() }, 0);
    let doomed = store.create_board(CreateBoard { name: "doomed".to_string() }, 0);
    store
        .create_card(CreateCard { board_id: kept.id, description: "stays".to_string() }, 1)
        .unwrap();
    store
        .create_card(CreateCard { board_id: doomed.id, description: "goes".to_string() }, 2)
        .unwrap();
    let status = routes::delete_board(&mut store, doomed.id, &token).unwrap();
    assert_eq!(status, 200);
    assert_eq!(routes::boards(&store, &token).unwrap().len(), 1);
    assert_eq!(routes::cards(&store, doomed.id, &token).unwrap().len(), 0);
    assert_eq!(routes::cards(&store, kept.id, &token).unwrap().len(), 1);
}

#[test]
fn summary_fold_adds_grouped_counts() {
    let counts = vec![
        (2, Status::Todo),
        (1, Status::Doing),
        (4, Status::Todo),
        (3, Status::Done),
    ];
    let s = BoardSummary::from_counts(&counts);
    assert_eq!((s.todo, s.doing, s.done), (6, 1, 3));
    let empty: Vec<(i64, Status)> = Vec::new();
    let z = BoardSummary::from_counts(&empty);
    assert_eq!((z.todo, z.doing, z.done), (0, 0, 0));
    let d = BoardSummary::default();
    assert_eq!((d.todo, d.doing, d.done), (0, 0, 0));
}

#[test]
fn installing_a_duplicate_token_id_is_refused() {
    let mut store = Store::new();
    assert!(store.install_token(Token { id: "abc".to_string(), expired_at: 50 }));
    assert!(!store.install_token(Token { id: "abc".to_string(), expired_at: 9_999 }));
    // the original row still decides: at instant 60 the token is expired
    let h = header("Bearer abc");
    let e = Token::from_request(Some(&h), Some(&store), 60).err().unwrap();
    assert_eq!(e, AuthError::InvalidToken);
}

#[test]
fn validate_token_requires_strictly_later_expiry() {
    let store = store_with_token("abc", 100);
    let id = "abc".to_string();
    assert!(store.validate_token(&id, 99).is_some());
    assert!(store.validate_token(&id, 100).is_none());
    assert!(store.validate_token(&id, 101).is_none());
}
