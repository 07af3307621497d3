//! The request boundary: authenticated extraction of a token from request
//! metadata, and the handlers the router dispatches to.
//!
//! [`Token::from_request`] runs the whole authentication check — header
//! shape, store reachability, credential lookup — and a handler takes a
//! `&Token`, so a handler body cannot run for a request the authenticator
//! turned away. Handler results resolve to an HTTP status: data-access
//! failures become a uniform internal error, successful deletes a bare
//! success status.

use vstd::prelude::*;

use crate::auth::{bearer_scheme, header_check, header_is_text, lemma_credential_ascii,
    lemma_token_end_bounds, lemma_token_start_bounds, opt_bytes, parse_bearer, scheme_of,
    scheme_start, AuthError};
use crate::models::{Board, BoardSummary, Card, CreateBoard, CreateCard, Status, Token, TokenView,
    UpdateCard};
use crate::store::{count_status, has_board, has_card, card_index, keep_board, keep_card,
    keep_off_board, on_board, spec_find_valid, Store, StoreError, StoreView};

verus! {

/// The characters an ASCII credential decodes to, one per byte.
pub open spec fn bytes_as_chars(s: Seq<u8>) -> Seq<char> {
    Seq::new(s.len(), |i: int| s[i] as char)
}

/// The complete authentication decision for one request, in order: the
/// header shape check, then store reachability, then the lookup of a
/// stored, unexpired token matching the credential. An unknown and an
/// expired credential produce the same rejection.
pub open spec fn auth_decision(h: Option<Seq<u8>>, db: Option<StoreView>, now: int) -> Result<
    TokenView,
    AuthError,
> {
    match header_check(h) {
        Err(e) => Err(e),
        Ok(cred) => match db {
            None => Err(AuthError::StoreUnreachable),
            Some(m) => match spec_find_valid(m.tokens, bytes_as_chars(cred), now) {
                Some(t) => Ok(t),
                None => Err(AuthError::InvalidToken),
            },
        },
    }
}

/// The ghost value of an optional store handle.
pub open spec fn opt_store_view(db: Option<&Store>) -> Option<StoreView> {
    match db {
        Some(s) => Some(s@),
        None => None,
    }
}

/// Relies on `String::from_utf8`: ASCII bytes are valid UTF-8 and decode
/// to one character per byte, so the conversion cannot fail and the
/// result's characters are exactly the bytes.
#[verifier::external_body]
fn ascii_to_string(bytes: Vec<u8>) -> (r: String)
    requires
        forall|i: int| 0 <= i < bytes@.len() ==> #[trigger] bytes@[i] < 128,
    ensures
        r@ == bytes_as_chars(bytes@),
{
    match String::from_utf8(bytes) {
        Ok(s) => s,
        Err(_) => String::new(),
    }
}

impl Token {
    /// Construct the authenticated caller for a request: the staged header
    /// validation of [`header_check`], then the store lookup. Exactly the
    /// decision of [`auth_decision`], stage by stage, error by error.
    pub fn from_request(header: Option<&Vec<u8>>, db: Option<&Store>, now: i64) -> (r: Result<
        Token,
        AuthError,
    >)
        ensures
            (match r {
                Ok(t) => auth_decision(opt_bytes(header), opt_store_view(db), now as int)
                    == Ok::<TokenView, AuthError>(t@),
                Err(e) => auth_decision(opt_bytes(header), opt_store_view(db), now as int)
                    == Err::<TokenView, AuthError>(e),
            }),
    {
        let credential_bytes = match parse_bearer(header) {
            Ok(c) => c,
            Err(e) => {
                return Err(e);
            },
        };
        let db = match db {
            Some(d) => d,
            None => {
                return Err(AuthError::StoreUnreachable);
            },
        };
        proof {
            let s = opt_bytes(header)->Some_0;
            lemma_credential_ascii(s);
        }
        let credential = ascii_to_string(credential_bytes);
        match db.validate_token(&credential, now) {
            Some(t) => Ok(t),
            None => Err(AuthError::InvalidToken),
        }
    }
}

/// An error response at the handler boundary: an HTTP status and the
/// client-visible message.
#[derive(Debug)]
pub struct Rejection {
    pub status: u16,
    pub message: String,
}

/// Map a data-access failure to the uniform internal-error response: the
/// status is 500 and the message carries no detail of the failure.
pub fn to_internal_error(_e: StoreError) -> (r: Rejection)
    ensures
        r.status == 500,
        r.message@ == "internal error"@,
{
    Rejection { status: 500, message: "internal error".to_owned() }
}

/// The bare success response a delete resolves to.
pub fn to_ok(_u: ()) -> (r: u16)
    ensures
        r == 200,
{
    200
}

/// List all boards. With the store model the query cannot fail, so the
/// handler always succeeds.
pub fn boards(db: &Store, _t: &Token) -> (r: Result<Vec<Board>, Rejection>)
    ensures
        (match r {
            Ok(v) => v.deep_view() == db@.boards,
            Err(_) => false,
        }),
{
    Ok(db.boards())
}

/// Create a board from the request payload; returns the stored row.
pub fn create_board(db: &mut Store, create: CreateBoard, _t: &Token, now: i64) -> (r: Result<
    Board,
    Rejection,
>)
    requires
        old(db)@.wf(),
        old(db)@.next_board_id < i64::MAX,
    ensures
        final(db)@.wf(),
        (match r {
            Ok(b) => {
                &&& b@.id == old(db)@.next_board_id
                &&& b@.name == create.name@
                &&& b@.created_at == now as int
                &&& final(db)@.boards == old(db)@.boards.push(b@)
                &&& final(db)@.cards == old(db)@.cards
                &&& final(db)@.tokens == old(db)@.tokens
            },
            Err(_) => false,
        }),
{
    Ok(db.create_board(create, now))
}

/// The per-status card counts of one board; zero-filled where a status has
/// no cards, and all zero for a board id with no rows.
pub fn board_summary(db: &Store, board_id: i64, _t: &Token) -> (r: Result<BoardSummary, Rejection>)
    requires
        db@.wf(),
    ensures
        (match r {
            Ok(s) => {
                &&& s.todo == count_status(db@.cards, board_id as int, Status::Todo)
                &&& s.doing == count_status(db@.cards, board_id as int, Status::Doing)
                &&& s.done == count_status(db@.cards, board_id as int, Status::Done)
            },
            Err(_) => false,
        }),
{
    Ok(db.board_summary(board_id))
}

/// Delete a board and its cards; an absent id still succeeds and changes
/// nothing.
pub fn delete_board(db: &mut Store, board_id: i64, _t: &Token) -> (r: Result<u16, Rejection>)
    requires
        old(db)@.wf(),
    ensures
        final(db)@.wf(),
        (match r {
            Ok(status) => {
                &&& status == 200
                &&& final(db)@.boards == old(db)@.boards.filter(keep_board(board_id as int))
                &&& final(db)@.cards == old(db)@.cards.filter(keep_off_board(board_id as int))
                &&& final(db)@.tokens == old(db)@.tokens
            },
            Err(_) => false,
        }),
{
    Ok(to_ok(db.delete_board(board_id)))
}

/// List the cards of one board, in store order.
pub fn cards(db: &Store, board_id: i64, _t: &Token) -> (r: Result<Vec<Card>, Rejection>)
    ensures
        (match r {
            Ok(v) => v.deep_view() == db@.cards.filter(on_board(board_id as int)),
            Err(_) => false,
        }),
{
    Ok(db.cards(board_id))
}

/// Create a card on an existing board; a payload naming an unknown board
/// id is a data-access failure (internal error) and stores nothing.
pub fn create_card(db: &mut Store, create: CreateCard, _t: &Token, now: i64) -> (r: Result<
    Card,
    Rejection,
>)
    requires
        old(db)@.wf(),
        old(db)@.next_card_id < i64::MAX,
    ensures
        final(db)@.wf(),
        final(db)@.boards == old(db)@.boards,
        final(db)@.tokens == old(db)@.tokens,
        (match r {
            Ok(c) => {
                &&& has_board(old(db)@.boards, create.board_id as int)
                &&& c@.id == old(db)@.next_card_id
                &&& c@.board_id == create.board_id as int
                &&& c@.description == create.description@
                &&& c@.status == Status::Todo
                &&& c@.created_at == now as int
                &&& final(db)@.cards == old(db)@.cards.push(c@)
            },
            Err(rej) => {
                &&& rej.status == 500
                &&& rej.message@ == "internal error"@
                &&& !has_board(old(db)@.boards, create.board_id as int)
                &&& final(db)@ == old(db)@
            },
        }),
{
    match db.create_card(create, now) {
        Ok(c) => Ok(c),
        Err(e) => Err(to_internal_error(e)),
    }
}

/// Replace a card's description and status; an unknown card id is a
/// data-access failure (internal error) and changes nothing.
pub fn update_card(db: &mut Store, card_id: i64, update: UpdateCard, _t: &Token) -> (r: Result<
    Card,
    Rejection,
>)
    requires
        old(db)@.wf(),
    ensures
        final(db)@.wf(),
        final(db)@.boards == old(db)@.boards,
        final(db)@.tokens == old(db)@.tokens,
        (match r {
            Ok(c) => {
                &&& has_card(old(db)@.cards, card_id as int)
                &&& c@.id == card_id as int
                &&& c@.description == update.description@
                &&& c@.status == update.status
                &&& c@.board_id == old(db)@.cards[card_index(old(db)@.cards, card_id as int)].board_id
                &&& c@.created_at == old(db)@.cards[card_index(
                    old(db)@.cards,
                    card_id as int,
                )].created_at
                &&& final(db)@.cards == old(db)@.cards.update(
                    card_index(old(db)@.cards, card_id as int),
                    c@,
                )
            },
            Err(rej) => {
                &&& rej.status == 500
                &&& rej.message@ == "internal error"@
                &&& !has_card(old(db)@.cards, card_id as int)
                &&& final(db)@ == old(db)@
            },
        }),
{
    match db.update_card(card_id, update) {
        Ok(c) => Ok(c),
        Err(e) => Err(to_internal_error(e)),
    }
}

/// Delete a card; an absent id still succeeds and changes nothing.
pub fn delete_card(db: &mut Store, card_id: i64, _t: &Token) -> (r: Result<u16, Rejection>)
    requires
        old(db)@.wf(),
    ensures
        final(db)@.wf(),
        (match r {
            Ok(status) => {
                &&& status == 200
                &&& final(db)@.cards == old(db)@.cards.filter(keep_card(card_id as int))
                &&& final(db)@.boards == old(db)@.boards
                &&& final(db)@.tokens == old(db)@.tokens
            },
            Err(_) => false,
        }),
{
    Ok(to_ok(db.delete_card(card_id)))
}

/// A request without an `Authorization` header is rejected as a bad
/// request naming the missing header — never as unauthorized.
pub proof fn lemma_missing_header_rejected(db: Option<StoreView>, now: int)
    ensures
        auth_decision(None, db, now) == Err::<TokenView, AuthError>(AuthError::MissingHeader),
        AuthError::MissingHeader.spec_status() == 400,
        AuthError::MissingHeader.spec_status() != 401,
        AuthError::MissingHeader.spec_message() == "missing Authorization header"@,
{
}

/// Where every stored token either has another id or is already expired,
/// the request is rejected as unauthorized; the two cases produce the one
/// rejection value, so a caller cannot tell them apart.
pub proof fn lemma_invalid_token_rejected(h: Option<Seq<u8>>, m: StoreView, now: int)
    requires
        header_check(h) is Ok,
        forall|i: int|
            0 <= i < m.tokens.len() ==> !((#[trigger] m.tokens[i]).id == bytes_as_chars(
                header_check(h)->Ok_0,
            ) && m.tokens[i].expired_at > now),
    ensures
        auth_decision(h, Some(m), now) == Err::<TokenView, AuthError>(AuthError::InvalidToken),
        AuthError::InvalidToken.spec_status() == 401,
        AuthError::InvalidToken.spec_message() == "invalid Bearer token"@,
{
    lemma_find_valid_characterization(m.tokens, bytes_as_chars(header_check(h)->Ok_0), now);
}

/// What the lookup returns: the token it yields matches the credential and
/// is unexpired and stored; and it yields none exactly when no stored
/// token matches unexpired.
pub proof fn lemma_find_valid_characterization(tokens: Seq<TokenView>, cred: Seq<char>, now: int)
    ensures
        (match spec_find_valid(tokens, cred, now) {
            Some(t) => exists|i: int|
                0 <= i < tokens.len() && #[trigger] tokens[i] == t && t.id == cred
                    && t.expired_at > now,
            None => forall|i: int|
                0 <= i < tokens.len() ==> !((#[trigger] tokens[i]).id == cred
                    && tokens[i].expired_at > now),
        }),
    decreases tokens.len(),
{
    if tokens.len() > 0 {
        if tokens.first().id == cred && tokens.first().expired_at > now {
            assert(tokens[0] == tokens.first());
        } else {
            lemma_find_valid_characterization(tokens.drop_first(), cred, now);
            match spec_find_valid(tokens.drop_first(), cred, now) {
                Some(t) => {
                    let i = choose|i: int|
                        0 <= i < tokens.drop_first().len() && #[trigger] tokens.drop_first()[i]
                            == t && t.id == cred && t.expired_at > now;
                    assert(tokens[i + 1] == t);
                },
                None => {
                    assert forall|i: int| 0 <= i < tokens.len() implies !((
                    #[trigger] tokens[i]).id == cred && tokens[i].expired_at > now) by {
                        if i > 0 {
                            assert(tokens.drop_first()[i - 1] == tokens[i]);
                        }
                    }
                },
            }
        }
    }
}

/// With a well-shaped Bearer header whose credential names a stored,
/// unexpired token, authentication succeeds and yields exactly the
/// matching token row — the value the protected handler then receives.
pub proof fn lemma_valid_token_accepted(h: Option<Seq<u8>>, m: StoreView, now: int, i: int)
    requires
        m.wf(),
        header_check(h) is Ok,
        0 <= i < m.tokens.len(),
        m.tokens[i].id == bytes_as_chars(header_check(h)->Ok_0),
        m.tokens[i].expired_at > now,
    ensures
        auth_decision(h, Some(m), now) == Ok::<TokenView, AuthError>(m.tokens[i]),
{
    let cred = bytes_as_chars(header_check(h)->Ok_0);
    lemma_find_valid_characterization(m.tokens, cred, now);
    match spec_find_valid(m.tokens, cred, now) {
        Some(t) => {
            let j = choose|j: int|
                0 <= j < m.tokens.len() && #[trigger] m.tokens[j] == t && t.id == cred
                    && t.expired_at > now;
            if i != j {
                assert(m.tokens[i].id != m.tokens[j].id);
            }
        },
        None => {
            assert(!(m.tokens[i].id == cred && m.tokens[i].expired_at > now));
        },
    }
}

/// Scheme comparison is case-sensitive: a text header whose first word is
/// `bearer` (lowercase) is rejected as an unsupported type, not accepted.
pub proof fn lemma_lowercase_scheme_rejected(s: Seq<u8>, db: Option<StoreView>, now: int)
    requires
        header_is_text(s),
        scheme_of(s) == lowercase_bearer(),
    ensures
        auth_decision(Some(s), db, now) == Err::<TokenView, AuthError>(AuthError::UnsupportedType),
        AuthError::UnsupportedType.spec_status() == 400,
        AuthError::UnsupportedType.spec_message() == "unsupported Authorization type"@,
{
    lemma_token_start_bounds(s, 0);
    lemma_token_end_bounds(s, scheme_start(s));
    assert(scheme_of(s).len() == 6);
    assert(scheme_start(s) < s.len());
    assert(scheme_of(s)[0] == 98);
    assert(bearer_scheme()[0] == 66);
    assert(scheme_of(s) != bearer_scheme());
}

/// The ASCII bytes of the word `bearer`, all lowercase.
pub open spec fn lowercase_bearer() -> Seq<u8> {
    seq![98u8, 101u8, 97u8, 114u8, 101u8, 114u8]
}

} // verus!
