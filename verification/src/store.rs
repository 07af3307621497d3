//! An exact model of the relational store the backend runs against: tables
//! of tokens, boards and cards, with store-assigned ids.
//!
//! Every operation's contract pins the new table contents down completely,
//! so the CRUD behaviour the handlers rely on — cascade on board deletion,
//! idempotent deletes, the foreign-key check on card creation, the
//! exactly-one-row update — is stated and proved here.

use vstd::prelude::*;

use crate::models::{Board, BoardSummary, BoardView, Card, CardView, CreateBoard, CreateCard,
    Status, Token, TokenView, UpdateCard};

verus! {

broadcast use vstd::seq_lib::group_filter_ensures;

/// A data-access failure: the single-row expectation of an operation was
/// violated. Handlers map every variant to a generic internal error.
#[derive(Clone, Copy, PartialEq, Eq, Structural, Debug)]
pub enum StoreError {
    /// A card referred to a board id with no matching board row.
    UnknownBoard,
    /// An update referred to a card id with no matching card row.
    UnknownCard,
}

/// The mathematical content of a [`Store`]: its three tables and the two
/// id counters.
#[verifier::ext_equal]
pub ghost struct StoreView {
    pub tokens: Seq<TokenView>,
    pub boards: Seq<BoardView>,
    pub cards: Seq<CardView>,
    pub next_board_id: int,
    pub next_card_id: int,
}

/// There is a board row with this id.
pub open spec fn has_board(boards: Seq<BoardView>, id: int) -> bool {
    exists|i: int| 0 <= i < boards.len() && (#[trigger] boards[i]).id == id
}

/// There is a card row with this id.
pub open spec fn has_card(cards: Seq<CardView>, id: int) -> bool {
    exists|i: int| 0 <= i < cards.len() && (#[trigger] cards[i]).id == id
}

/// There is a token row with this id.
pub open spec fn has_token(tokens: Seq<TokenView>, id: Seq<char>) -> bool {
    exists|i: int| 0 <= i < tokens.len() && (#[trigger] tokens[i]).id == id
}

/// The index of the card row with this id (meaningful when the ids are
/// distinct and the id is present).
pub open spec fn card_index(cards: Seq<CardView>, id: int) -> int {
    choose|i: int| 0 <= i < cards.len() && (#[trigger] cards[i]).id == id
}

/// Keeps the board rows whose id differs from `id`.
pub open spec fn keep_board(id: int) -> spec_fn(BoardView) -> bool {
    |b: BoardView| b.id != id
}

/// Keeps the card rows whose id differs from `id`.
pub open spec fn keep_card(id: int) -> spec_fn(CardView) -> bool {
    |c: CardView| c.id != id
}

/// Keeps the card rows that do not sit on board `id`.
pub open spec fn keep_off_board(id: int) -> spec_fn(CardView) -> bool {
    |c: CardView| c.board_id != id
}

/// Selects the card rows of board `id`.
pub open spec fn on_board(id: int) -> spec_fn(CardView) -> bool {
    |c: CardView| c.board_id == id
}

/// The first token row whose id equals `credential` and whose expiry lies
/// strictly after `now`; the store's lookup returns exactly this row.
pub open spec fn spec_find_valid(tokens: Seq<TokenView>, credential: Seq<char>, now: int) -> Option<
    TokenView,
>
    decreases tokens.len(),
{
    if tokens.len() == 0 {
        None
    } else if tokens.first().id == credential && tokens.first().expired_at > now {
        Some(tokens.first())
    } else {
        spec_find_valid(tokens.drop_first(), credential, now)
    }
}

/// How many cards of board `board_id` carry `status`.
pub open spec fn count_status(cards: Seq<CardView>, board_id: int, status: Status) -> int
    decreases cards.len(),
{
    if cards.len() == 0 {
        0
    } else {
        count_status(cards.drop_last(), board_id, status) + if cards.last().board_id == board_id
            && cards.last().status == status {
            1int
        } else {
            0int
        }
    }
}

impl StoreView {
    /// Well-formedness: positive counters with every id below its counter,
    /// ids unique per table, and every card on an existing board.
    pub open spec fn wf(self) -> bool {
        &&& 0 < self.next_board_id <= i64::MAX
        &&& 0 < self.next_card_id <= i64::MAX
        &&& self.boards.len() < self.next_board_id
        &&& self.cards.len() < self.next_card_id
        &&& forall|i: int|
            0 <= i < self.boards.len() ==> 0 < (#[trigger] self.boards[i]).id
                < self.next_board_id
        &&& forall|i: int, j: int|
            0 <= i < j < self.boards.len() ==> (#[trigger] self.boards[i]).id
                != (#[trigger] self.boards[j]).id
        &&& forall|i: int|
            0 <= i < self.cards.len() ==> 0 < (#[trigger] self.cards[i]).id < self.next_card_id
        &&& forall|i: int, j: int|
            0 <= i < j < self.cards.len() ==> (#[trigger] self.cards[i]).id
                != (#[trigger] self.cards[j]).id
        &&& forall|i: int|
            0 <= i < self.cards.len() ==> has_board(
                self.boards,
                (#[trigger] self.cards[i]).board_id,
            )
        &&& forall|i: int, j: int|
            0 <= i < j < self.tokens.len() ==> (#[trigger] self.tokens[i]).id
                != (#[trigger] self.tokens[j]).id
    }
}

proof fn lemma_filter_subset<A>(s: Seq<A>, pred: spec_fn(A) -> bool)
    ensures
        forall|k: int|
            0 <= k < s.filter(pred).len() ==> exists|j: int|
                0 <= j < s.len() && s[j] == #[trigger] s.filter(pred)[k],
    decreases s.len(),
{
    reveal(Seq::filter);
    if s.len() > 0 {
        let last = s.last();
        let dl = s.drop_last();
        lemma_filter_subset(dl, pred);
        let f = s.filter(pred);
        let fd = dl.filter(pred);
        assert forall|k: int| 0 <= k < f.len() implies exists|j: int|
            0 <= j < s.len() && s[j] == #[trigger] f[k] by {
            if pred(last) && k == f.len() - 1 {
                assert(s[s.len() - 1] == f[k]);
            } else {
                assert(f[k] == fd[k]);
                let j = choose|j: int| 0 <= j < dl.len() && dl[j] == fd[k];
                assert(s[j] == f[k]);
            }
        }
    }
}

proof fn lemma_filter_distinct_keys<A>(s: Seq<A>, pred: spec_fn(A) -> bool, key: spec_fn(A) -> int)
    requires
        forall|i: int, j: int|
            0 <= i < j < s.len() ==> key(#[trigger] s[i]) != key(#[trigger] s[j]),
    ensures
        forall|i: int, j: int|
            0 <= i < j < s.filter(pred).len() ==> key(#[trigger] s.filter(pred)[i]) != key(
                #[trigger] s.filter(pred)[j],
            ),
    decreases s.len(),
{
    reveal(Seq::filter);
    if s.len() > 0 {
        let last = s.last();
        let dl = s.drop_last();
        assert forall|i: int, j: int| 0 <= i < j < dl.len() implies key(#[trigger] dl[i]) != key(
            #[trigger] dl[j],
        ) by {
            assert(dl[i] == s[i]);
            assert(dl[j] == s[j]);
        }
        lemma_filter_distinct_keys(dl, pred, key);
        lemma_filter_subset(dl, pred);
        let f = s.filter(pred);
        let fd = dl.filter(pred);
        assert forall|i: int, j: int| 0 <= i < j < f.len() implies key(#[trigger] f[i]) != key(
            #[trigger] f[j],
        ) by {
            if pred(last) && j == f.len() - 1 {
                assert(f[i] == fd[i]);
                let ji = choose|ji: int| 0 <= ji < dl.len() && dl[ji] == fd[i];
                assert(key(s[ji]) != key(s[s.len() - 1]));
            } else {
                assert(f[i] == fd[i]);
                assert(f[j] == fd[j]);
            }
        }
    }
}

proof fn lemma_filter_keeps_all<A>(s: Seq<A>, pred: spec_fn(A) -> bool)
    requires
        forall|i: int| 0 <= i < s.len() ==> pred(#[trigger] s[i]),
    ensures
        s.filter(pred) == s,
    decreases s.len(),
{
    reveal(Seq::filter);
    if s.len() == 0 {
        assert(s.filter(pred) =~= s);
    } else {
        let dl = s.drop_last();
        assert forall|i: int| 0 <= i < dl.len() implies pred(#[trigger] dl[i]) by {
            assert(dl[i] == s[i]);
        }
        lemma_filter_keeps_all(dl, pred);
        assert(s.filter(pred) =~= s);
    }
}

/// The persistence boundary: three in-memory tables behind the same
/// operations the relational store serves.
pub struct Store {
    tokens: Vec<Token>,
    boards: Vec<Board>,
    cards: Vec<Card>,
    next_board_id: i64,
    next_card_id: i64,
}

impl View for Store {
    type V = StoreView;

    closed spec fn view(&self) -> StoreView {
        StoreView {
            tokens: self.tokens.deep_view(),
            boards: self.boards.deep_view(),
            cards: self.cards.deep_view(),
            next_board_id: self.next_board_id as int,
            next_card_id: self.next_card_id as int,
        }
    }
}

impl Store {
    /// An empty store: no rows, counters at one.
    pub fn new() -> (r: Store)
        ensures
            r@.wf(),
            r@.tokens =~= Seq::<TokenView>::empty(),
            r@.boards =~= Seq::<BoardView>::empty(),
            r@.cards =~= Seq::<CardView>::empty(),
            r@.next_board_id == 1,
            r@.next_card_id == 1,
    {
        Store {
            tokens: Vec::new(),
            boards: Vec::new(),
            cards: Vec::new(),
            next_board_id: 1,
            next_card_id: 1,
        }
    }

    /// Install an externally created token row; refused (leaving the store
    /// unchanged) when a row with that id already exists.
    #[verifier::loop_isolation(false)]
    pub fn install_token(&mut self, token: Token) -> (r: bool)
        requires
            old(self)@.wf(),
        ensures
            final(self)@.wf(),
            r == !has_token(old(self)@.tokens, token@.id),
            r ==> final(self)@.tokens =~= old(self)@.tokens.push(token@),
            !r ==> final(self)@.tokens =~= old(self)@.tokens,
            final(self)@.boards =~= old(self)@.boards,
            final(self)@.cards =~= old(self)@.cards,
            final(self)@.next_board_id == old(self)@.next_board_id,
            final(self)@.next_card_id == old(self)@.next_card_id,
    {
        let mut i: usize = 0;
        while i < self.tokens.len()
            invariant
                0 <= i <= self.tokens@.len(),
                forall|k: int| 0 <= k < i ==> (#[trigger] self@.tokens[k]).id != token@.id,
            decreases self.tokens@.len() - i,
        {
            if self.tokens[i].id == token.id {
                proof {
                    assert((self@.tokens[i as int]).id == token@.id);
                }
                return false;
            }
            i = i + 1;
        }
        self.tokens.push(token);
        proof {
            assert(self@.tokens =~= old(self)@.tokens.push(token@));
            assert forall|a: int, b: int|
                0 <= a < b < self@.tokens.len() implies (#[trigger] self@.tokens[a]).id != (
            #[trigger] self@.tokens[b]).id by {
                if b == self@.tokens.len() - 1 {
                    assert(self@.tokens[a] == old(self)@.tokens[a]);
                }
            }
        }
        true
    }

    /// The store's token lookup: the one query the authenticator makes.
    /// Returns the token row whose id equals the credential and whose
    /// expiry lies strictly after `now`, if there is one.
    #[verifier::loop_isolation(false)]
    pub fn validate_token(&self, token_id: &String, now: i64) -> (r: Option<Token>)
        ensures
            (match r {
                Some(t) => spec_find_valid(self@.tokens, token_id@, now as int) == Some(t@),
                None => spec_find_valid(self@.tokens, token_id@, now as int) is None,
            }),
    {
        let ghost all = self@.tokens;
        proof {
            assert(all.skip(0) =~= all);
        }
        let mut i: usize = 0;
        while i < self.tokens.len()
            invariant
                0 <= i <= self.tokens@.len(),
                all == self@.tokens,
                spec_find_valid(all, token_id@, now as int) == spec_find_valid(
                    all.skip(i as int),
                    token_id@,
                    now as int,
                ),
            decreases self.tokens@.len() - i,
        {
            proof {
                assert(all.skip(i as int).first() == all[i as int]);
                assert(all.skip(i as int).drop_first() =~= all.skip(i + 1));
            }
            if self.tokens[i].id == *token_id && self.tokens[i].expired_at > now {
                return Some(self.tokens[i].clone());
            }
            i = i + 1;
        }
        proof {
            assert(all.skip(all.len() as int).len() == 0);
        }
        None
    }

    /// All board rows.
    #[verifier::loop_isolation(false)]
    pub fn boards(&self) -> (r: Vec<Board>)
        ensures
            r.deep_view() == self@.boards,
    {
        let mut out: Vec<Board> = Vec::new();
        let mut i: usize = 0;
        while i < self.boards.len()
            invariant
                0 <= i <= self.boards@.len(),
                out.deep_view() =~= self@.boards.take(i as int),
            decreases self.boards@.len() - i,
        {
            out.push(self.boards[i].clone());
            proof {
                assert(out.deep_view() =~= self@.boards.take(i + 1));
            }
            i = i + 1;
        }
        proof {
            assert(out.deep_view() =~= self@.boards);
        }
        out
    }

    /// Card counts by status for one board; zero-filled for statuses with
    /// no cards, and all zero for a board id with no rows at all.
    #[verifier::loop_isolation(false)]
    pub fn board_summary(&self, board_id: i64) -> (r: BoardSummary)
        requires
            self@.wf(),
        ensures
            r.todo == count_status(self@.cards, board_id as int, Status::Todo),
            r.doing == count_status(self@.cards, board_id as int, Status::Doing),
            r.done == count_status(self@.cards, board_id as int, Status::Done),
    {
        let mut summary = BoardSummary::default();
        let mut i: usize = 0;
        while i < self.cards.len()
            invariant
                self@.wf(),
                0 <= i <= self.cards@.len(),
                self.cards@.len() < self@.next_card_id <= i64::MAX,
                0 <= summary.todo <= i,
                0 <= summary.doing <= i,
                0 <= summary.done <= i,
                summary.todo == count_status(
                    self@.cards.take(i as int),
                    board_id as int,
                    Status::Todo,
                ),
                summary.doing == count_status(
                    self@.cards.take(i as int),
                    board_id as int,
                    Status::Doing,
                ),
                summary.done == count_status(
                    self@.cards.take(i as int),
                    board_id as int,
                    Status::Done,
                ),
            decreases self.cards@.len() - i,
        {
            proof {
                assert(self@.cards.take(i + 1).drop_last() =~= self@.cards.take(i as int));
                assert(self@.cards.take(i + 1).last() == self@.cards[i as int]);
            }
            if self.cards[i].board_id == board_id {
                match self.cards[i].status {
                    Status::Todo => summary.todo = summary.todo + 1,
                    Status::Doing => summary.doing = summary.doing + 1,
                    Status::Done => summary.done = summary.done + 1,
                }
            }
            i = i + 1;
        }
        proof {
            assert(self@.cards.take(self@.cards.len() as int) =~= self@.cards);
        }
        summary
    }

    /// Insert a board row; the store assigns the id and the creation
    /// instant and returns the row just as the insert reports it.
    #[verifier::loop_isolation(false)]
    pub fn create_board(&mut self, create_board: CreateBoard, now: i64) -> (r: Board)
        requires
            old(self)@.wf(),
            old(self)@.next_board_id < i64::MAX,
        ensures
            final(self)@.wf(),
            r@.id == old(self)@.next_board_id,
            r@.name == create_board.name@,
            r@.created_at == now as int,
            final(self)@.boards =~= old(self)@.boards.push(r@),
            final(self)@.cards =~= old(self)@.cards,
            final(self)@.tokens =~= old(self)@.tokens,
            final(self)@.next_board_id == old(self)@.next_board_id + 1,
            final(self)@.next_card_id == old(self)@.next_card_id,
    {
        let board = Board { id: self.next_board_id, name: create_board.name, created_at: now };
        let result = board.clone();
        self.boards.push(board);
        self.next_board_id = self.next_board_id + 1;
        proof {
            assert(self@.boards =~= old(self)@.boards.push(result@));
            assert(self@.tokens =~= old(self)@.tokens);
            assert forall|a: int, b: int|
                0 <= a < b < self@.tokens.len() implies (#[trigger] self@.tokens[a]).id != (
            #[trigger] self@.tokens[b]).id by {
                assert((old(self)@.tokens[a]).id != (old(self)@.tokens[b]).id);
            }
            assert forall|a: int, b: int|
                0 <= a < b < self@.boards.len() implies (#[trigger] self@.boards[a]).id != (
            #[trigger] self@.boards[b]).id by {
                if b == self@.boards.len() - 1 {
                    assert(self@.boards[a] == old(self)@.boards[a]);
                    assert(old(self)@.boards[a].id < old(self)@.next_board_id);
                }
            }
            assert forall|a: int|
                0 <= a < self@.boards.len() implies 0 < (#[trigger] self@.boards[a]).id
                < self@.next_board_id by {
                if a < old(self)@.boards.len() {
                    assert(self@.boards[a] == old(self)@.boards[a]);
                }
            }
            assert forall|i: int| 0 <= i < self@.cards.len() implies has_board(
                self@.boards,
                (#[trigger] self@.cards[i]).board_id,
            ) by {
                let j = choose|j: int|
                    0 <= j < old(self)@.boards.len() && (#[trigger] old(self)@.boards[j]).id
                        == old(self)@.cards[i].board_id;
                assert(self@.boards[j].id == self@.cards[i].board_id);
            }
        }
        result
    }

    /// Delete the board row with this id, cascading to its cards. Deleting
    /// an absent id removes no row and still succeeds.
    #[verifier::loop_isolation(false)]
    pub fn delete_board(&mut self, board_id: i64)
        requires
            old(self)@.wf(),
        ensures
            final(self)@.wf(),
            final(self)@.boards =~= old(self)@.boards.filter(keep_board(board_id as int)),
            final(self)@.cards =~= old(self)@.cards.filter(keep_off_board(board_id as int)),
            final(self)@.tokens =~= old(self)@.tokens,
            final(self)@.next_board_id == old(self)@.next_board_id,
            final(self)@.next_card_id == old(self)@.next_card_id,
    {
        let ghost old_view = self@;
        let mut kept_boards: Vec<Board> = Vec::new();
        let mut i: usize = 0;
        while i < self.boards.len()
            invariant
                0 <= i <= self.boards@.len(),
                self@ == old_view,
                kept_boards.deep_view() =~= old_view.boards.take(i as int).filter(
                    keep_board(board_id as int),
                ),
            decreases self.boards@.len() - i,
        {
            proof {
                reveal(Seq::filter);
                assert(old_view.boards.take(i + 1).drop_last() =~= old_view.boards.take(i as int));
                assert(old_view.boards.take(i + 1).last() == old_view.boards[i as int]);
            }
            if self.boards[i].id != board_id {
                kept_boards.push(self.boards[i].clone());
                proof {
                    assert(kept_boards.deep_view() =~= old_view.boards.take(i + 1).filter(
                        keep_board(board_id as int),
                    ));
                }
            }
            i = i + 1;
        }
        let mut kept_cards: Vec<Card> = Vec::new();
        let mut j: usize = 0;
        while j < self.cards.len()
            invariant
                0 <= j <= self.cards@.len(),
                self@ == old_view,
                kept_cards.deep_view() =~= old_view.cards.take(j as int).filter(
                    keep_off_board(board_id as int),
                ),
            decreases self.cards@.len() - j,
        {
            proof {
                reveal(Seq::filter);
                assert(old_view.cards.take(j + 1).drop_last() =~= old_view.cards.take(j as int));
                assert(old_view.cards.take(j + 1).last() == old_view.cards[j as int]);
            }
            if self.cards[j].board_id != board_id {
                kept_cards.push(self.cards[j].clone());
                proof {
                    assert(kept_cards.deep_view() =~= old_view.cards.take(j + 1).filter(
                        keep_off_board(board_id as int),
                    ));
                }
            }
            j = j + 1;
        }
        self.boards = kept_boards;
        self.cards = kept_cards;
        proof {
            assert(old_view.boards.take(old_view.boards.len() as int) =~= old_view.boards);
            assert(old_view.cards.take(old_view.cards.len() as int) =~= old_view.cards);
            lemma_delete_board_wf(old_view, self@, board_id as int);
        }
    }

    /// All card rows of one board, in store order.
    #[verifier::loop_isolation(false)]
    pub fn cards(&self, board_id: i64) -> (r: Vec<Card>)
        ensures
            r.deep_view() == self@.cards.filter(on_board(board_id as int)),
    {
        let mut out: Vec<Card> = Vec::new();
        let mut i: usize = 0;
        while i < self.cards.len()
            invariant
                0 <= i <= self.cards@.len(),
                out.deep_view() =~= self@.cards.take(i as int).filter(on_board(board_id as int)),
            decreases self.cards@.len() - i,
        {
            proof {
                reveal(Seq::filter);
                assert(self@.cards.take(i + 1).drop_last() =~= self@.cards.take(i as int));
                assert(self@.cards.take(i + 1).last() == self@.cards[i as int]);
            }
            if self.cards[i].board_id == board_id {
                out.push(self.cards[i].clone());
                proof {
                    assert(out.deep_view() =~= self@.cards.take(i + 1).filter(
                        on_board(board_id as int),
                    ));
                }
            }
            i = i + 1;
        }
        proof {
            assert(self@.cards.take(self@.cards.len() as int) =~= self@.cards);
        }
        out
    }

    /// Insert a card row for an existing board; the status defaults to
    /// `Todo` and the store assigns id and creation instant. A board id
    /// with no matching row violates the foreign key: no row is created.
    #[verifier::loop_isolation(false)]
    pub fn create_card(&mut self, create_card: CreateCard, now: i64) -> (r: Result<
        Card,
        StoreError,
    >)
        requires
            old(self)@.wf(),
            old(self)@.next_card_id < i64::MAX,
        ensures
            final(self)@.wf(),
            (match r {
                Ok(c) => {
                    &&& has_board(old(self)@.boards, create_card.board_id as int)
                    &&& c@.id == old(self)@.next_card_id
                    &&& c@.board_id == create_card.board_id as int
                    &&& c@.description == create_card.description@
                    &&& c@.status == Status::Todo
                    &&& c@.created_at == now as int
                    &&& final(self)@.cards =~= old(self)@.cards.push(c@)
                    &&& final(self)@.next_card_id == old(self)@.next_card_id + 1
                },
                Err(e) => {
                    &&& e == StoreError::UnknownBoard
                    &&& !has_board(old(self)@.boards, create_card.board_id as int)
                    &&& final(self)@ == old(self)@
                },
            }),
            final(self)@.boards =~= old(self)@.boards,
            final(self)@.tokens =~= old(self)@.tokens,
            final(self)@.next_board_id == old(self)@.next_board_id,
    {
        let mut i: usize = 0;
        let mut found = false;
        while i < self.boards.len()
            invariant
                0 <= i <= self.boards@.len(),
                !found ==> forall|k: int|
                    0 <= k < i ==> (#[trigger] self@.boards[k]).id != create_card.board_id,
                found ==> has_board(self@.boards, create_card.board_id as int),
            decreases self.boards@.len() - i,
        {
            if self.boards[i].id == create_card.board_id {
                found = true;
                proof {
                    assert(self@.boards[i as int].id == create_card.board_id);
                }
            }
            i = i + 1;
        }
        if !found {
            return Err(StoreError::UnknownBoard);
        }
        let card = Card {
            id: self.next_card_id,
            board_id: create_card.board_id,
            description: create_card.description,
            status: Status::Todo,
            created_at: now,
        };
        let result = card.clone();
        self.cards.push(card);
        self.next_card_id = self.next_card_id + 1;
        proof {
            assert(self@.cards =~= old(self)@.cards.push(result@));
            assert(self@.tokens =~= old(self)@.tokens);
            assert forall|a: int, b: int|
                0 <= a < b < self@.tokens.len() implies (#[trigger] self@.tokens[a]).id != (
            #[trigger] self@.tokens[b]).id by {
                assert((old(self)@.tokens[a]).id != (old(self)@.tokens[b]).id);
            }
            assert(self@.boards =~= old(self)@.boards);
            assert forall|a: int, b: int|
                0 <= a < b < self@.boards.len() implies (#[trigger] self@.boards[a]).id != (
            #[trigger] self@.boards[b]).id by {
                assert((old(self)@.boards[a]).id != (old(self)@.boards[b]).id);
            }
            assert forall|a: int|
                0 <= a < self@.boards.len() implies 0 < (#[trigger] self@.boards[a]).id
                < self@.next_board_id by {
                assert(0 < (old(self)@.boards[a]).id < old(self)@.next_board_id);
            }
            assert forall|a: int, b: int|
                0 <= a < b < self@.cards.len() implies (#[trigger] self@.cards[a]).id != (
            #[trigger] self@.cards[b]).id by {
                if b == self@.cards.len() - 1 {
                    assert(self@.cards[a] == old(self)@.cards[a]);
                    assert(old(self)@.cards[a].id < old(self)@.next_card_id);
                }
            }
            assert forall|a: int|
                0 <= a < self@.cards.len() implies 0 < (#[trigger] self@.cards[a]).id
                < self@.next_card_id by {
                if a < old(self)@.cards.len() {
                    assert(self@.cards[a] == old(self)@.cards[a]);
                }
            }
            assert forall|k: int| 0 <= k < self@.cards.len() implies has_board(
                self@.boards,
                (#[trigger] self@.cards[k]).board_id,
            ) by {
                if k < old(self)@.cards.len() {
                    assert(self@.cards[k] == old(self)@.cards[k]);
                    assert(has_board(old(self)@.boards, old(self)@.cards[k].board_id));
                }
            }
        }
        Ok(result)
    }

    /// Replace the description and status of the card row with this id;
    /// id, owning board and creation instant stay as they were. An absent
    /// id violates the exactly-one-updated-row expectation: nothing
    /// changes.
    #[verifier::loop_isolation(false)]
    pub fn update_card(&mut self, card_id: i64, update_card: UpdateCard) -> (r: Result<
        Card,
        StoreError,
    >)
        requires
            old(self)@.wf(),
        ensures
            final(self)@.wf(),
            (match r {
                Ok(c) => {
                    &&& has_card(old(self)@.cards, card_id as int)
                    &&& c@.id == card_id as int
                    &&& c@.description == update_card.description@
                    &&& c@.status == update_card.status
                    &&& c@.board_id == old(self)@.cards[card_index(
                        old(self)@.cards,
                        card_id as int,
                    )].board_id
                    &&& c@.created_at == old(self)@.cards[card_index(
                        old(self)@.cards,
                        card_id as int,
                    )].created_at
                    &&& final(self)@.cards =~= old(self)@.cards.update(
                        card_index(old(self)@.cards, card_id as int),
                        c@,
                    )
                },
                Err(e) => {
                    &&& e == StoreError::UnknownCard
                    &&& !has_card(old(self)@.cards, card_id as int)
                    &&& final(self)@ == old(self)@
                },
            }),
            final(self)@.boards =~= old(self)@.boards,
            final(self)@.tokens =~= old(self)@.tokens,
            final(self)@.next_board_id == old(self)@.next_board_id,
            final(self)@.next_card_id == old(self)@.next_card_id,
    {
        let mut i: usize = 0;
        while i < self.cards.len()
            invariant
                old(self)@.wf(),
                self@ == old(self)@,
                0 <= i <= self.cards@.len(),
                forall|k: int| 0 <= k < i ==> (#[trigger] self@.cards[k]).id != card_id,
            decreases self.cards@.len() - i,
        {
            if self.cards[i].id == card_id {
                let updated = Card {
                    id: card_id,
                    board_id: self.cards[i].board_id,
                    description: update_card.description,
                    status: update_card.status,
                    created_at: self.cards[i].created_at,
                };
                let result = updated.clone();
                proof {
                    assert(old(self)@.cards[i as int].id == card_id);
                    assert forall|k: int|
                        0 <= k < old(self)@.cards.len() && old(self)@.cards[k].id
                            == card_id as int implies k == i as int by {
                        if k != i as int {
                            assert(old(self)@.cards[k].id != old(self)@.cards[i as int].id);
                        }
                    }
                    assert(card_index(old(self)@.cards, card_id as int) == i as int);
                }
                self.cards[i] = updated;
                proof {
                    assert(self@.cards =~= old(self)@.cards.update(i as int, result@));
                    assert(self@.tokens =~= old(self)@.tokens);
                    assert forall|a: int, b: int|
                        0 <= a < b < self@.tokens.len() implies (#[trigger] self@.tokens[a]).id != (
                    #[trigger] self@.tokens[b]).id by {
                        assert((old(self)@.tokens[a]).id != (old(self)@.tokens[b]).id);
                    }
                    assert(self@.boards =~= old(self)@.boards);
                    assert forall|a: int, b: int|
                        0 <= a < b < self@.boards.len() implies (#[trigger] self@.boards[a]).id
                        != (#[trigger] self@.boards[b]).id by {
                        assert((old(self)@.boards[a]).id != (old(self)@.boards[b]).id);
                    }
                    assert forall|a: int|
                        0 <= a < self@.boards.len() implies 0 < (#[trigger] self@.boards[a]).id
                        < self@.next_board_id by {
                        assert(0 < (old(self)@.boards[a]).id < old(self)@.next_board_id);
                    }
                    assert forall|k: int|
                        0 <= k < self@.cards.len() implies (#[trigger] self@.cards[k]).id == old(
                        self,
                    )@.cards[k].id && self@.cards[k].board_id == old(self)@.cards[k].board_id by {
                        if k != i as int {
                            assert(self@.cards[k] == old(self)@.cards[k]);
                        }
                    }
                    assert forall|k: int| 0 <= k < self@.cards.len() implies has_board(
                        self@.boards,
                        (#[trigger] self@.cards[k]).board_id,
                    ) by {
                        assert(has_board(old(self)@.boards, old(self)@.cards[k].board_id));
                    }
                    assert forall|a: int, b: int|
                        0 <= a < b < self@.cards.len() implies (#[trigger] self@.cards[a]).id
                        != (#[trigger] self@.cards[b]).id by {
                        assert(old(self)@.cards[a].id != old(self)@.cards[b].id);
                    }
                    assert forall|a: int|
                        0 <= a < self@.cards.len() implies 0 < (#[trigger] self@.cards[a]).id
                        < self@.next_card_id by {
                        assert(self@.cards[a].id == old(self)@.cards[a].id);
                    }
                }
                return Ok(result);
            }
            i = i + 1;
        }
        Err(StoreError::UnknownCard)
    }

    /// Delete the card row with this id. Deleting an absent id removes no
    /// row and still succeeds.
    #[verifier::loop_isolation(false)]
    pub fn delete_card(&mut self, card_id: i64)
        requires
            old(self)@.wf(),
        ensures
            final(self)@.wf(),
            final(self)@.cards =~= old(self)@.cards.filter(keep_card(card_id as int)),
            final(self)@.boards =~= old(self)@.boards,
            final(self)@.tokens =~= old(self)@.tokens,
            final(self)@.next_board_id == old(self)@.next_board_id,
            final(self)@.next_card_id == old(self)@.next_card_id,
    {
        let ghost old_view = self@;
        let mut kept: Vec<Card> = Vec::new();
        let mut i: usize = 0;
        while i < self.cards.len()
            invariant
                0 <= i <= self.cards@.len(),
                self@ == old_view,
                kept.deep_view() =~= old_view.cards.take(i as int).filter(
                    keep_card(card_id as int),
                ),
            decreases self.cards@.len() - i,
        {
            proof {
                reveal(Seq::filter);
                assert(old_view.cards.take(i + 1).drop_last() =~= old_view.cards.take(i as int));
                assert(old_view.cards.take(i + 1).last() == old_view.cards[i as int]);
            }
            if self.cards[i].id != card_id {
                kept.push(self.cards[i].clone());
                proof {
                    assert(kept.deep_view() =~= old_view.cards.take(i + 1).filter(
                        keep_card(card_id as int),
                    ));
                }
            }
            i = i + 1;
        }
        self.cards = kept;
        proof {
            assert(old_view.cards.take(old_view.cards.len() as int) =~= old_view.cards);
            lemma_delete_card_wf(old_view, self@, card_id as int);
        }
    }
}

proof fn lemma_delete_board_wf(pre: StoreView, post: StoreView, board_id: int)
    requires
        pre.wf(),
        post.boards == pre.boards.filter(keep_board(board_id)),
        post.cards == pre.cards.filter(keep_off_board(board_id)),
        post.tokens == pre.tokens,
        post.next_board_id == pre.next_board_id,
        post.next_card_id == pre.next_card_id,
    ensures
        post.wf(),
{
    lemma_filter_subset(pre.boards, keep_board(board_id));
    lemma_filter_subset(pre.cards, keep_off_board(board_id));
    lemma_filter_distinct_keys(pre.boards, keep_board(board_id), |b: BoardView| b.id);
    lemma_filter_distinct_keys(pre.cards, keep_off_board(board_id), |c: CardView| c.id);
    assert forall|i: int| 0 <= i < post.boards.len() implies 0 < (
    #[trigger] post.boards[i]).id < post.next_board_id by {
        let j = choose|j: int| 0 <= j < pre.boards.len() && pre.boards[j] == post.boards[i];
        assert(0 < pre.boards[j].id < pre.next_board_id);
    }
    assert forall|i: int| 0 <= i < post.cards.len() implies 0 < (#[trigger] post.cards[i]).id
        < post.next_card_id by {
        let j = choose|j: int| 0 <= j < pre.cards.len() && pre.cards[j] == post.cards[i];
        assert(0 < pre.cards[j].id < pre.next_card_id);
    }
    assert forall|i: int| 0 <= i < post.cards.len() implies has_board(
        post.boards,
        (#[trigger] post.cards[i]).board_id,
    ) by {
        let j = choose|j: int| 0 <= j < pre.cards.len() && pre.cards[j] == post.cards[i];
        assert(keep_off_board(board_id)(post.cards[i]));
        let k = choose|k: int|
            0 <= k < pre.boards.len() && (#[trigger] pre.boards[k]).id == pre.cards[j].board_id;
        assert(keep_board(board_id)(pre.boards[k]));
        assert(pre.boards.filter(keep_board(board_id)).contains(pre.boards[k]));
        let m = choose|m: int|
            0 <= m < post.boards.len() && post.boards[m] == pre.boards[k];
        assert(post.boards[m].id == post.cards[i].board_id);
    }
}

proof fn lemma_delete_card_wf(pre: StoreView, post: StoreView, card_id: int)
    requires
        pre.wf(),
        post.cards == pre.cards.filter(keep_card(card_id)),
        post.boards == pre.boards,
        post.tokens == pre.tokens,
        post.next_board_id == pre.next_board_id,
        post.next_card_id == pre.next_card_id,
    ensures
        post.wf(),
{
    lemma_filter_subset(pre.cards, keep_card(card_id));
    lemma_filter_distinct_keys(pre.cards, keep_card(card_id), |c: CardView| c.id);
    assert forall|i: int| 0 <= i < post.cards.len() implies 0 < (#[trigger] post.cards[i]).id
        < post.next_card_id && has_board(post.boards, post.cards[i].board_id) by {
        let j = choose|j: int| 0 <= j < pre.cards.len() && pre.cards[j] == post.cards[i];
        assert(0 < pre.cards[j].id < pre.next_card_id);
        assert(has_board(pre.boards, pre.cards[j].board_id));
    }
}

/// A board id that no card row names counts zero for every status, so an
/// unknown or empty board summarizes to the all-zero summary rather than
/// an error.
pub proof fn lemma_count_status_absent(cards: Seq<CardView>, board_id: int, status: Status)
    requires
        forall|i: int| 0 <= i < cards.len() ==> (#[trigger] cards[i]).board_id != board_id,
    ensures
        count_status(cards, board_id, status) == 0,
    decreases cards.len(),
{
    if cards.len() > 0 {
        let dl = cards.drop_last();
        assert forall|i: int| 0 <= i < dl.len() implies (#[trigger] dl[i]).board_id
            != board_id by {
            assert(dl[i] == cards[i]);
        }
        lemma_count_status_absent(dl, board_id, status);
    }
}

/// Deleting a board id with no matching row is the identity on the store:
/// no board row and no card row changes.
pub proof fn lemma_delete_absent_board_identity(m: StoreView, board_id: int)
    requires
        m.wf(),
        !has_board(m.boards, board_id),
    ensures
        m.boards.filter(keep_board(board_id)) == m.boards,
        m.cards.filter(keep_off_board(board_id)) == m.cards,
{
    assert forall|i: int| 0 <= i < m.boards.len() implies keep_board(board_id)(
        #[trigger] m.boards[i],
    ) by {
        if m.boards[i].id == board_id {
            assert(has_board(m.boards, board_id));
        }
    }
    lemma_filter_keeps_all(m.boards, keep_board(board_id));
    assert forall|i: int| 0 <= i < m.cards.len() implies keep_off_board(board_id)(
        #[trigger] m.cards[i],
    ) by {
        if m.cards[i].board_id == board_id {
            assert(has_board(m.boards, board_id));
        }
    }
    lemma_filter_keeps_all(m.cards, keep_off_board(board_id));
}

/// Deleting a card id with no matching row is the identity on the card
/// table.
pub proof fn lemma_delete_absent_card_identity(cards: Seq<CardView>, card_id: int)
    requires
        !has_card(cards, card_id),
    ensures
        cards.filter(keep_card(card_id)) == cards,
{
    assert forall|i: int| 0 <= i < cards.len() implies keep_card(card_id)(
        #[trigger] cards[i],
    ) by {
        if cards[i].id == card_id {
            assert(has_card(cards, card_id));
        }
    }
    lemma_filter_keeps_all(cards, keep_card(card_id));
}

/// The round trip of creating a card and then updating it under the id
/// the create returned: the update hits exactly the created row, keeps
/// its id, owning board and creation instant, replaces description and
/// status, and the board's card list afterwards is the original list plus
/// exactly the updated row.
pub proof fn lemma_card_round_trip(
    m0: StoreView,
    m1: StoreView,
    m2: StoreView,
    created: CardView,
    updated: CardView,
)
    requires
        m0.wf(),
        // what creating the card ensured
        created.id == m0.next_card_id,
        m1.cards == m0.cards.push(created),
        // what updating under the returned id ensured
        updated.id == created.id,
        updated.board_id == m1.cards[card_index(m1.cards, created.id)].board_id,
        updated.created_at == m1.cards[card_index(m1.cards, created.id)].created_at,
        m2.cards == m1.cards.update(card_index(m1.cards, created.id), updated),
    ensures
        card_index(m1.cards, created.id) == m0.cards.len(),
        updated.board_id == created.board_id,
        updated.created_at == created.created_at,
        m2.cards.filter(on_board(created.board_id)) == m0.cards.filter(
            on_board(created.board_id),
        ).push(updated),
{
    let n = m0.cards.len() as int;
    assert(m1.cards[n] == created);
    assert forall|k: int| 0 <= k < m1.cards.len() && (#[trigger] m1.cards[k]).id
        == created.id implies k == n by {
        if k < n {
            assert(m1.cards[k] == m0.cards[k]);
            assert(m0.cards[k].id < m0.next_card_id);
        }
    }
    assert(card_index(m1.cards, created.id) == n);
    assert(m2.cards =~= m0.cards.push(updated));
    reveal(Seq::filter);
    assert(m2.cards.drop_last() =~= m0.cards);
    assert(m2.cards.last() == updated);
    assert(on_board(created.board_id)(updated));
    assert(m2.cards.filter(on_board(created.board_id)) == m0.cards.filter(
        on_board(created.board_id),
    ).push(updated));
}

} // verus!
