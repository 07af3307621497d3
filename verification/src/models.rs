//! The data model: tokens, boards, cards, and the derived per-board summary.
//!
//! Each persistent type carries a ghost view (`TokenView`, `BoardView`,
//! `CardView`) over which every contract in the crate is stated: strings
//! become `Seq<char>`, machine integers become `int`.

use vstd::prelude::*;

verus! {

/// A caller's credential: an opaque id and an expiry instant (seconds since
/// the epoch). Tokens are created and rotated outside this system; it only
/// ever reads them.
pub struct Token {
    pub id: String,
    pub expired_at: i64,
}

#[verifier::ext_equal]
pub ghost struct TokenView {
    pub id: Seq<char>,
    pub expired_at: int,
}

impl View for Token {
    type V = TokenView;

    open spec fn view(&self) -> TokenView {
        TokenView { id: self.id@, expired_at: self.expired_at as int }
    }
}

impl DeepView for Token {
    type V = TokenView;

    open spec fn deep_view(&self) -> TokenView {
        self.view()
    }
}

impl Clone for Token {
    fn clone(&self) -> (r: Self)
        ensures
            r@ == self@,
    {
        Token { id: self.id.clone(), expired_at: self.expired_at }
    }
}

/// A board; the store assigns `id` and `created_at` on creation.
pub struct Board {
    pub id: i64,
    pub name: String,
    pub created_at: i64,
}

#[verifier::ext_equal]
pub ghost struct BoardView {
    pub id: int,
    pub name: Seq<char>,
    pub created_at: int,
}

impl View for Board {
    type V = BoardView;

    open spec fn view(&self) -> BoardView {
        BoardView { id: self.id as int, name: self.name@, created_at: self.created_at as int }
    }
}

impl DeepView for Board {
    type V = BoardView;

    open spec fn deep_view(&self) -> BoardView {
        self.view()
    }
}

impl Clone for Board {
    fn clone(&self) -> (r: Self)
        ensures
            r@ == self@,
    {
        Board { id: self.id, name: self.name.clone(), created_at: self.created_at }
    }
}

/// The workflow state of a card.
#[derive(Clone, Copy, PartialEq, Eq, Structural, Debug)]
pub enum Status {
    Todo,
    Doing,
    Done,
}

/// A card on a board; `board_id` always refers to an existing board.
pub struct Card {
    pub id: i64,
    pub board_id: i64,
    pub description: String,
    pub status: Status,
    pub created_at: i64,
}

#[verifier::ext_equal]
pub ghost struct CardView {
    pub id: int,
    pub board_id: int,
    pub description: Seq<char>,
    pub status: Status,
    pub created_at: int,
}

impl View for Card {
    type V = CardView;

    open spec fn view(&self) -> CardView {
        CardView {
            id: self.id as int,
            board_id: self.board_id as int,
            description: self.description@,
            status: self.status,
            created_at: self.created_at as int,
        }
    }
}

impl DeepView for Card {
    type V = CardView;

    open spec fn deep_view(&self) -> CardView {
        self.view()
    }
}

impl Clone for Card {
    fn clone(&self) -> (r: Self)
        ensures
            r@ == self@,
    {
        Card {
            id: self.id,
            board_id: self.board_id,
            description: self.description.clone(),
            status: self.status,
            created_at: self.created_at,
        }
    }
}

/// Card counts for one board, one field per status; derived on demand and
/// never persisted.
#[derive(Clone, Copy, PartialEq, Eq, Structural, Debug)]
pub struct BoardSummary {
    pub todo: i64,
    pub doing: i64,
    pub done: i64,
}

impl Default for BoardSummary {
    fn default() -> (r: Self)
        ensures
            r.todo == 0 && r.doing == 0 && r.done == 0,
    {
        BoardSummary { todo: 0, doing: 0, done: 0 }
    }
}

/// The total of the counts in `counts` whose status equals `status`.
pub open spec fn count_sum(counts: Seq<(i64, Status)>, status: Status) -> int
    decreases counts.len(),
{
    if counts.len() == 0 {
        0
    } else {
        count_sum(counts.drop_last(), status) + if counts.last().1 == status {
            counts.last().0 as int
        } else {
            0
        }
    }
}

proof fn lemma_count_sum_take_le(counts: Seq<(i64, Status)>, status: Status, n: int)
    requires
        0 <= n <= counts.len(),
        forall|i: int| 0 <= i < counts.len() ==> counts[i].0 >= 0,
    ensures
        0 <= count_sum(counts.take(n), status) <= count_sum(counts, status),
    decreases counts.len(),
{
    if counts.len() == 0 {
    } else if n == counts.len() {
        assert(counts.take(n) =~= counts);
        lemma_count_sum_take_le(counts.drop_last(), status, n - 1);
        assert(counts.drop_last() =~= counts.take(n - 1));
    } else {
        lemma_count_sum_take_le(counts.drop_last(), status, n);
        assert(counts.drop_last().take(n) =~= counts.take(n));
    }
}

impl BoardSummary {
    /// Fold grouped per-status counts (as the store reports them) into one
    /// summary; statuses that never occur stay at zero.
    pub fn from_counts(counts: &Vec<(i64, Status)>) -> (r: BoardSummary)
        requires
            forall|i: int| 0 <= i < counts@.len() ==> counts@[i].0 >= 0,
            count_sum(counts@, Status::Todo) <= i64::MAX,
            count_sum(counts@, Status::Doing) <= i64::MAX,
            count_sum(counts@, Status::Done) <= i64::MAX,
        ensures
            r.todo == count_sum(counts@, Status::Todo),
            r.doing == count_sum(counts@, Status::Doing),
            r.done == count_sum(counts@, Status::Done),
    {
        let mut summary = BoardSummary::default();
        let mut i: usize = 0;
        while i < counts.len()
            invariant
                0 <= i <= counts@.len(),
                forall|k: int| 0 <= k < counts@.len() ==> counts@[k].0 >= 0,
                count_sum(counts@, Status::Todo) <= i64::MAX,
                count_sum(counts@, Status::Doing) <= i64::MAX,
                count_sum(counts@, Status::Done) <= i64::MAX,
                summary.todo == count_sum(counts@.take(i as int), Status::Todo),
                summary.doing == count_sum(counts@.take(i as int), Status::Doing),
                summary.done == count_sum(counts@.take(i as int), Status::Done),
            decreases counts@.len() - i,
        {
            let (count, status) = counts[i];
            proof {
                assert(counts@.take(i + 1).drop_last() =~= counts@.take(i as int));
                lemma_count_sum_take_le(counts@, Status::Todo, i + 1);
                lemma_count_sum_take_le(counts@, Status::Doing, i + 1);
                lemma_count_sum_take_le(counts@, Status::Done, i + 1);
                lemma_count_sum_take_le(counts@, Status::Todo, i as int);
                lemma_count_sum_take_le(counts@, Status::Doing, i as int);
                lemma_count_sum_take_le(counts@, Status::Done, i as int);
            }
            match status {
                Status::Todo => summary.todo = summary.todo + count,
                Status::Doing => summary.doing = summary.doing + count,
                Status::Done => summary.done = summary.done + count,
            }
            i = i + 1;
        }
        proof {
            assert(counts@.take(counts@.len() as int) =~= counts@);
        }
        summary
    }
}

/// Request payload for creating a board.
pub struct CreateBoard {
    pub name: String,
}

/// Request payload for creating a card on a board.
pub struct CreateCard {
    pub board_id: i64,
    pub description: String,
}

/// Request payload for replacing a card's description and status.
pub struct UpdateCard {
    pub description: String,
    pub status: Status,
}

} // verus!
