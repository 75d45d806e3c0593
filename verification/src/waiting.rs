//! The boards that wait while a search is under way: the branches that it
//! has not tried yet.

use crate::permutation::{free_below, lemma_free_below_bound};
use vstd::prelude::*;

verus! {

/// How many boards wait once `board` has been handed out: for each of its
/// rows, one for every free column below the column that the row has.
pub open spec fn untried(board: Seq<int>) -> nat
    decreases board.len(),
{
    if board.len() == 0 {
        0
    } else {
        untried(board.drop_last()) + free_below(board.drop_last(), board.last())
    }
}

/// The boards that have `prefix` in their first rows and in the next a free
/// column below `bound`, the lowest column first.
pub open spec fn branches_below(prefix: Seq<int>, bound: int) -> Seq<Seq<int>>
    decreases bound,
{
    if bound <= 0 {
        Seq::empty()
    } else if prefix.contains(bound - 1) {
        branches_below(prefix, bound - 1)
    } else {
        branches_below(prefix, bound - 1).push(prefix.push(bound - 1))
    }
}

/// The boards that lie under `board` on the stack: for each of its rows,
/// the first row first, the branches that have a lower column in that row.
pub open spec fn waiting_under(board: Seq<int>) -> Seq<Seq<int>>
    decreases board.len(),
{
    if board.len() == 0 {
        Seq::empty()
    } else {
        waiting_under(board.drop_last()) + branches_below(board.drop_last(), board.last())
    }
}

/// Columns that `prefix` uses give no branches: a bound may move across
/// them.
pub proof fn lemma_used_columns_branch_nowhere(prefix: Seq<int>, low: int, high: int)
    requires
        low <= high,
        forall|c: int| low <= c < high ==> prefix.contains(c),
    ensures
        branches_below(prefix, high) == branches_below(prefix, low),
    decreases high - low,
{
    if low < high {
        lemma_used_columns_branch_nowhere(prefix, low, high - 1);
    }
}

/// There are as many branches as free columns.
pub proof fn lemma_branches_count(prefix: Seq<int>, bound: int)
    ensures
        branches_below(prefix, bound).len() == free_below(prefix, bound),
    decreases bound,
{
    if bound > 0 {
        lemma_branches_count(prefix, bound - 1);
    }
}

/// As many boards wait under a board as `untried` says.
pub proof fn lemma_waiting_count(board: Seq<int>)
    ensures
        waiting_under(board).len() == untried(board),
    decreases board.len(),
{
    if board.len() > 0 {
        lemma_waiting_count(board.drop_last());
        lemma_branches_count(board.drop_last(), board.last());
    }
}

/// The last of the branches has the highest free column, and before it
/// stand the branches below that column.
pub proof fn lemma_last_branch(prefix: Seq<int>, bound: int)
    requires
        branches_below(prefix, bound).len() > 0,
    ensures
        branches_below(prefix, bound).last().len() == prefix.len() + 1,
        branches_below(prefix, bound).last().drop_last() == prefix,
        branches_below(prefix, bound).drop_last() == branches_below(
            prefix,
            branches_below(prefix, bound).last().last(),
        ),
    decreases bound,
{
    if prefix.contains(bound - 1) {
        lemma_last_branch(prefix, bound - 1);
    } else {
        let last = prefix.push(bound - 1);
        assert(last.drop_last() =~= prefix);
        assert(branches_below(prefix, bound).drop_last() =~= branches_below(prefix, bound - 1));
    }
}

/// When the top board leaves the stack, the next board is on top of what
/// waits under it.
pub proof fn lemma_waiting_in_shape(board: Seq<int>)
    ensures
        waiting_under(board).len() > 0 ==> waiting_under(board).drop_last() == waiting_under(
            waiting_under(board).last(),
        ),
    decreases board.len(),
{
    if board.len() > 0 {
        let shorter = board.drop_last();
        let branches = branches_below(shorter, board.last());
        if branches.len() == 0 {
            lemma_waiting_in_shape(shorter);
            assert(waiting_under(board) =~= waiting_under(shorter));
        } else {
            lemma_last_branch(shorter, board.last());
            let top = branches.last();
            assert(waiting_under(board).last() == top);
            assert(waiting_under(board).drop_last() =~= waiting_under(shorter)
                + branches.drop_last());
        }
    }
}

/// No more boards wait under a board than it has rows, times the size.
pub proof fn lemma_untried_bound(board: Seq<int>, n: int)
    requires
        forall|i: int| 0 <= i < board.len() ==> 0 <= #[trigger] board[i] < n,
    ensures
        untried(board) <= board.len() * n,
    decreases board.len(),
{
    if board.len() > 0 {
        let shorter = board.drop_last();
        lemma_untried_bound(shorter, n);
        lemma_free_below_bound(shorter, board.last());
        assert(shorter.len() * n + n == board.len() * n) by (nonlinear_arith)
            requires
                shorter.len() + 1 == board.len(),
        ;
    } else {
        assert(0 * n == 0) by (nonlinear_arith);
    }
}

} // verus!
