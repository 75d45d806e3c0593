//! The depth-first search over boards: a stack of boards that still have to
//! be looked at, and a step that hands out the next complete board.

use crate::enumeration::{
    completions, completions_below, lemma_completions_len, lemma_used_columns_add_nothing,
    solutions,
};
use crate::permutation::{is_permutation, lemma_factorial_positive};
use crate::placement::{lemma_columns_counted, lemma_full_means_solved, Placement};
use crate::state::{columns, NCastlesState};
use crate::waiting::{
    branches_below, lemma_last_branch, lemma_untried_bound, lemma_used_columns_branch_nowhere,
    lemma_waiting_count, lemma_waiting_in_shape, untried, waiting_under,
};
use vstd::prelude::*;

verus! {

/// A search in progress. Its view is the list of complete boards that it
/// will still hand out, the next one first.
pub struct NCastlesSearch {
    size: isize,
    stack: Vec<NCastlesState>,
}

/// What a stack of boards still yields: the completions of its top board,
/// then what the boards under it yield.
spec fn pending(stack: Seq<NCastlesState>) -> Seq<Seq<int>>
    decreases stack.len(),
{
    if stack.len() == 0 {
        Seq::empty()
    } else {
        completions(stack.last()@.filled, stack.last()@.size) + pending(stack.drop_last())
    }
}

/// The number of boards that the search visits below and including a board
/// with `empty_rows` rows to fill.
spec fn tree_size(empty_rows: nat) -> nat
    decreases empty_rows,
{
    if empty_rows == 0 {
        1
    } else {
        1 + empty_rows * tree_size((empty_rows - 1) as nat)
    }
}

/// The number of boards that the search has yet to visit.
spec fn work(stack: Seq<NCastlesState>) -> nat
    decreases stack.len(),
{
    if stack.len() == 0 {
        0
    } else {
        tree_size((stack.last()@.size - stack.last()@.filled.len()) as nat) + work(
            stack.drop_last(),
        )
    }
}

/// Every board on the stack is well-formed and of the given size.
spec fn stack_in_order(stack: Seq<NCastlesState>, size: int) -> bool {
    forall|i: int|
        0 <= i < stack.len() ==> (#[trigger] stack[i])@.wf() && stack[i]@.size == size
}

/// `rest` is what is left of `all` when some of its first entries are taken
/// away.
pub open spec fn is_rest_of(rest: Seq<Seq<int>>, all: Seq<Seq<int>>) -> bool {
    &&& rest.len() <= all.len()
    &&& rest == all.skip(all.len() - rest.len())
}

/// The rows of the boards on the stack, the bottom board first.
spec fn rows_of(stack: Seq<NCastlesState>) -> Seq<Seq<int>> {
    stack.map_values(|state: NCastlesState| state@.filled)
}

/// Under the top board lie the boards that wait under it, and no others.
spec fn stack_in_shape(stack: Seq<NCastlesState>) -> bool {
    stack.len() > 0 ==> rows_of(stack.drop_last()) == waiting_under(stack.last()@.filled)
}

/// The column of the branch that is pushed next, or the board's size once
/// all are pushed.
spec fn reached(free: Seq<isize>, next: int, size: int) -> int {
    if next < free.len() {
        free[next] as int
    } else {
        size
    }
}

/// The first column above those that the branches pushed so far have
/// dealt with: the one after the free column before `next`.
spec fn passed(free: Seq<isize>, next: int) -> int {
    if next == 0 {
        0
    } else {
        free[next - 1] + 1
    }
}

/// The free columns of `board`, lowest first.
spec fn lists_free_columns(free: Seq<isize>, board: Placement) -> bool {
    &&& forall|i: int, j: int| 0 <= i < j < free.len() ==> free[i] < free[j]
    &&& forall|c: int| columns(free).contains(c) <==> board.unused.contains(c)
}

/// Between one free column and the next, every column is used.
proof fn lemma_gap_is_used(board: Placement, free: Seq<isize>, next: int)
    requires
        board.wf(),
        lists_free_columns(free, board),
        0 <= next <= free.len(),
    ensures
        0 <= passed(free, next) <= reached(free, next, board.size) <= board.size,
        forall|c: int|
            passed(free, next) <= c < reached(free, next, board.size) ==> board.filled.contains(c),
{
    // The neighbours are free columns, and so they lie on the board.
    if next < free.len() {
        assert(columns(free)[next] == free[next]);
        assert(board.unused.contains(free[next] as int));
    }
    if next > 0 {
        assert(columns(free)[next - 1] == free[next - 1]);
        assert(board.unused.contains(free[next - 1] as int));
    }
    assert forall|c: int|
        passed(free, next) <= c < reached(free, next, board.size) implies board.filled.contains(
        c,
    ) by {
        if board.unused.contains(c) {
            // `c` would stand in the list, strictly between two neighbours.
            let k = choose|k: int| 0 <= k < free.len() && columns(free)[k] == c;
            assert(free[k] == c);
        }
    }
}

impl View for NCastlesSearch {
    type V = Seq<Seq<int>>;

    closed spec fn view(&self) -> Seq<Seq<int>> {
        pending(self.stack@)
    }
}

impl NCastlesSearch {
    /// The size of the boards that this search places castles on.
    pub closed spec fn board_size(&self) -> int {
        self.size as int
    }

    /// The number of boards that wait on the stack.
    pub closed spec fn frontier(&self) -> nat {
        self.stack@.len()
    }

    /// The stack is in order and in shape, and what the search will still
    /// hand out is the rest of the list of all complete boards of its size.
    pub closed spec fn wf(&self) -> bool {
        &&& 0 <= self.size
        &&& stack_in_order(self.stack@, self.size as int)
        &&& stack_in_shape(self.stack@)
        &&& is_rest_of(pending(self.stack@), solutions(self.size as int))
    }

    /// What a search will still hand out is the list of all complete boards
    /// of its size without those that it has handed out: nothing comes
    /// twice, and nothing is left out.
    pub proof fn lemma_rest_of_solutions(&self)
        requires
            self.wf(),
        ensures
            is_rest_of(self@, solutions(self.board_size())),
    {
    }

    /// The size of the boards that this search places castles on.
    pub fn size(&self) -> (size: isize)
        ensures
            size == self.board_size(),
    {
        self.size
    }

    /// The number of boards that wait on the stack. However many complete
    /// boards are still to come, it stays within the square of the size.
    pub fn frontier_len(&self) -> (count: usize)
        requires
            self.wf(),
        ensures
            count == self.frontier(),
            count <= self.board_size() * self.board_size() + 1,
            count == 0 <==> self@.len() == 0,
    {
        proof {
            if self.stack@.len() > 0 {
                let top = self.stack@.last()@;
                let rows = top.filled.len() as int;
                let n = self.size as int;
                // The top board has completions to hand out.
                lemma_full_means_solved(top);
                lemma_completions_len(top.filled, n);
                lemma_factorial_positive((n - rows) as nat);
                // Under it lie the boards that wait under it.
                assert(rows_of(self.stack@.drop_last()).len() == self.stack@.len() - 1);
                lemma_waiting_count(top.filled);
                lemma_untried_bound(top.filled, n);
                assert(rows * n <= n * n) by (nonlinear_arith)
                    requires
                        0 <= rows <= n,
                ;
            }
        }
        self.stack.len()
    }

    /// Hands out the next complete board, or `None` when all have been
    /// handed out.
    pub fn next(&mut self) -> (found: Option<NCastlesState>)
        requires
            old(self).wf(),
        ensures
            final(self).wf(),
            final(self).board_size() == old(self).board_size(),
            match found {
                Some(state) => {
                    &&& old(self)@.len() > 0
                    &&& state@.filled == old(self)@.first()
                    &&& state@.size == old(self).board_size()
                    &&& state@.wf()
                    &&& state@.is_full()
                    &&& state@.is_solution()
                    &&& is_permutation(state@.filled, state@.size)
                    &&& final(self)@ == old(self)@.drop_first()
                    &&& final(self).frontier() == untried(state@.filled)
                },
                None => {
                    &&& old(self)@.len() == 0
                    &&& final(self)@.len() == 0
                    &&& final(self).frontier() == 0
                },
            },
    {
        loop
            invariant
                self.wf(),
                self.size == old(self).size,
                self@ == old(self)@,
            decreases work(self.stack@),
        {
            let ghost before = self.stack@;
            let state = match self.stack.pop() {
                Some(state) => state,
                None => {
                    return None;
                },
            };
            proof {
                assert(before.drop_last() =~= self.stack@);
                lemma_full_means_solved(state@);
            }
            if state.full_filled() {
                proof {
                    let all = solutions(state@.size);
                    let rest = pending(self.stack@);
                    assert(pending(before).drop_first() =~= rest);
                    assert(rest =~= all.skip(all.len() - rest.len()));
                    // What is left on the stack is what waited under the
                    // board.
                    let waiting = waiting_under(state@.filled);
                    assert(rows_of(self.stack@) == waiting);
                    lemma_waiting_count(state@.filled);
                    lemma_waiting_in_shape(state@.filled);
                    if waiting.len() > 0 {
                        assert(rows_of(self.stack@.drop_last()) =~= waiting.drop_last());
                        assert(self.stack@.last()@.filled == waiting.last());
                    }
                }
                return Some(state);
            }
            self.push_branches(state);
        }
    }

    /// Pushes the branches of `state`: for each of its free columns, lowest
    /// first, a copy of the board with its next castle there.
    fn push_branches(&mut self, state: NCastlesState)
        requires
            stack_in_order(old(self).stack@, old(self).size as int),
            rows_of(old(self).stack@) == waiting_under(state@.filled),
            state@.wf(),
            state@.size == old(self).size,
            !state@.is_full(),
        ensures
            final(self).size == old(self).size,
            stack_in_order(final(self).stack@, old(self).size as int),
            stack_in_shape(final(self).stack@),
            pending(final(self).stack@) == completions(state@.filled, state@.size) + pending(
                old(self).stack@,
            ),
            work(final(self).stack@) + 1 == tree_size(
                (state@.size - state@.filled.len()) as nat,
            ) + work(old(self).stack@),
    {
        let ghost rest = self.stack@;
        let ghost board = state@;
        let ghost n = board.size;
        let ghost each = tree_size((n - board.filled.len() - 1) as nat);
        let free = state.unused_columns();
        let mut next: usize = 0;
        proof {
            lemma_columns_counted(board);
            // Below the lowest free column every column is used.
            lemma_gap_is_used(board, free@, 0);
            lemma_used_columns_add_nothing(
                board.filled,
                n,
                passed(free@, 0),
                reached(free@, 0, n),
            );
            lemma_used_columns_branch_nowhere(
                board.filled,
                passed(free@, 0),
                reached(free@, 0, n),
            );
            assert(rows_of(rest) =~= waiting_under(board.filled) + branches_below(
                board.filled,
                0,
            ));
        }
        while next < free.len()
            invariant
                next <= free.len(),
                state@ == board,
                board.wf(),
                n == board.size == self.size == old(self).size,
                lists_free_columns(free@, board),
                free.len() == n - board.filled.len(),
                each == tree_size((n - board.filled.len() - 1) as nat),
                stack_in_order(self.stack@, n),
                self.stack@.len() == rest.len() + next,
                rows_of(self.stack@) == waiting_under(board.filled) + branches_below(
                    board.filled,
                    reached(free@, next as int, n),
                ),
                pending(self.stack@) == completions_below(
                    board.filled,
                    n,
                    reached(free@, next as int, n),
                ) + pending(rest),
                work(self.stack@) == work(rest) + next * each,
            decreases free.len() - next,
        {
            let column: isize = free[next];
            let ghost below = self.stack@;
            proof {
                lemma_gap_is_used(board, free@, next as int + 1);
                assert(columns(free@)[next as int] == column);
                assert(board.unused.contains(column as int));
            }
            if state.valid_at(column) {
                let mut branch = state.clone();
                branch.go_walk(column);
                self.stack.push(branch);
                proof {
                    // The new top yields the completions with `column` in
                    // the next row. From there up to the next free column
                    // every column is used and yields nothing.
                    assert(self.stack@.drop_last() =~= below);
                    lemma_used_columns_add_nothing(
                        board.filled,
                        n,
                        passed(free@, next as int + 1),
                        reached(free@, next as int + 1, n),
                    );
                    lemma_used_columns_branch_nowhere(
                        board.filled,
                        passed(free@, next as int + 1),
                        reached(free@, next as int + 1, n),
                    );
                    assert(rows_of(self.stack@) =~= rows_of(below).push(
                        board.filled.push(column as int),
                    ));
                    assert(rows_of(self.stack@) =~= waiting_under(board.filled) + branches_below(
                        board.filled,
                        column as int + 1,
                    ));
                    assert((next + 1) * each == next * each + each) by (nonlinear_arith);
                }
            }
            next = next + 1;
        }
        proof {
            // The last branch is on top, and under it lie the boards that
            // waited before and the other branches.
            let branches = branches_below(board.filled, n);
            let top = self.stack@.last()@.filled;
            assert(rows_of(self.stack@).len() == self.stack@.len());
            assert(rows_of(rest).len() == rest.len());
            lemma_last_branch(board.filled, n);
            assert(top == rows_of(self.stack@).last());
            assert(top == branches.last());
            assert(rows_of(self.stack@.drop_last()) =~= rows_of(self.stack@).drop_last());
            assert(rows_of(self.stack@).drop_last() =~= waiting_under(board.filled)
                + branches.drop_last());
            assert(top.drop_last() == board.filled);
        }
    }
}

impl NCastlesSearch {
    /// Runs the search to its end and hands out, in order, all the boards
    /// that were still to come.
    pub fn collect(self) -> (boards: Vec<NCastlesState>)
        requires
            self.wf(),
        ensures
            boards.len() == self@.len(),
            forall|i: int|
                0 <= i < boards.len() ==> {
                    &&& (#[trigger] boards[i])@.filled == self@[i]
                    &&& boards[i]@.size == self.board_size()
                    &&& boards[i]@.wf()
                    &&& boards[i]@.is_full()
                },
    {
        let mut search = self;
        let mut boards: Vec<NCastlesState> = Vec::new();
        loop
            invariant
                search.wf(),
                search.board_size() == self.board_size(),
                search@ == self@.skip(boards.len() as int),
                boards.len() <= self@.len(),
                forall|i: int|
                    0 <= i < boards.len() ==> {
                        &&& (#[trigger] boards[i])@.filled == self@[i]
                        &&& boards[i]@.size == self.board_size()
                        &&& boards[i]@.wf()
                        &&& boards[i]@.is_full()
                    },
            decreases search@.len(),
        {
            match search.next() {
                Some(board) => {
                    boards.push(board);
                },
                None => {
                    return boards;
                },
            }
        }
    }
}

/// Starts the search for all ways to place `size` castles on a board of that
/// size. The boards come out one by one, in descending dictionary order.
pub fn n_castles_backtrack(size: usize) -> (search: NCastlesSearch)
    requires
        size <= isize::MAX,
    ensures
        search.wf(),
        search.board_size() == size,
        search.frontier() == 1,
        search@ == solutions(size as int),
{
    let stack = vec![NCastlesState::new(size)];
    let search = NCastlesSearch { size: size as isize, stack };
    proof {
        assert(pending(search.stack@.drop_last()) =~= Seq::empty());
        assert(rows_of(search.stack@.drop_last()) =~= Seq::empty());
        assert(solutions(size as int).skip(0) =~= solutions(size as int));
    }
    search
}

} // verus!
