//! The mathematical model of a board: which column each filled row uses and
//! which columns are still free.

use vstd::prelude::*;
use vstd::set_lib::{lemma_int_range, lemma_len_subset, lemma_set_disjoint_lens, set_int_range};

verus! {

/// What a board holds, as plain mathematics.
///
/// Row `i` has its castle in column `filled[i]`; the rows from
/// `filled.len()` on are still empty, and `unused` are the columns that no
/// filled row occupies.
#[verifier::ext_equal]
pub struct Placement {
    pub size: int,
    pub filled: Seq<int>,
    pub unused: Set<int>,
}

impl Placement {
    /// The board of the given size with no castle on it.
    pub open spec fn fresh(size: int) -> Placement {
        Placement { size, filled: Seq::empty(), unused: Set::new(|c: int| 0 <= c < size) }
    }

    /// The columns used so far are pairwise distinct and lie on the board,
    /// and `unused` holds exactly the columns of the board that are not used.
    pub open spec fn wf(self) -> bool {
        &&& 0 <= self.size
        &&& self.filled.no_duplicates()
        &&& forall|i: int| 0 <= i < self.filled.len() ==> 0 <= #[trigger] self.filled[i] < self.size
        &&& forall|c: int|
            #[trigger] self.unused.contains(c) <==> 0 <= c < self.size && !self.filled.contains(c)
    }

    /// No column is left to place.
    pub open spec fn is_full(self) -> bool {
        forall|c: int| !self.unused.contains(c)
    }

    /// Every column of the board is used by some row.
    pub open spec fn is_solution(self) -> bool {
        forall|c: int| 0 <= c < self.size ==> self.filled.contains(c)
    }

    /// No filled row uses `column` yet.
    pub open spec fn valid_at(self, column: int) -> bool {
        !self.filled.contains(column)
    }

    /// The board after the next empty row got its castle in `column`.
    pub open spec fn place(self, column: int) -> Placement {
        Placement {
            size: self.size,
            filled: self.filled.push(column),
            unused: self.unused.remove(column),
        }
    }

    /// The board after the castle of the last filled row was taken off again;
    /// the empty board stays as it is.
    pub open spec fn unplace(self) -> Placement {
        if self.filled.len() == 0 {
            self
        } else {
            Placement {
                size: self.size,
                filled: self.filled.drop_last(),
                unused: self.unused.insert(self.filled.last()),
            }
        }
    }
}

/// Taking back what was just placed gives the board from before: the rows
/// and the free columns are what they were.
pub proof fn lemma_place_unplace(p: Placement, column: int)
    requires
        p.unused.contains(column),
    ensures
        p.place(column).unplace() == p,
{
}

/// Placing again what was just taken back gives the board from before, too:
/// the two moves are inverses of each other.
pub proof fn lemma_unplace_place(p: Placement)
    requires
        p.wf(),
        p.filled.len() > 0,
    ensures
        p.unplace().unused.contains(p.filled.last()),
        p.unplace().place(p.filled.last()) == p,
{
}

/// The empty board is well-formed, with every column free.
pub proof fn lemma_fresh_wf(size: int)
    requires
        0 <= size,
    ensures
        Placement::fresh(size).wf(),
{
}

/// On a well-formed board every column is either used by exactly one row or
/// free: the filled rows and the free columns together number `size`.
pub proof fn lemma_columns_counted(p: Placement)
    requires
        p.wf(),
    ensures
        p.unused.finite(),
        p.filled.len() + p.unused.len() == p.size,
{
    let used = p.filled.to_set();
    let board = set_int_range(0, p.size);
    p.filled.unique_seq_to_set();
    lemma_int_range(0, p.size);
    lemma_len_subset(p.unused, board);
    assert(used + p.unused =~= board);
    lemma_set_disjoint_lens(used, p.unused);
}

/// On a well-formed board three things say the same: no column is free, every
/// row has its castle, and every column of the board is used.
pub proof fn lemma_full_means_solved(p: Placement)
    requires
        p.wf(),
    ensures
        p.is_full() <==> p.filled.len() == p.size,
        p.is_full() <==> p.is_solution(),
        p.filled.len() <= p.size,
{
    lemma_columns_counted(p);
    if p.is_full() {
        assert(p.unused =~= Set::empty());
        assert forall|c: int| 0 <= c < p.size implies p.filled.contains(c) by {
            assert(!p.unused.contains(c));
        }
    }
}

/// Placing a free column keeps the board well-formed.
pub proof fn lemma_place_wf(p: Placement, column: int)
    requires
        p.wf(),
        p.unused.contains(column),
    ensures
        p.place(column).wf(),
{
    let q = p.place(column);
    assert forall|c: int| q.filled.contains(c) <==> (p.filled.contains(c) || c == column) by {
        if p.filled.contains(c) {
            let i = choose|i: int| 0 <= i < p.filled.len() && p.filled[i] == c;
            assert(q.filled[i] == c);
        }
        if c == column {
            assert(q.filled[p.filled.len() as int] == c);
        }
    }
}

/// Taking the last castle off keeps the board well-formed.
pub proof fn lemma_unplace_wf(p: Placement)
    requires
        p.wf(),
    ensures
        p.unplace().wf(),
{
    if p.filled.len() > 0 {
        let q = p.unplace();
        let last = p.filled.last();
        assert forall|c: int| q.filled.contains(c) <==> (p.filled.contains(c) && c != last) by {
            if p.filled.contains(c) && c != last {
                let i = choose|i: int| 0 <= i < p.filled.len() && p.filled[i] == c;
                assert(q.filled[i] == c);
            }
        }
    }
}

} // verus!
