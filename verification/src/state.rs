//! The board as the search holds it: the columns chosen so far, row by row,
//! and the set of columns that are still free.

use crate::placement::{lemma_place_wf, lemma_unplace_wf, Placement};
use std::collections::BTreeSet;
use vstd::laws_cmp::obeys_cmp;
use vstd::prelude::*;
use vstd::std_specs::btree::{increasing_seq, spec_btree_keys_iter};
use vstd::std_specs::cmp::OrdSpec;
use vstd::std_specs::iter::IteratorSpec;

verus! {

/// A partial or complete assignment of castles to the rows of a board.
#[derive(Debug)]
pub struct NCastlesState {
    size: isize,
    filled: Vec<isize>,
    unused: BTreeSet<isize>,
}

/// The columns of a row list as mathematical integers.
pub open spec fn columns(row_list: Seq<isize>) -> Seq<int> {
    row_list.map_values(|c: isize| c as int)
}

/// The keys of an ordered set of columns come out lowest first.
proof fn lemma_keys_ascend(keys: Seq<&isize>)
    requires
        increasing_seq(keys),
    ensures
        forall|i: int, j: int| 0 <= i < j < keys.len() ==> *keys[i] < *keys[j],
{
    assert forall|i: int, j: int| 0 <= i < j < keys.len() implies *keys[i] < *keys[j] by {
        lemma_earlier_key_is_less(keys, i, j);
    }
}

/// In an increasing sequence an earlier key compares as less than a later one.
proof fn lemma_earlier_key_is_less<K: Ord>(keys: Seq<K>, i: int, j: int)
    requires
        obeys_cmp::<K>(),
        increasing_seq(keys),
        0 <= i < j < keys.len(),
    ensures
        keys[i].cmp_spec(&keys[j]) is Less,
{
}

impl View for NCastlesState {
    type V = Placement;

    closed spec fn view(&self) -> Placement {
        Placement {
            size: self.size as int,
            filled: columns(self.filled@),
            unused: Set::new(
                |c: int| isize::MIN <= c <= isize::MAX && self.unused@.contains(c as isize),
            ),
        }
    }
}

impl Clone for NCastlesState {
    /// An independent copy of the board.
    fn clone(&self) -> (copy: Self)
        ensures
            copy@ == self@,
    {
        NCastlesState {
            size: self.size,
            filled: self.filled.clone(),
            unused: self.unused.clone(),
        }
    }
}

impl NCastlesState {
    /// The empty board with `size` rows and `size` columns.
    pub fn new(size: usize) -> (state: Self)
        requires
            size <= isize::MAX,
        ensures
            state@ == Placement::fresh(size as int),
            state@.wf(),
    {
        let bound: isize = size as isize;
        let mut unused: BTreeSet<isize> = BTreeSet::new();
        let mut column: isize = 0;
        while column < bound
            invariant
                0 <= column <= bound,
                forall|c: isize| unused@.contains(c) <==> 0 <= c < column,
            decreases bound - column,
        {
            unused.insert(column);
            column = column + 1;
        }
        NCastlesState { size: bound, filled: Vec::new(), unused }
    }

    /// The number of rows, which is the number of columns.
    pub fn size(&self) -> (size: isize)
        ensures
            size == self@.size,
    {
        self.size
    }

    /// The column of each filled row, in row order.
    pub fn filled(&self) -> (filled: &Vec<isize>)
        ensures
            columns(filled@) == self@.filled,
    {
        &self.filled
    }

    /// The free columns, lowest first, as they stand at the time of the call.
    pub fn unused_columns(&self) -> (free: Vec<isize>)
        ensures
            forall|i: int, j: int| 0 <= i < j < free.len() ==> free[i] < free[j],
            forall|c: int| columns(free@).contains(c) <==> self@.unused.contains(c),
            self@.unused.finite(),
            free.len() == self@.unused.len(),
    {
        let ghost keys = spec_btree_keys_iter(&self.unused).remaining();
        let mut free: Vec<isize> = Vec::new();
        for column in it: self.unused.iter()
            invariant
                it.seq() == keys,
                free@.len() == it.index(),
                forall|k: int| 0 <= k < free.len() ==> free@[k] == *keys[k],
        {
            free.push(*column);
        }
        proof {
            lemma_keys_ascend(keys);
            assert forall|i: int, j: int| 0 <= i < j < free.len() implies free[i] < free[j] by {
                assert(*keys[i] < *keys[j]);
            }
            assert forall|c: int| columns(free@).contains(c) implies self@.unused.contains(
                c,
            ) by {
                let k = choose|k: int| 0 <= k < free.len() && columns(free@)[k] == c;
                assert(keys.unref()[k] == free@[k]);
            }
            assert forall|c: int| self@.unused.contains(c) implies columns(free@).contains(
                c,
            ) by {
                let k = choose|k: int| 0 <= k < keys.len() && keys.unref()[k] == c as isize;
                assert(columns(free@)[k] == c);
            }
            columns(free@).unique_seq_to_set();
            assert(columns(free@).to_set() =~= self@.unused);
        }
        free
    }

    /// Whether no column is left to place.
    pub fn full_filled(&self) -> (full: bool)
        ensures
            full == self@.is_full(),
    {
        let full = self.unused.is_empty();
        proof {
            if !full {
                let c = choose|c: isize| self.unused@.contains(c);
                assert(self@.unused.contains(c as int));
            }
        }
        full
    }

    /// Whether a castle may go to `column` in the next row: no filled row
    /// uses that column yet.
    pub fn valid_at(&self, column: isize) -> (valid: bool)
        ensures
            valid == self@.valid_at(column as int),
    {
        let mut row: usize = 0;
        while row < self.filled.len()
            invariant
                row <= self.filled.len(),
                forall|i: int| 0 <= i < row ==> self.filled@[i] != column,
            decreases self.filled.len() - row,
        {
            if self.filled[row] == column {
                proof {
                    assert(self@.filled[row as int] == column as int);
                }
                return false;
            }
            row = row + 1;
        }
        true
    }

    /// Whether every column of the board is used by some row.
    pub fn is_solution(&self) -> (solved: bool)
        ensures
            solved == self@.is_solution(),
    {
        let mut column: isize = 0;
        while column < self.size
            invariant
                0 <= column,
                forall|c: int| 0 <= c < column ==> self@.filled.contains(c),
            decreases self.size - column,
        {
            if self.valid_at(column) {
                return false;
            }
            column = column + 1;
        }
        true
    }

    /// Puts the castle of the next empty row into `column`.
    pub fn go_walk(&mut self, column: isize)
        requires
            old(self)@.wf(),
            old(self)@.unused.contains(column as int),
        ensures
            final(self)@ == old(self)@.place(column as int),
            final(self)@.wf(),
    {
        self.filled.push(column);
        self.unused.remove(&column);
        proof {
            lemma_place_wf(old(self)@, column as int);
            assert(self@.filled =~= old(self)@.place(column as int).filled);
        }
    }

    /// Takes the castle of the last filled row off again and frees its
    /// column. On the empty board nothing changes.
    pub fn go_back(&mut self)
        requires
            old(self)@.wf(),
        ensures
            final(self)@ == old(self)@.unplace(),
            final(self)@.wf(),
    {
        match self.filled.pop() {
            Some(column) => {
                self.unused.insert(column);
            },
            None => {},
        }
        proof {
            lemma_unplace_wf(old(self)@);
            assert(self@.unused =~= old(self)@.unplace().unused);
        }
    }
}

} // verus!
