//! Boards as lists of columns: when such a list may begin a board, and when
//! it is a complete one.

use crate::placement::{lemma_columns_counted, lemma_full_means_solved, Placement};
use vstd::prelude::*;
use vstd::set_lib::{lemma_int_range, lemma_subset_equality, set_int_range};

verus! {

/// `n!`, the number of ways to order `n` things.
pub open spec fn factorial(n: nat) -> nat
    decreases n,
{
    if n == 0 {
        1
    } else {
        n * factorial((n - 1) as nat)
    }
}

/// There is always at least one way to order `n` things.
pub proof fn lemma_factorial_positive(n: nat)
    ensures
        factorial(n) >= 1,
    decreases n,
{
    if n > 0 {
        lemma_factorial_positive((n - 1) as nat);
        assert(n * factorial((n - 1) as nat) >= 1) by (nonlinear_arith)
            requires
                n >= 1,
                factorial((n - 1) as nat) >= 1,
        ;
    }
}

/// `p` gives every row of a board of size `n` a column, no column twice and
/// every column once.
pub open spec fn is_permutation(p: Seq<int>, n: int) -> bool {
    &&& p.len() == n
    &&& p.no_duplicates()
    &&& forall|c: int| 0 <= c < n ==> p.contains(c)
}

/// `prefix` may stand in the first rows of a board of size `n`: its columns
/// lie on the board and none occurs twice.
pub open spec fn is_partial(prefix: Seq<int>, n: int) -> bool {
    &&& 0 <= n
    &&& prefix.no_duplicates()
    &&& forall|i: int| 0 <= i < prefix.len() ==> 0 <= #[trigger] prefix[i] < n
}

/// The first rows of `whole` are those of `prefix`.
pub open spec fn begins_with(whole: Seq<int>, prefix: Seq<int>) -> bool {
    &&& prefix.len() <= whole.len()
    &&& forall|i: int| 0 <= i < prefix.len() ==> #[trigger] whole[i] == prefix[i]
}

/// The board that has `prefix` in its first rows.
pub open spec fn board(prefix: Seq<int>, n: int) -> Placement {
    Placement {
        size: n,
        filled: prefix,
        unused: Set::new(|c: int| 0 <= c < n && !prefix.contains(c)),
    }
}

/// A partial board has at most `n` rows, and with `n` rows it is complete.
pub proof fn lemma_partial_bounds(prefix: Seq<int>, n: int)
    requires
        is_partial(prefix, n),
    ensures
        prefix.len() <= n,
        prefix.len() == n ==> is_permutation(prefix, n),
{
    lemma_full_means_solved(board(prefix, n));
}

/// Every column of a complete board lies on the board.
pub proof fn lemma_permutation_is_partial(p: Seq<int>, n: int)
    requires
        is_permutation(p, n),
    ensures
        is_partial(p, n),
{
    // The columns of the board are among those of `p`, and there are as
    // many of the one as of the other: so `p` has no others.
    let used = p.to_set();
    let all = set_int_range(0, n);
    p.unique_seq_to_set();
    lemma_int_range(0, n);
    lemma_subset_equality(all, used);
    assert forall|i: int| 0 <= i < p.len() implies 0 <= #[trigger] p[i] < n by {
        assert(all.contains(p[i]));
    }
}

/// A partial board with one more row, in a column that it did not use, is
/// a partial board.
pub proof fn lemma_partial_push(prefix: Seq<int>, n: int, column: int)
    requires
        is_partial(prefix, n),
        0 <= column < n,
        !prefix.contains(column),
    ensures
        is_partial(prefix.push(column), n),
{
}

/// How many columns below `bound` do not occur in `prefix`.
pub open spec fn free_below(prefix: Seq<int>, bound: int) -> nat
    decreases bound,
{
    if bound <= 0 {
        0
    } else if prefix.contains(bound - 1) {
        free_below(prefix, bound - 1)
    } else {
        free_below(prefix, bound - 1) + 1
    }
}

/// On a partial board the free columns number `n` less the filled rows.
pub proof fn lemma_free_columns(prefix: Seq<int>, n: int)
    requires
        is_partial(prefix, n),
    ensures
        free_below(prefix, n) == n - prefix.len(),
{
    lemma_columns_counted(board(prefix, n));
    lemma_free_below_counts(prefix, n);
}

/// `free_below` counts the set of the free columns below `bound`.
proof fn lemma_free_below_counts(prefix: Seq<int>, bound: int)
    ensures
        Set::new(|c: int| 0 <= c < bound && !prefix.contains(c)).finite(),
        Set::new(|c: int| 0 <= c < bound && !prefix.contains(c)).len() == free_below(prefix, bound),
    decreases bound,
{
    let here = Set::new(|c: int| 0 <= c < bound && !prefix.contains(c));
    if bound <= 0 {
        assert(here =~= Set::empty());
    } else {
        let before = Set::new(|c: int| 0 <= c < bound - 1 && !prefix.contains(c));
        lemma_free_below_counts(prefix, bound - 1);
        if prefix.contains(bound - 1) {
            assert(here =~= before);
        } else {
            assert(here =~= before.insert(bound - 1));
        }
    }
}

/// Below `bound` there are at most `bound` free columns.
pub proof fn lemma_free_below_bound(prefix: Seq<int>, bound: int)
    requires
        0 <= bound,
    ensures
        free_below(prefix, bound) <= bound,
    decreases bound,
{
    if bound > 0 {
        lemma_free_below_bound(prefix, bound - 1);
    }
}

} // verus!
