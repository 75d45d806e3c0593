//! What the search hands out, stated without the search: the complete boards
//! of a given size, in the order in which they appear, and the laws of that
//! list.

use crate::order::{
    agree_before, is_descending, lemma_descending_is_distinct, lemma_descending_lists_agree,
    lex_less,
};
use crate::permutation::{
    begins_with, factorial, free_below, is_partial, is_permutation, lemma_free_columns,
    lemma_partial_bounds, lemma_partial_push, lemma_permutation_is_partial,
};
use vstd::prelude::*;

verus! {

/// The complete boards of size `n` that begin with `prefix`, the one with
/// the highest column in the next row first.
pub open spec fn completions(prefix: Seq<int>, n: int) -> Seq<Seq<int>>
    decreases n - prefix.len(), n + 1,
{
    if prefix.len() >= n {
        seq![prefix]
    } else {
        completions_below(prefix, n, n)
    }
}

/// Those of the boards of `completions(prefix, n)` whose next row has its
/// column below `bound`.
pub open spec fn completions_below(prefix: Seq<int>, n: int, bound: int) -> Seq<Seq<int>>
    decreases n - prefix.len(), bound,
{
    if prefix.len() >= n || bound <= 0 {
        Seq::empty()
    } else if prefix.contains(bound - 1) {
        completions_below(prefix, n, bound - 1)
    } else {
        completions(prefix.push(bound - 1), n) + completions_below(prefix, n, bound - 1)
    }
}

/// All complete boards of size `n`, from the dictionary-last to the
/// dictionary-first.
pub open spec fn solutions(n: int) -> Seq<Seq<int>> {
    completions(Seq::empty(), n)
}

/// There are `n!` complete boards of size `n`; on the board of size 0 that
/// is the one board without rows.
pub proof fn lemma_solutions_count(n: int)
    requires
        0 <= n,
    ensures
        solutions(n).len() == factorial(n as nat),
        n == 0 ==> solutions(n).len() == 1 && solutions(n)[0] == Seq::<int>::empty(),
{
    lemma_completions_len(Seq::empty(), n);
}

/// Every listed board is a permutation of the columns `0..n`.
pub proof fn lemma_solutions_are_permutations(n: int)
    requires
        0 <= n,
    ensures
        forall|i: int|
            0 <= i < solutions(n).len() ==> is_permutation(#[trigger] solutions(n)[i], n),
{
    assert forall|i: int| 0 <= i < solutions(n).len() implies is_permutation(
        #[trigger] solutions(n)[i],
        n,
    ) by {
        lemma_completions_sound(Seq::empty(), n, i);
    }
}

/// No board is listed twice.
pub proof fn lemma_solutions_are_distinct(n: int)
    requires
        0 <= n,
    ensures
        solutions(n).no_duplicates(),
{
    lemma_solutions_are_descending(n);
    lemma_descending_is_distinct(solutions(n));
}

/// The boards are listed in descending dictionary order.
pub proof fn lemma_solutions_are_descending(n: int)
    requires
        0 <= n,
    ensures
        is_descending(solutions(n)),
{
    lemma_completions_descending(Seq::empty(), n);
}

/// Every permutation of the columns `0..n` is listed.
pub proof fn lemma_solutions_are_complete(n: int, p: Seq<int>)
    requires
        is_permutation(p, n),
    ensures
        solutions(n).contains(p),
{
    lemma_completions_complete(Seq::empty(), n, p);
}

/// The list is the only one of its kind: a list in descending dictionary
/// order that holds the permutations of the columns `0..n`, all of them and
/// nothing else, is `solutions(n)`.
pub proof fn lemma_solutions_characterized(list: Seq<Seq<int>>, n: int)
    requires
        0 <= n,
        is_descending(list),
        forall|i: int| 0 <= i < list.len() ==> is_permutation(#[trigger] list[i], n),
        forall|p: Seq<int>| is_permutation(p, n) ==> list.contains(p),
    ensures
        list == solutions(n),
{
    lemma_solutions_are_descending(n);
    lemma_solutions_are_permutations(n);
    assert forall|p: Seq<int>| list.contains(p) <==> solutions(n).contains(p) by {
        if list.contains(p) {
            lemma_solutions_are_complete(n, p);
        }
    }
    lemma_descending_lists_agree(list, solutions(n));
}

/// A partial board with `k` empty rows has `k!` completions.
pub proof fn lemma_completions_len(prefix: Seq<int>, n: int)
    requires
        is_partial(prefix, n),
    ensures
        prefix.len() <= n,
        completions(prefix, n).len() == factorial((n - prefix.len()) as nat),
    decreases n - prefix.len(), n + 1,
{
    lemma_partial_bounds(prefix, n);
    if prefix.len() < n {
        lemma_completions_below_len(prefix, n, n);
        lemma_free_columns(prefix, n);
    }
}

/// Below `bound` every free column gives as many completions as a board
/// with one row more has.
proof fn lemma_completions_below_len(prefix: Seq<int>, n: int, bound: int)
    requires
        is_partial(prefix, n),
        prefix.len() < n,
        0 <= bound <= n,
    ensures
        completions_below(prefix, n, bound).len() == free_below(prefix, bound) * factorial(
            (n - prefix.len() - 1) as nat,
        ),
    decreases n - prefix.len(), bound,
{
    let each = factorial((n - prefix.len() - 1) as nat);
    if bound > 0 {
        lemma_completions_below_len(prefix, n, bound - 1);
        let lower = free_below(prefix, bound - 1);
        if !prefix.contains(bound - 1) {
            lemma_partial_push(prefix, n, bound - 1);
            lemma_completions_len(prefix.push(bound - 1), n);
            assert((lower + 1) * each == each + lower * each) by (nonlinear_arith);
        }
    } else {
        assert(0 * each == 0) by (nonlinear_arith);
    }
}

/// Every completion of a partial board is a complete board that begins with
/// it.
pub proof fn lemma_completions_sound(prefix: Seq<int>, n: int, i: int)
    requires
        is_partial(prefix, n),
        0 <= i < completions(prefix, n).len(),
    ensures
        is_permutation(completions(prefix, n)[i], n),
        begins_with(completions(prefix, n)[i], prefix),
    decreases n - prefix.len(), n + 1,
{
    lemma_partial_bounds(prefix, n);
    if prefix.len() < n {
        lemma_completions_below_sound(prefix, n, n, i);
    }
}

/// Every completion below `bound` is a complete board that begins with
/// `prefix` and goes on with a column below `bound`.
proof fn lemma_completions_below_sound(prefix: Seq<int>, n: int, bound: int, i: int)
    requires
        is_partial(prefix, n),
        0 <= bound <= n,
        0 <= i < completions_below(prefix, n, bound).len(),
    ensures
        is_permutation(completions_below(prefix, n, bound)[i], n),
        begins_with(completions_below(prefix, n, bound)[i], prefix),
        0 <= completions_below(prefix, n, bound)[i][prefix.len() as int] < bound,
        prefix.len() < n,
    decreases n - prefix.len(), bound,
{
    let column = bound - 1;
    if prefix.contains(column) {
        lemma_completions_below_sound(prefix, n, column, i);
    } else {
        let longer = prefix.push(column);
        let first = completions(longer, n);
        if i < first.len() {
            lemma_partial_push(prefix, n, column);
            lemma_completions_sound(longer, n, i);
        } else {
            lemma_completions_below_sound(prefix, n, column, i - first.len());
        }
    }
}

/// The completions of a partial board stand in descending dictionary order.
pub proof fn lemma_completions_descending(prefix: Seq<int>, n: int)
    requires
        is_partial(prefix, n),
    ensures
        is_descending(completions(prefix, n)),
    decreases n - prefix.len(), n + 1,
{
    if prefix.len() < n {
        lemma_completions_below_descending(prefix, n, n);
    }
}

/// The completions below `bound` stand in descending dictionary order.
proof fn lemma_completions_below_descending(prefix: Seq<int>, n: int, bound: int)
    requires
        is_partial(prefix, n),
        prefix.len() < n,
        0 <= bound <= n,
    ensures
        is_descending(completions_below(prefix, n, bound)),
    decreases n - prefix.len(), bound,
{
    if bound > 0 {
        let column = bound - 1;
        lemma_completions_below_descending(prefix, n, column);
        if !prefix.contains(column) {
            let longer = prefix.push(column);
            let first = completions(longer, n);
            let rest = completions_below(prefix, n, column);
            let list = completions_below(prefix, n, bound);
            lemma_partial_push(prefix, n, column);
            lemma_completions_descending(longer, n);
            assert forall|i: int, j: int| 0 <= i < j < list.len() implies lex_less(
                #[trigger] list[j],
                #[trigger] list[i],
            ) by {
                if i < first.len() <= j {
                    // The earlier board has `column` in the next row, the
                    // later one a lower column, and up to there both are
                    // `prefix`.
                    let m = prefix.len() as int;
                    let hi = first[i];
                    let lo = rest[j - first.len()];
                    lemma_completions_sound(longer, n, i);
                    lemma_completions_below_sound(prefix, n, column, j - first.len());
                    assert(agree_before(lo, hi, m) && lo[m] < hi[m]);
                }
            }
        }
    }
}

/// Every complete board that begins with `prefix` is among the completions
/// of `prefix`.
pub proof fn lemma_completions_complete(prefix: Seq<int>, n: int, p: Seq<int>)
    requires
        is_permutation(p, n),
        begins_with(p, prefix),
    ensures
        completions(prefix, n).contains(p),
    decreases n - prefix.len(),
{
    lemma_permutation_is_partial(p, n);
    let m = prefix.len() as int;
    if m >= n {
        assert(completions(prefix, n)[0] == p);
    } else {
        let column = p[m];
        let longer = prefix.push(column);
        assert(!prefix.contains(column)) by {
            if prefix.contains(column) {
                let k = choose|k: int| 0 <= k < m && prefix[k] == column;
                assert(p[k] == prefix[k]);
            }
        }
        lemma_completions_complete(longer, n, p);
        lemma_below_includes(prefix, n, n, column, p);
    }
}

/// The completions that go on with a free column below `bound` are among
/// the completions below `bound`.
proof fn lemma_below_includes(prefix: Seq<int>, n: int, bound: int, column: int, p: Seq<int>)
    requires
        prefix.len() < n,
        0 <= column < bound,
        !prefix.contains(column),
        completions(prefix.push(column), n).contains(p),
    ensures
        completions_below(prefix, n, bound).contains(p),
    decreases bound,
{
    let first = completions(prefix.push(column), n);
    let k = choose|k: int| 0 <= k < first.len() && first[k] == p;
    if column == bound - 1 {
        assert(completions_below(prefix, n, bound)[k] == p);
    } else {
        lemma_below_includes(prefix, n, bound - 1, column, p);
        let rest = completions_below(prefix, n, bound - 1);
        let r = choose|r: int| 0 <= r < rest.len() && rest[r] == p;
        if !prefix.contains(bound - 1) {
            let skipped = completions(prefix.push(bound - 1), n);
            assert(completions_below(prefix, n, bound)[skipped.len() + r] == p);
        }
    }
}

/// Columns that `prefix` uses give no completions: a bound may move across
/// them.
pub proof fn lemma_used_columns_add_nothing(prefix: Seq<int>, n: int, low: int, high: int)
    requires
        low <= high,
        forall|c: int| low <= c < high ==> prefix.contains(c),
    ensures
        completions_below(prefix, n, high) == completions_below(prefix, n, low),
    decreases high - low,
{
    if low < high {
        lemma_used_columns_add_nothing(prefix, n, low, high - 1);
    }
}

} // verus!
