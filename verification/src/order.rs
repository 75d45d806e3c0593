//! Dictionary order on boards, and lists of boards that descend in it.

use vstd::prelude::*;

verus! {

/// Both boards have a row `row`, and in all rows before it they have the
/// same columns.
pub open spec fn agree_before(a: Seq<int>, b: Seq<int>, row: int) -> bool {
    &&& 0 <= row < a.len()
    &&& row < b.len()
    &&& forall|i: int| 0 <= i < row ==> a[i] == b[i]
}

/// Dictionary order: in the first row where the two differ, `a` has the
/// lower column.
pub open spec fn lex_less(a: Seq<int>, b: Seq<int>) -> bool {
    exists|row: int| #[trigger] agree_before(a, b, row) && a[row] < b[row]
}

/// Every later entry of `list` comes before every earlier one in dictionary
/// order.
pub open spec fn is_descending(list: Seq<Seq<int>>) -> bool {
    forall|i: int, j: int|
        0 <= i < j < list.len() ==> lex_less(#[trigger] list[j], #[trigger] list[i])
}

/// Dictionary order never holds both ways; so no board comes before itself.
pub proof fn lemma_lex_less_one_way(a: Seq<int>, b: Seq<int>)
    requires
        lex_less(a, b),
    ensures
        !lex_less(b, a),
        a != b,
{
    if lex_less(b, a) {
        let k = choose|k: int| #[trigger] agree_before(a, b, k) && a[k] < b[k];
        let m = choose|m: int| #[trigger] agree_before(b, a, m) && b[m] < a[m];
        if k < m {
            assert(b[k] == a[k]);
        } else if m < k {
            assert(a[m] == b[m]);
        }
    }
}

/// A list in descending dictionary order holds nothing twice.
pub proof fn lemma_descending_is_distinct(list: Seq<Seq<int>>)
    requires
        is_descending(list),
    ensures
        list.no_duplicates(),
{
    assert forall|i: int, j: int| 0 <= i < j < list.len() implies list[i] != list[j] by {
        lemma_lex_less_one_way(list[j], list[i]);
    }
}

/// Two lists in descending dictionary order that hold the same boards are
/// the same list.
pub proof fn lemma_descending_lists_agree(a: Seq<Seq<int>>, b: Seq<Seq<int>>)
    requires
        is_descending(a),
        is_descending(b),
        forall|p: Seq<int>| a.contains(p) <==> b.contains(p),
    ensures
        a == b,
    decreases a.len(),
{
    if a.len() == 0 {
        if b.len() > 0 {
            assert(b.contains(b[0]));
        }
    } else {
        assert(b.contains(a[0]));
        let j = choose|j: int| 0 <= j < b.len() && b[j] == a[0];
        assert(b.contains(b[0]));
        let k = choose|k: int| 0 <= k < a.len() && a[k] == b[0];
        if j > 0 && k > 0 {
            // Each head would come before the other.
            assert(lex_less(b[j], b[0]) && lex_less(a[k], a[0]));
            lemma_lex_less_one_way(a[0], b[0]);
        }
        assert(a[0] == b[0]);
        let a_rest = a.drop_first();
        let b_rest = b.drop_first();
        assert forall|p: Seq<int>| a_rest.contains(p) <==> b_rest.contains(p) by {
            if a_rest.contains(p) {
                let i = choose|i: int| 0 <= i < a_rest.len() && a_rest[i] == p;
                lemma_lex_less_one_way(a[i + 1], a[0]);
                assert(a.contains(p));
                let m = choose|m: int| 0 <= m < b.len() && b[m] == p;
                assert(b_rest[m - 1] == p);
            }
            if b_rest.contains(p) {
                let i = choose|i: int| 0 <= i < b_rest.len() && b_rest[i] == p;
                lemma_lex_less_one_way(b[i + 1], b[0]);
                assert(b.contains(p));
                let m = choose|m: int| 0 <= m < a.len() && a[m] == p;
                assert(a_rest[m - 1] == p);
            }
        }
        lemma_descending_lists_agree(a_rest, b_rest);
        assert(a =~= b) by {
            assert forall|i: int| 0 <= i < a.len() implies a[i] == b[i] by {
                if i > 0 {
                    assert(a[i] == a_rest[i - 1] && b[i] == b_rest[i - 1]);
                }
            }
        }
    }
}

} // verus!
