//! Sibling ordering: the total order `(sort_order, id)` ascending on todo
//! rows, a sorting function on row sequences stated as a recursive
//! insertion, and the facts the listing contract rests on: the result is
//! sorted, holds exactly the original rows, and keeps ids unique.

use vstd::prelude::*;
use vstd::seq_lib::lemma_multiset_commutative;
use crate::tree::unique_ids;
use crate::types::Todo;

verus! {

/// Row `a` comes no later than row `b`: by `sort_order` ascending, ties
/// broken by `id` ascending.
pub open spec fn le(a: Todo, b: Todo) -> bool {
    a.sort_order < b.sort_order || (a.sort_order == b.sort_order && a.id <= b.id)
}

/// The rows stand in `(sort_order, id)` ascending order.
pub open spec fn sorted(s: Seq<Todo>) -> bool {
    forall|i: int, j: int| 0 <= i < j < s.len() ==> le(s[i], s[j])
}

/// `t` placed before the first row of `s` that does not come before it.
pub open spec fn insert_sorted(s: Seq<Todo>, t: Todo) -> Seq<Todo>
    decreases s.len(),
{
    if s.len() == 0 {
        seq![t]
    } else if le(t, s[0]) {
        seq![t] + s
    } else {
        seq![s[0]] + insert_sorted(s.drop_first(), t)
    }
}

/// The rows of `s` in `(sort_order, id)` ascending order, by repeated
/// sorted insertion.
pub open spec fn sort_rows(s: Seq<Todo>) -> Seq<Todo>
    decreases s.len(),
{
    if s.len() == 0 {
        Seq::empty()
    } else {
        insert_sorted(sort_rows(s.drop_last()), s.last())
    }
}

/// Exec comparison deciding `le`.
pub fn le_todo(a: &Todo, b: &Todo) -> (r: bool)
    ensures
        r == le(*a, *b),
{
    a.sort_order < b.sort_order || (a.sort_order == b.sort_order && a.id <= b.id)
}

/// Sorted insertion grows the sequence by exactly one row.
pub proof fn lemma_insert_sorted_len(s: Seq<Todo>, t: Todo)
    ensures
        insert_sorted(s, t).len() == s.len() + 1,
    decreases s.len(),
{
    if s.len() > 0 && !le(t, s[0]) {
        lemma_insert_sorted_len(s.drop_first(), t);
    }
}

/// Every row of a sorted insertion is the inserted row or a row of the
/// original sequence.
pub proof fn lemma_insert_sorted_elems(s: Seq<Todo>, t: Todo)
    ensures
        forall|k: int|
            0 <= k < insert_sorted(s, t).len() ==> insert_sorted(s, t)[k] == t || s.contains(
                #[trigger] insert_sorted(s, t)[k],
            ),
    decreases s.len(),
{
    let out = insert_sorted(s, t);
    if s.len() == 0 {
    } else if le(t, s[0]) {
        assert forall|k: int| 0 <= k < out.len() implies out[k] == t || s.contains(
            #[trigger] out[k],
        ) by {
            if k > 0 {
                assert(out[k] == s[k - 1]);
            }
        }
    } else {
        lemma_insert_sorted_elems(s.drop_first(), t);
        let rest = insert_sorted(s.drop_first(), t);
        assert forall|k: int| 0 <= k < out.len() implies out[k] == t || s.contains(
            #[trigger] out[k],
        ) by {
            if k == 0 {
                assert(out[0] == s[0]);
            } else {
                assert(out[k] == rest[k - 1]);
                if rest[k - 1] != t {
                    let m = choose|m: int|
                        0 <= m < s.drop_first().len() && s.drop_first()[m] == rest[k - 1];
                    assert(s[m + 1] == rest[k - 1]);
                }
            }
        }
    }
}

/// Sorted insertion keeps a sorted sequence sorted.
pub proof fn lemma_insert_sorted_sorted(s: Seq<Todo>, t: Todo)
    requires
        sorted(s),
    ensures
        sorted(insert_sorted(s, t)),
    decreases s.len(),
{
    let out = insert_sorted(s, t);
    if s.len() == 0 {
    } else if le(t, s[0]) {
        assert forall|i: int, j: int| 0 <= i < j < out.len() implies le(out[i], out[j]) by {
            if i > 0 {
                assert(out[i] == s[i - 1] && out[j] == s[j - 1]);
            } else {
                assert(out[0] == t && out[j] == s[j - 1]);
                if j > 1 {
                    assert(le(s[0], s[j - 1]));
                }
            }
        }
    } else {
        assert(sorted(s.drop_first()));
        lemma_insert_sorted_sorted(s.drop_first(), t);
        lemma_insert_sorted_elems(s.drop_first(), t);
        lemma_insert_sorted_len(s.drop_first(), t);
        let rest = insert_sorted(s.drop_first(), t);
        assert forall|i: int, j: int| 0 <= i < j < out.len() implies le(out[i], out[j]) by {
            if i == 0 {
                assert(out[j] == rest[j - 1]);
                if rest[j - 1] == t {
                    assert(le(s[0], t));
                } else {
                    let m = choose|m: int|
                        0 <= m < s.drop_first().len() && s.drop_first()[m] == rest[j - 1];
                    assert(s[m + 1] == rest[j - 1]);
                    assert(le(s[0], s[m + 1]));
                }
            } else {
                assert(out[i] == rest[i - 1] && out[j] == rest[j - 1]);
            }
        }
    }
}

/// Sorted insertion adds exactly the inserted row to the bag of rows.
pub proof fn lemma_insert_sorted_multiset(s: Seq<Todo>, t: Todo)
    ensures
        insert_sorted(s, t).to_multiset() =~= s.to_multiset().insert(t),
    decreases s.len(),
{
    broadcast use vstd::seq_lib::group_to_multiset_ensures;
    broadcast use vstd::multiset::group_multiset_axioms;

    let out = insert_sorted(s, t);
    if s.len() == 0 {
        assert(seq![t] =~= Seq::<Todo>::empty().push(t));
        assert(s =~= Seq::<Todo>::empty());
    } else if le(t, s[0]) {
        lemma_multiset_commutative(seq![t], s);
        lemma_singleton_multiset(t);
        assert(out == seq![t] + s);
        assert(out.to_multiset() == seq![t].to_multiset().add(s.to_multiset()));
        assert forall|y: Todo| out.to_multiset().count(y) == s.to_multiset().insert(t).count(
            y,
        ) by {
            assert(out.to_multiset().count(y) == seq![t].to_multiset().count(y) + s.to_multiset()
                .count(y));
        }
    } else {
        lemma_insert_sorted_multiset(s.drop_first(), t);
        let rest = insert_sorted(s.drop_first(), t);
        lemma_multiset_commutative(seq![s[0]], rest);
        lemma_multiset_commutative(seq![s[0]], s.drop_first());
        lemma_singleton_multiset(s[0]);
        assert(s =~= seq![s[0]] + s.drop_first());
        assert(out == seq![s[0]] + rest);
        assert(out.to_multiset() == seq![s[0]].to_multiset().add(rest.to_multiset()));
        assert(s.to_multiset() == seq![s[0]].to_multiset().add(s.drop_first().to_multiset()));
        assert forall|y: Todo| out.to_multiset().count(y) == s.to_multiset().insert(t).count(
            y,
        ) by {
            assert(out.to_multiset().count(y) == seq![s[0]].to_multiset().count(y)
                + rest.to_multiset().count(y));
            assert(rest.to_multiset().count(y) == s.drop_first().to_multiset().insert(t).count(y));
            assert(s.to_multiset().count(y) == seq![s[0]].to_multiset().count(y) + s.drop_first()
                .to_multiset().count(y));
        }
    }
}

/// The bag of rows of a one-row sequence: one copy of that row.
proof fn lemma_singleton_multiset(t: Todo)
    ensures
        forall|y: Todo| #[trigger] seq![t].to_multiset().count(y) == (if y == t {
            1nat
        } else {
            0nat
        }),
{
    broadcast use vstd::seq_lib::group_to_multiset_ensures;
    broadcast use vstd::multiset::group_multiset_axioms;

    assert(seq![t] =~= Seq::<Todo>::empty().push(t));
    assert(seq![t].to_multiset() =~= Seq::<Todo>::empty().to_multiset().insert(t));
    assert forall|y: Todo| #[trigger] seq![t].to_multiset().count(y) == (if y == t {
        1nat
    } else {
        0nat
    }) by {
        assert(!Seq::<Todo>::empty().contains(y));
        assert(Seq::<Todo>::empty().to_multiset().count(y) == 0);
        assert(seq![t].to_multiset().count(y) == Seq::<Todo>::empty().to_multiset().insert(
            t,
        ).count(y));
    }
}

/// Sorting keeps the length.
pub proof fn lemma_sort_rows_len(s: Seq<Todo>)
    ensures
        sort_rows(s).len() == s.len(),
    decreases s.len(),
{
    if s.len() > 0 {
        lemma_sort_rows_len(s.drop_last());
        lemma_insert_sorted_len(sort_rows(s.drop_last()), s.last());
    }
}

/// Sorting yields a sorted sequence.
pub proof fn lemma_sort_rows_sorted(s: Seq<Todo>)
    ensures
        sorted(sort_rows(s)),
    decreases s.len(),
{
    if s.len() > 0 {
        lemma_sort_rows_sorted(s.drop_last());
        lemma_insert_sorted_sorted(sort_rows(s.drop_last()), s.last());
    }
}

/// Sorting neither loses, adds nor duplicates a row: the sorted sequence
/// holds exactly the original bag of rows.
pub proof fn lemma_sort_rows_multiset(s: Seq<Todo>)
    ensures
        sort_rows(s).to_multiset() =~= s.to_multiset(),
    decreases s.len(),
{
    broadcast use vstd::seq_lib::group_to_multiset_ensures;

    if s.len() > 0 {
        lemma_sort_rows_multiset(s.drop_last());
        lemma_insert_sorted_multiset(sort_rows(s.drop_last()), s.last());
        assert(s =~= s.drop_last().push(s.last()));
        assert(s.drop_last().push(s.last()).to_multiset() =~= s.drop_last().to_multiset().insert(
            s.last(),
        ));
    }
}

/// Every row of the sorted sequence is a row of the original one.
pub proof fn lemma_sort_rows_elems(s: Seq<Todo>)
    ensures
        forall|k: int|
            0 <= k < sort_rows(s).len() ==> s.contains(#[trigger] sort_rows(s)[k]),
    decreases s.len(),
{
    if s.len() > 0 {
        let base = sort_rows(s.drop_last());
        lemma_sort_rows_elems(s.drop_last());
        lemma_insert_sorted_elems(base, s.last());
        assert forall|k: int| 0 <= k < sort_rows(s).len() implies s.contains(
            #[trigger] sort_rows(s)[k],
        ) by {
            let row = sort_rows(s)[k];
            if row == s.last() {
                assert(s[s.len() - 1] == row);
            } else {
                assert(base.contains(row));
                let m0 = choose|m0: int| 0 <= m0 < base.len() && base[m0] == row;
                let m = choose|m: int| 0 <= m < s.drop_last().len() && s.drop_last()[m] == row;
                assert(s[m] == row);
            }
        }
    }
}

/// Sorting keeps ids unique.
pub proof fn lemma_sort_rows_unique_ids(s: Seq<Todo>)
    requires
        unique_ids(s),
    ensures
        unique_ids(sort_rows(s)),
    decreases s.len(),
{
    if s.len() > 0 {
        let base = sort_rows(s.drop_last());
        let t = s.last();
        assert(unique_ids(s.drop_last()));
        lemma_sort_rows_unique_ids(s.drop_last());
        lemma_sort_rows_elems(s.drop_last());
        lemma_insert_sorted_elems(base, t);
        let out = insert_sorted(base, t);
        assert forall|i: int, j: int|
            0 <= i < out.len() && 0 <= j < out.len() && i != j implies out[i].id != out[j].id by {
            if out[i] == t && out[j] == t {
                // two copies of the inserted row cannot arise: one of the
                // positions stems from the base, whose rows all come from
                // the prefix, where the inserted id does not occur
                lemma_two_copies_impossible(base, t, i, j);
            } else if out[i] == t {
                assert(base.contains(out[j]));
                lemma_base_id_differs(s, out[j]);
            } else if out[j] == t {
                assert(base.contains(out[i]));
                lemma_base_id_differs(s, out[i]);
            } else {
                assert(base.contains(out[i]) && base.contains(out[j]));
                let mi = choose|m: int| 0 <= m < base.len() && base[m] == out[i];
                let mj = choose|m: int| 0 <= m < base.len() && base[m] == out[j];
                if mi == mj {
                    lemma_insert_distinct_positions(base, t, i, j);
                } else {
                    assert(base[mi].id != base[mj].id);
                }
            }
        }
    }
}

/// A row of the base whose id equals the appended row's id would break
/// the uniqueness of the original ids.
proof fn lemma_base_id_differs(s: Seq<Todo>, row: Todo)
    requires
        s.len() > 0,
        unique_ids(s),
        s.drop_last().contains(row),
    ensures
        row.id != s.last().id,
{
    let m = choose|m: int| 0 <= m < s.drop_last().len() && s.drop_last()[m] == row;
    assert(s[m] == row);
    assert(s[m].id != s[s.len() - 1].id);
}

/// Two distinct positions of a sorted insertion cannot both hold the
/// inserted row unless the base already held a copy of it.
proof fn lemma_two_copies_impossible(base: Seq<Todo>, t: Todo, i: int, j: int)
    requires
        0 <= i < insert_sorted(base, t).len(),
        0 <= j < insert_sorted(base, t).len(),
        i != j,
        insert_sorted(base, t)[i] == t,
        insert_sorted(base, t)[j] == t,
    ensures
        base.contains(t),
    decreases base.len(),
{
    let out = insert_sorted(base, t);
    if base.len() == 0 {
        assert(false);
    } else if le(t, base[0]) {
        // the inserted row stands at position 0 only; the other position
        // holds a base row equal to it
        if i == 0 {
            assert(out[j] == base[j - 1]);
        } else {
            assert(out[i] == base[i - 1]);
        }
    } else {
        let rest = insert_sorted(base.drop_first(), t);
        if i == 0 || j == 0 {
            assert(base[0] == t);
        } else {
            assert(out[i] == rest[i - 1] && out[j] == rest[j - 1]);
            lemma_two_copies_impossible(base.drop_first(), t, i - 1, j - 1);
            let m = choose|m: int| 0 <= m < base.drop_first().len() && base.drop_first()[m] == t;
            assert(base[m + 1] == t);
        }
    }
}

/// Two distinct positions of a sorted insertion holding one and the same
/// base row force two occurrences of that row in the base.
proof fn lemma_insert_distinct_positions(base: Seq<Todo>, t: Todo, i: int, j: int)
    requires
        0 <= i < insert_sorted(base, t).len(),
        0 <= j < insert_sorted(base, t).len(),
        i != j,
        insert_sorted(base, t)[i] == insert_sorted(base, t)[j],
        insert_sorted(base, t)[i] != t,
    ensures
        exists|m1: int, m2: int|
            0 <= m1 < base.len() && 0 <= m2 < base.len() && m1 != m2 && base[m1] == insert_sorted(
                base,
                t,
            )[i] && base[m2] == insert_sorted(base, t)[j],
    decreases base.len(),
{
    let out = insert_sorted(base, t);
    if base.len() == 0 {
        assert(false);
    } else if le(t, base[0]) {
        assert(i != 0 && j != 0);
        assert(out[i] == base[i - 1] && out[j] == base[j - 1]);
    } else {
        let rest = insert_sorted(base.drop_first(), t);
        if i == 0 {
            assert(out[j] == rest[j - 1]);
            lemma_insert_sorted_elems(base.drop_first(), t);
            assert(base.drop_first().contains(rest[j - 1]));
            let m = choose|m: int|
                0 <= m < base.drop_first().len() && base.drop_first()[m] == rest[j - 1];
            assert(base[0] == out[i] && base[m + 1] == out[j]);
        } else if j == 0 {
            assert(out[i] == rest[i - 1]);
            lemma_insert_sorted_elems(base.drop_first(), t);
            assert(base.drop_first().contains(rest[i - 1]));
            let m = choose|m: int|
                0 <= m < base.drop_first().len() && base.drop_first()[m] == rest[i - 1];
            assert(base[0] == out[j] && base[m + 1] == out[i]);
        } else {
            lemma_insert_distinct_positions(base.drop_first(), t, i - 1, j - 1);
            let (m1, m2) = choose|m1: int, m2: int|
                0 <= m1 < base.drop_first().len() && 0 <= m2 < base.drop_first().len() && m1 != m2
                    && base.drop_first()[m1] == rest[i - 1] && base.drop_first()[m2] == rest[j - 1];
            assert(base[m1 + 1] == out[i] && base[m2 + 1] == out[j]);
        }
    }
}

/// Inserting at the position found by a forward scan — the first row the
/// inserted one comes no later than — is exactly the sorted insertion.
pub proof fn lemma_insert_split(s: Seq<Todo>, t: Todo, j: int)
    requires
        0 <= j <= s.len(),
        forall|k: int| 0 <= k < j ==> !le(t, #[trigger] s[k]),
        j < s.len() ==> le(t, s[j]),
    ensures
        insert_sorted(s, t) == s.take(j) + seq![t] + s.skip(j),
    decreases j,
{
    if s.len() == 0 {
        assert(insert_sorted(s, t) =~= s.take(j) + seq![t] + s.skip(j));
    } else if j == 0 {
        assert(le(t, s[0]));
        assert(insert_sorted(s, t) =~= s.take(0) + seq![t] + s.skip(0));
    } else {
        assert(!le(t, s[0]));
        let df = s.drop_first();
        lemma_insert_split(df, t, j - 1);
        assert(insert_sorted(s, t) == seq![s[0]] + insert_sorted(df, t));
        assert(seq![s[0]] + (df.take(j - 1) + seq![t] + df.skip(j - 1)) =~= s.take(j) + seq![t]
            + s.skip(j));
    }
}

} // verus!
