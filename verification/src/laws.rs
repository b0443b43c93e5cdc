//! The engine's laws: facts that relate several operations, stated over
//! the row sequences and mappings the operation contracts speak of, and
//! proved from those contracts' vocabulary alone.

use vstd::prelude::*;
use crate::order::le;
use crate::order::lemma_sort_rows_elems;
use crate::order::lemma_sort_rows_len;
use crate::order::lemma_sort_rows_multiset;
use crate::order::lemma_sort_rows_sorted;
use crate::order::lemma_sort_rows_unique_ids;
use crate::order::sort_rows;
use crate::order::sorted;
use crate::store::has_key;
use crate::store::pairs_to_map;
use crate::store::unique_keys;
use crate::store::updated_row;
use crate::store::with_completed;
use crate::store::with_position;
use crate::store::apply_fields;
use crate::tree::acyclic;
use crate::tree::desc;
use crate::tree::has_id;
use crate::tree::lemma_drop_keeps_acyclic;
use crate::tree::lemma_push_keeps_acyclic;
use crate::tree::lemma_relink_keeps_acyclic;
use crate::tree::row_of;
use crate::tree::unique_ids;
use crate::types::Setting;
use crate::types::Todo;
use crate::types::TodoUpdate;

verus! {

/// Cascading a supplied completion value reaches the whole subtree and
/// nothing else: after a successful update of `x` that supplies
/// `completed`, the target and every transitive descendant carry the
/// supplied value, and every row outside the subtree is untouched.
pub proof fn lemma_complete_cascade(rows0: Seq<Todo>, rows1: Seq<Todo>, x: i64, u: TodoUpdate)
    requires
        u.completed is Some,
        u.title is None,
        u.sort_order is None,
        u.parent_id is None,
        u.description is None,
        u.priority is None,
        u.due_date is None,
        rows1.len() == rows0.len(),
        forall|i: int|
            0 <= i < rows0.len() ==> rows1[i] == updated_row(rows0, x, u, i),
    ensures
        forall|i: int|
            0 <= i < rows1.len() && desc(rows0, x).contains((#[trigger] rows0[i]).id)
                ==> rows1[i] == with_completed(rows0[i], u.completed->0),
        forall|i: int|
            0 <= i < rows1.len() && !desc(rows0, x).contains((#[trigger] rows0[i]).id)
                ==> rows1[i] == rows0[i],
{
    crate::tree::lemma_desc_contains_self(rows0, x);
    assert forall|i: int|
        0 <= i < rows1.len() && desc(rows0, x).contains((#[trigger] rows0[i]).id)
        implies rows1[i] == with_completed(rows0[i], u.completed->0) by {
        if rows0[i].id == x {
            assert(rows1[i] == apply_fields(rows0[i], u));
        }
    }
}

/// Listing is stable and idempotent: two listings of one and the same
/// store state return one and the same ordered sequence.
pub proof fn lemma_list_stable(r1: Seq<Todo>, r2: Seq<Todo>, rows: Seq<Todo>)
    requires
        r1 == sort_rows(rows),
        r2 == sort_rows(rows),
    ensures
        r1 == r2,
{
}

/// A listing is ordered by `(sort_order, id)` ascending and holds exactly
/// the stored rows, none lost, none invented, none duplicated.
pub proof fn lemma_list_complete(rows: Seq<Todo>)
    ensures
        sorted(sort_rows(rows)),
        sort_rows(rows).len() == rows.len(),
        sort_rows(rows).to_multiset() == rows.to_multiset(),
{
    lemma_sort_rows_sorted(rows);
    lemma_sort_rows_len(rows);
    lemma_sort_rows_multiset(rows);
}

/// After a successful reorder of `x` under `new_parent_id` with sibling
/// position `n`, the listing holds exactly one row with id `x`; it
/// carries the new parent and position, and a row precedes it exactly
/// when its `(sort_order, id)` pair is smaller than `(n, x)` — the
/// relative position `n` selects among the existing siblings.
pub proof fn lemma_reorder_placement(
    rows0: Seq<Todo>,
    rows1: Seq<Todo>,
    x: i64,
    new_parent_id: Option<i64>,
    n: i64,
) -> (k: int)
    requires
        unique_ids(rows0),
        has_id(rows0, x),
        rows1.len() == rows0.len(),
        forall|i: int|
            0 <= i < rows0.len() ==> rows1[i] == (if (#[trigger] rows0[i]).id == x {
                with_position(rows0[i], new_parent_id, n)
            } else {
                rows0[i]
            }),
    ensures
        0 <= k < sort_rows(rows1).len(),
        sort_rows(rows1)[k].id == x,
        sort_rows(rows1)[k].parent_id == new_parent_id,
        sort_rows(rows1)[k].sort_order == n,
        forall|j: int|
            0 <= j < sort_rows(rows1).len() && j != k ==> (#[trigger] sort_rows(rows1)[j]).id != x,
        forall|j: int|
            0 <= j < sort_rows(rows1).len() && j != k ==> (j < k <==> (
            (#[trigger] sort_rows(rows1)[j]).sort_order < n || (sort_rows(rows1)[j].sort_order == n
                && sort_rows(rows1)[j].id < x))),
{
    broadcast use vstd::seq_lib::group_to_multiset_ensures;

    let l = sort_rows(rows1);
    assert(unique_ids(rows1)) by {
        assert forall|i: int, j: int|
            0 <= i < rows1.len() && 0 <= j < rows1.len() && i != j implies rows1[i].id
            != rows1[j].id by {
            assert(rows1[i].id == rows0[i].id && rows1[j].id == rows0[j].id);
        }
    }
    lemma_sort_rows_unique_ids(rows1);
    lemma_sort_rows_sorted(rows1);
    lemma_sort_rows_len(rows1);
    lemma_sort_rows_multiset(rows1);
    lemma_sort_rows_elems(rows1);
    let i0 = choose|i0: int| 0 <= i0 < rows0.len() && rows0[i0].id == x;
    let target = rows1[i0];
    assert(target == with_position(rows0[i0], new_parent_id, n));
    assert(rows1.contains(target));
    assert(rows1.to_multiset().count(target) > 0);
    assert(l.to_multiset().count(target) > 0);
    assert(l.contains(target));
    let k = choose|k: int| 0 <= k < l.len() && l[k] == target;
    assert forall|j: int| 0 <= j < l.len() && j != k implies (#[trigger] l[j]).id != x by {
        assert(rows1.contains(l[j]));
        let m = choose|m: int| 0 <= m < rows1.len() && rows1[m] == l[j];
        if l[j].id == x {
            assert(rows1[m].id == rows0[m].id);
            assert(m == i0);
            assert(l[j] == target);
            assert(l[k].id == l[j].id);
        }
    }
    assert forall|j: int| 0 <= j < l.len() && j != k implies (j < k <==> ((#[trigger] l[j])
        .sort_order < n || (l[j].sort_order == n && l[j].id < x))) by {
        assert(l[j].id != x);
        if j < k {
            assert(le(l[j], l[k]));
        } else {
            assert(le(l[k], l[j]));
        }
    }
    k
}

/// Saving a key twice keeps exactly one entry for it, carrying the value
/// saved last: after `save_setting(k, v1)` then `save_setting(k, v2)`,
/// the mapping holds `v2` at `k`, and the settings rows hold exactly one
/// row with key `k`, whose value is `v2`.
pub proof fn lemma_setting_overwrite(
    m0: Map<Seq<char>, Seq<char>>,
    srows2: Seq<Setting>,
    k: Seq<char>,
    v1: Seq<char>,
    v2: Seq<char>,
) -> (i: int)
    requires
        unique_keys(srows2),
        pairs_to_map(srows2) == m0.insert(k, v1).insert(k, v2),
    ensures
        pairs_to_map(srows2).contains_key(k),
        pairs_to_map(srows2)[k] == v2,
        0 <= i < srows2.len(),
        srows2[i].key@ == k,
        srows2[i].value@ == v2,
        forall|j: int| 0 <= j < srows2.len() && j != i ==> (#[trigger] srows2[j]).key@ != k,
{
    lemma_pairs_index(srows2);
    assert(pairs_to_map(srows2).contains_key(k));
    assert(pairs_to_map(srows2)[k] == v2);
    assert(has_key(srows2, k));
    let i = choose|i: int| 0 <= i < srows2.len() && (#[trigger] srows2[i]).key@ == k;
    assert(pairs_to_map(srows2)[srows2[i].key@] == srows2[i].value@);
    i
}

/// The forest invariant survives creation: a successful `create_todo`
/// appends a fresh leaf whose parent, if any, is an existing row, and an
/// acyclic forest with a fresh leaf stays acyclic.
pub proof fn lemma_forest_after_create(rows0: Seq<Todo>, t: Todo)
    requires
        acyclic(rows0),
        forall|i: int|
            0 <= i < rows0.len() && (#[trigger] rows0[i]).parent_id is Some ==> has_id(
                rows0,
                rows0[i].parent_id->0,
            ),
        forall|i: int| 0 <= i < rows0.len() ==> (#[trigger] rows0[i]).id != t.id,
        t.parent_id is Some ==> has_id(rows0, t.parent_id->0),
    ensures
        acyclic(rows0.push(t)),
{
    lemma_push_keeps_acyclic(rows0, t);
}

/// The forest invariant survives a successful update: the only link that
/// can move is the target's, and a supplied parent is rejected whenever
/// it lies inside the target's subtree.
pub proof fn lemma_forest_after_update(rows0: Seq<Todo>, rows1: Seq<Todo>, x: i64, u: TodoUpdate)
    requires
        acyclic(rows0),
        unique_ids(rows0),
        has_id(rows0, x),
        u.parent_id is Some && u.parent_id->0 is Some ==> !desc(rows0, x).contains(
            u.parent_id->0->0,
        ),
        rows1.len() == rows0.len(),
        forall|i: int|
            0 <= i < rows0.len() ==> rows1[i] == updated_row(rows0, x, u, i),
    ensures
        acyclic(rows1),
{
    let idx = choose|i: int| 0 <= i < rows0.len() && rows0[i].id == x;
    let np = if u.parent_id is Some {
        u.parent_id->0
    } else {
        rows0[idx].parent_id
    };
    crate::tree::lemma_desc_contains_self(rows0, x);
    assert forall|i: int| 0 <= i < rows0.len() implies (#[trigger] rows1[i]).id
        == rows0[i].id by {}
    assert forall|i: int|
        0 <= i < rows0.len() && (#[trigger] rows0[i]).id == x implies rows1[i].parent_id == np by {
        assert(i == idx);
        assert(rows1[i] == apply_fields(rows0[i], u));
    }
    assert(np is Some ==> !desc(rows0, x).contains(np->0)) by {
        if u.parent_id is None && rows0[idx].parent_id is Some {
            assert(!desc(rows0, rows0[idx].id).contains(rows0[idx].parent_id->0));
        }
    }
    lemma_relink_keeps_acyclic(rows0, rows1, x, np);
}

/// The forest invariant survives a successful reorder: only the target's
/// link moves, and a new parent inside the target's subtree is rejected.
pub proof fn lemma_forest_after_reorder(
    rows0: Seq<Todo>,
    rows1: Seq<Todo>,
    x: i64,
    new_parent_id: Option<i64>,
)
    requires
        acyclic(rows0),
        new_parent_id is Some ==> !desc(rows0, x).contains(new_parent_id->0),
        rows1.len() == rows0.len(),
        forall|i: int| 0 <= i < rows0.len() ==> (#[trigger] rows1[i]).id == rows0[i].id,
        forall|i: int|
            0 <= i < rows0.len() && (#[trigger] rows0[i]).id != x ==> rows1[i].parent_id
                == rows0[i].parent_id,
        forall|i: int|
            0 <= i < rows0.len() && (#[trigger] rows0[i]).id == x ==> rows1[i].parent_id
                == new_parent_id,
    ensures
        acyclic(rows1),
{
    lemma_relink_keeps_acyclic(rows0, rows1, x, new_parent_id);
}

/// The forest invariant survives deletion: every surviving row keeps its
/// link, and a forest only loses edges when rows leave.
pub proof fn lemma_forest_after_delete(rows0: Seq<Todo>, rows1: Seq<Todo>)
    requires
        acyclic(rows0),
        forall|k: int|
            0 <= k < rows1.len() ==> exists|m: int|
                0 <= m < rows0.len() && rows0[m] == #[trigger] rows1[k],
    ensures
        acyclic(rows1),
{
    assert forall|k: int| 0 <= k < rows1.len() implies row_of(rows0, #[trigger] rows1[k]) by {
        let m = choose|m: int| 0 <= m < rows0.len() && rows0[m] == rows1[k];
        assert(0 <= m < rows0.len() && rows0[m] == rows1[k]);
    }
    lemma_drop_keeps_acyclic(rows0, rows1);
}

/// Under unique keys, the mapping of the settings rows holds each row's
/// key at that row's value, and holds no other key.
pub proof fn lemma_pairs_index(s: Seq<Setting>)
    requires
        unique_keys(s),
    ensures
        forall|i: int|
            0 <= i < s.len() ==> pairs_to_map(s).contains_key((#[trigger] s[i]).key@)
                && pairs_to_map(s)[s[i].key@] == s[i].value@,
        forall|k: Seq<char>| #[trigger] pairs_to_map(s).contains_key(k) ==> has_key(s, k),
    decreases s.len(),
{
    if s.len() > 0 {
        let d = s.drop_last();
        assert(unique_keys(d));
        lemma_pairs_index(d);
        assert(pairs_to_map(s) == pairs_to_map(d).insert(s.last().key@, s.last().value@));
        assert forall|i: int|
            0 <= i < s.len() implies pairs_to_map(s).contains_key((#[trigger] s[i]).key@)
            && pairs_to_map(s)[s[i].key@] == s[i].value@ by {
            if i < s.len() - 1 {
                assert(d[i] == s[i]);
                assert(s[i].key@ != s[s.len() - 1].key@);
            }
        }
        assert forall|k: Seq<char>| #[trigger] pairs_to_map(s).contains_key(k) implies has_key(
            s,
            k,
        ) by {
            if k == s.last().key@ {
                assert(s[s.len() - 1].key@ == k);
            } else {
                assert(pairs_to_map(d).contains_key(k));
                assert(has_key(d, k));
                let i = choose|i: int| 0 <= i < d.len() && (#[trigger] d[i]).key@ == k;
                assert(s[i] == d[i]);
                assert(s[i].key@ == k);
            }
        }
    }
}

} // verus!
