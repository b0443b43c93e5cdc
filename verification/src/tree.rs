//! The tree index: the set of all transitive descendants of a node,
//! defined as a least fixed point over the `parent_id` links, and an
//! executable computation of it.

use vstd::prelude::*;
use crate::types::Todo;

verus! {

/// The ids of the rows, in row order.
pub open spec fn id_seq(rows: Seq<Todo>) -> Seq<i64> {
    rows.map_values(|t: Todo| t.id)
}

/// Some row of `rows` carries the id `x`.
pub open spec fn has_id(rows: Seq<Todo>, x: i64) -> bool {
    exists|i: int| 0 <= i < rows.len() && rows[i].id == x
}

/// No two rows of `rows` share an id.
pub open spec fn unique_ids(rows: Seq<Todo>) -> bool {
    forall|i: int, j: int|
        0 <= i < rows.len() && 0 <= j < rows.len() && i != j ==> rows[i].id != rows[j].id
}

/// The ids of the rows whose parent lies in `s`: one downward step
/// through the tree.
pub open spec fn step(rows: Seq<Todo>, s: Set<i64>) -> Set<i64> {
    Set::new(
        |id: i64|
            exists|i: int|
                0 <= i < rows.len() && rows[i].id == id && rows[i].parent_id is Some
                    && s.contains(rows[i].parent_id->0),
    )
}

/// `s` already holds every row whose parent it holds.
pub open spec fn step_closed(rows: Seq<Todo>, s: Set<i64>) -> bool {
    forall|i: int|
        0 <= i < rows.len() && rows[i].parent_id is Some && s.contains(
            #[trigger] rows[i].parent_id->0,
        ) ==> s.contains(rows[i].id)
}

/// The ids reachable downward from `x` in at most `k` steps
/// (`x` itself included).
pub open spec fn desc_k(rows: Seq<Todo>, x: i64, k: nat) -> Set<i64>
    decreases k,
{
    if k == 0 {
        set![x]
    } else {
        desc_k(rows, x, (k - 1) as nat).union(step(rows, desc_k(rows, x, (k - 1) as nat)))
    }
}

/// The set of all transitive descendants of `x`, with `x` itself: the
/// least step-closed set that contains `x`.
pub open spec fn desc(rows: Seq<Todo>, x: i64) -> Set<i64> {
    Set::new(|id: i64| exists|k: nat| desc_k(rows, x, k).contains(id))
}

/// The descendant set contains the node itself.
pub broadcast proof fn lemma_desc_contains_self(rows: Seq<Todo>, x: i64)
    ensures
        #[trigger] desc(rows, x).contains(x),
{
    assert(desc_k(rows, x, 0).contains(x));
}

/// The descendant set is closed under one more downward step: a row whose
/// parent is a descendant of `x` is itself a descendant of `x`.
pub broadcast proof fn lemma_desc_closed(rows: Seq<Todo>, x: i64)
    ensures
        #[trigger] step_closed(rows, desc(rows, x)),
{
    assert forall|i: int|
        0 <= i < rows.len() && rows[i].parent_id is Some && desc(rows, x).contains(
            #[trigger] rows[i].parent_id->0,
        ) implies desc(rows, x).contains(rows[i].id) by {
        let k = choose|k: nat| desc_k(rows, x, k).contains(rows[i].parent_id->0);
        assert(step(rows, desc_k(rows, x, k)).contains(rows[i].id));
        assert(desc_k(rows, x, k + 1).contains(rows[i].id));
    }
}

proof fn lemma_desc_k_in_closed(rows: Seq<Todo>, x: i64, k: nat, s: Set<i64>)
    requires
        s.contains(x),
        step_closed(rows, s),
    ensures
        desc_k(rows, x, k).subset_of(s),
    decreases k,
{
    if k > 0 {
        lemma_desc_k_in_closed(rows, x, (k - 1) as nat, s);
        assert forall|id: i64| step(rows, desc_k(rows, x, (k - 1) as nat)).contains(id)
            implies s.contains(id) by {
            let i = choose|i: int|
                0 <= i < rows.len() && rows[i].id == id && rows[i].parent_id is Some
                    && desc_k(rows, x, (k - 1) as nat).contains(rows[i].parent_id->0);
            assert(s.contains(rows[i].parent_id->0));
        }
    }
}

/// The descendant set is the least one: it lies inside every step-closed
/// set that contains the node.
pub proof fn lemma_desc_least(rows: Seq<Todo>, x: i64, s: Set<i64>)
    requires
        s.contains(x),
        step_closed(rows, s),
    ensures
        desc(rows, x).subset_of(s),
{
    assert forall|id: i64| desc(rows, x).contains(id) implies s.contains(id) by {
        let k = choose|k: nat| desc_k(rows, x, k).contains(id);
        lemma_desc_k_in_closed(rows, x, k, s);
    }
}

/// `t` is one of the rows of `rows`.
pub open spec fn row_of(rows: Seq<Todo>, t: Todo) -> bool {
    exists|m: int| 0 <= m < rows.len() && rows[m] == t
}

/// The forest invariant: no row's parent lies inside that row's own
/// subtree, so the parent links never close a cycle.
pub open spec fn acyclic(rows: Seq<Todo>) -> bool {
    forall|i: int|
        0 <= i < rows.len() && (#[trigger] rows[i]).parent_id is Some ==> !desc(
            rows,
            rows[i].id,
        ).contains(rows[i].parent_id->0)
}

/// Descent is transitive: the subtree of a descendant lies inside the
/// subtree.
pub proof fn lemma_desc_trans(rows: Seq<Todo>, w: i64, z: i64)
    requires
        desc(rows, w).contains(z),
    ensures
        desc(rows, z).subset_of(desc(rows, w)),
{
    lemma_desc_closed(rows, w);
    lemma_desc_least(rows, z, desc(rows, w));
}

/// Rewiring the parent of `x` to `np` bounds every subtree of the new
/// forest: a new descendant of `y` is an old one, or — when the new
/// parent lies under `y` — an old descendant of `x`.
proof fn lemma_relink_desc_bound(
    rows0: Seq<Todo>,
    rows1: Seq<Todo>,
    x: i64,
    np: Option<i64>,
    y: i64,
)
    requires
        rows1.len() == rows0.len(),
        forall|i: int| 0 <= i < rows0.len() ==> (#[trigger] rows1[i]).id == rows0[i].id,
        forall|i: int|
            0 <= i < rows0.len() && (#[trigger] rows0[i]).id != x ==> rows1[i].parent_id
                == rows0[i].parent_id,
        forall|i: int|
            0 <= i < rows0.len() && (#[trigger] rows0[i]).id == x ==> rows1[i].parent_id == np,
        np is Some ==> !desc(rows0, x).contains(np->0),
    ensures
        forall|id: i64|
            #[trigger] desc(rows1, y).contains(id) ==> desc(rows0, y).contains(id) || (
            np is Some && desc(rows0, y).contains(np->0) && desc(rows0, x).contains(id)),
{
    let s = Set::new(
        |id: i64|
            desc(rows0, y).contains(id) || (np is Some && desc(rows0, y).contains(np->0) && desc(
                rows0,
                x,
            ).contains(id)),
    );
    lemma_desc_contains_self(rows0, y);
    lemma_desc_contains_self(rows0, x);
    lemma_desc_closed(rows0, y);
    lemma_desc_closed(rows0, x);
    assert(step_closed(rows1, s)) by {
        assert forall|i: int|
            0 <= i < rows1.len() && rows1[i].parent_id is Some && s.contains(
                #[trigger] rows1[i].parent_id->0,
            ) implies s.contains(rows1[i].id) by {
            let p = rows1[i].parent_id->0;
            if rows0[i].id != x {
                assert(rows0[i].parent_id is Some && rows0[i].parent_id->0 == p);
                if desc(rows0, y).contains(p) {
                    assert(desc(rows0, y).contains(rows0[i].id));
                } else {
                    assert(desc(rows0, x).contains(p));
                    assert(desc(rows0, x).contains(rows0[i].id));
                }
            } else {
                // the relinked row: its parent is the new one; a cycle
                // through it would need the new parent inside the old
                // subtree of `x`, which the requires rules out
                assert(np is Some && np->0 == p);
                assert(desc(rows0, y).contains(p));
            }
        }
    }
    assert(s.contains(y));
    lemma_desc_least(rows1, y, s);
}

/// Rewiring the parent of `x` to a node outside the subtree of `x`
/// keeps the forest acyclic.
pub proof fn lemma_relink_keeps_acyclic(rows0: Seq<Todo>, rows1: Seq<Todo>, x: i64, np: Option<
    i64,
>)
    requires
        acyclic(rows0),
        rows1.len() == rows0.len(),
        forall|i: int| 0 <= i < rows0.len() ==> (#[trigger] rows1[i]).id == rows0[i].id,
        forall|i: int|
            0 <= i < rows0.len() && (#[trigger] rows0[i]).id != x ==> rows1[i].parent_id
                == rows0[i].parent_id,
        forall|i: int|
            0 <= i < rows0.len() && (#[trigger] rows0[i]).id == x ==> rows1[i].parent_id == np,
        np is Some ==> !desc(rows0, x).contains(np->0),
    ensures
        acyclic(rows1),
{
    assert forall|i: int|
        0 <= i < rows1.len() && (#[trigger] rows1[i]).parent_id is Some implies !desc(
        rows1,
        rows1[i].id,
    ).contains(rows1[i].parent_id->0) by {
        let p = rows1[i].parent_id->0;
        let y = rows1[i].id;
        lemma_relink_desc_bound(rows0, rows1, x, np, y);
        if desc(rows1, y).contains(p) {
            if rows0[i].id != x {
                assert(rows0[i].parent_id is Some && rows0[i].parent_id->0 == p);
                if desc(rows0, y).contains(p) {
                    assert(false);
                } else {
                    // the old parent of this row lies under `x`, so the
                    // row itself does; then the new parent would lie under
                    // `x` too, against the requires
                    assert(np is Some && desc(rows0, y).contains(np->0) && desc(
                        rows0,
                        x,
                    ).contains(p));
                    lemma_desc_closed(rows0, x);
                    assert(desc(rows0, x).contains(rows0[i].id));
                    lemma_desc_trans(rows0, x, y);
                    assert(desc(rows0, x).contains(np->0));
                }
            } else {
                assert(np is Some && np->0 == p);
                if desc(rows0, y).contains(p) {
                    assert(desc(rows0, x).contains(p));
                } else {
                    assert(desc(rows0, x).contains(p));
                }
            }
        }
    }
}

/// Appending a fresh leaf — a new id, its parent an existing row — keeps
/// the forest acyclic.
pub proof fn lemma_push_keeps_acyclic(rows0: Seq<Todo>, t: Todo)
    requires
        acyclic(rows0),
        forall|i: int|
            0 <= i < rows0.len() && (#[trigger] rows0[i]).parent_id is Some ==> has_id(
                rows0,
                rows0[i].parent_id->0,
            ),
        forall|i: int| 0 <= i < rows0.len() ==> (#[trigger] rows0[i]).id != t.id,
        t.parent_id is Some ==> has_id(rows0, t.parent_id->0),
    ensures
        acyclic(rows0.push(t)),
{
    let rows1 = rows0.push(t);
    // no parent link of the new forest names the fresh id
    assert forall|i: int|
        0 <= i < rows1.len() && (#[trigger] rows1[i]).parent_id is Some implies rows1[i].parent_id
        ->0 != t.id && has_id(rows0, rows1[i].parent_id->0) by {
        if i < rows0.len() {
            assert(rows1[i] == rows0[i]);
            let j = choose|j: int| 0 <= j < rows0.len() && rows0[j].id == rows0[i].parent_id->0;
        } else {
            assert(rows1[i] == t);
            let j = choose|j: int| 0 <= j < rows0.len() && rows0[j].id == t.parent_id->0;
        }
    }
    // every subtree of the new forest adds at most the fresh leaf
    assert forall|y: i64, id: i64| #[trigger] desc(rows1, y).contains(id) implies desc(
        rows0,
        y,
    ).contains(id) || id == t.id by {
        let s = Set::new(|z: i64| desc(rows0, y).contains(z) || z == t.id);
        lemma_desc_contains_self(rows0, y);
        lemma_desc_closed(rows0, y);
        assert(step_closed(rows1, s)) by {
            assert forall|i: int|
                0 <= i < rows1.len() && rows1[i].parent_id is Some && s.contains(
                    #[trigger] rows1[i].parent_id->0,
                ) implies s.contains(rows1[i].id) by {
                let p = rows1[i].parent_id->0;
                assert(p != t.id);
                if i < rows0.len() {
                    assert(rows1[i] == rows0[i]);
                    assert(desc(rows0, y).contains(rows0[i].id));
                }
            }
        }
        lemma_desc_least(rows1, y, s);
    }
    // and the fresh leaf's own old subtree is itself alone
    assert(desc(rows0, t.id).subset_of(set![t.id])) by {
        assert(step_closed(rows0, set![t.id])) by {
            assert forall|i: int|
                0 <= i < rows0.len() && rows0[i].parent_id is Some && set![t.id].contains(
                    #[trigger] rows0[i].parent_id->0,
                ) implies set![t.id].contains(rows0[i].id) by {
                let j = choose|j: int| 0 <= j < rows0.len() && rows0[j].id == rows0[i].parent_id
                    ->0;
                assert(rows0[j].id != t.id);
            }
        }
        lemma_desc_least(rows0, t.id, set![t.id]);
    }
    assert forall|i: int|
        0 <= i < rows1.len() && (#[trigger] rows1[i]).parent_id is Some implies !desc(
        rows1,
        rows1[i].id,
    ).contains(rows1[i].parent_id->0) by {
        let p = rows1[i].parent_id->0;
        if desc(rows1, rows1[i].id).contains(p) {
            assert(p != t.id);
            if i < rows0.len() {
                assert(rows1[i] == rows0[i]);
                assert(desc(rows0, rows0[i].id).contains(p));
            } else {
                assert(rows1[i] == t);
                assert(desc(rows0, t.id).contains(p));
                assert(set![t.id].contains(p));
            }
        }
    }
}

/// Dropping rows keeps the forest acyclic: every remaining row keeps its
/// link, and every remaining subtree only shrinks.
pub proof fn lemma_drop_keeps_acyclic(rows0: Seq<Todo>, rows1: Seq<Todo>)
    requires
        acyclic(rows0),
        forall|k: int| 0 <= k < rows1.len() ==> row_of(rows0, #[trigger] rows1[k]),
    ensures
        acyclic(rows1),
{
    assert forall|y: i64, id: i64| #[trigger] desc(rows1, y).contains(id) implies desc(
        rows0,
        y,
    ).contains(id) by {
        lemma_desc_contains_self(rows0, y);
        lemma_desc_closed(rows0, y);
        assert(step_closed(rows1, desc(rows0, y))) by {
            assert forall|i: int|
                0 <= i < rows1.len() && rows1[i].parent_id is Some && desc(rows0, y).contains(
                    #[trigger] rows1[i].parent_id->0,
                ) implies desc(rows0, y).contains(rows1[i].id) by {
                let m = choose|m: int| 0 <= m < rows0.len() && rows0[m] == rows1[i];
                assert(desc(rows0, y).contains(rows0[m].id));
            }
        }
        lemma_desc_least(rows1, y, desc(rows0, y));
    }
    assert forall|i: int|
        0 <= i < rows1.len() && (#[trigger] rows1[i]).parent_id is Some implies !desc(
        rows1,
        rows1[i].id,
    ).contains(rows1[i].parent_id->0) by {
        let m = choose|m: int| 0 <= m < rows0.len() && rows0[m] == rows1[i];
        if desc(rows1, rows1[i].id).contains(rows1[i].parent_id->0) {
            assert(desc(rows0, rows0[m].id).contains(rows0[m].parent_id->0));
        }
    }
}

/// Whether `v` holds `x`, by linear scan.
pub fn contains_id(v: &Vec<i64>, x: i64) -> (b: bool)
    ensures
        b == v@.contains(x),
{
    let mut i: usize = 0;
    while i < v.len()
        invariant
            0 <= i <= v.len(),
            forall|j: int| 0 <= j < i ==> v@[j] != x,
        decreases v.len() - i,
    {
        if v[i] == x {
            return true;
        }
        i = i + 1;
    }
    false
}

/// Computes the set of all transitive descendants of `x` (with `x`
/// itself), as a duplicate-free vector of ids.
#[verifier::loop_isolation(false)]
pub fn descendant_ids(todos: &Vec<Todo>, x: i64) -> (r: Vec<i64>)
    ensures
        r@.to_set() == desc(todos@, x),
        r@.no_duplicates(),
{
    let ghost rows = todos@;
    let ghost all_ids: Set<i64> = id_seq(rows).to_set().insert(x);
    proof {
        id_seq(rows).lemma_cardinality_of_set();
        broadcast use vstd::seq_lib::seq_to_set_is_finite;

        assert(all_ids.finite());
        assert(id_seq(rows).len() == rows.len());
        assert(all_ids.len() <= rows.len() + 1);
    }
    let mut r: Vec<i64> = Vec::new();
    r.push(x);
    proof {
        assert(r@.len() == 1 && r@[0] == x);
        lemma_desc_contains_self(rows, x);
        assert forall|y: i64| r@.to_set().contains(y) implies desc(rows, x).contains(y) by {
            let j = choose|j: int| 0 <= j < r@.len() && r@[j] == y;
            assert(j == 0 && y == x);
        }
        assert forall|y: i64| r@.to_set().contains(y) implies all_ids.contains(y) by {
            let j = choose|j: int| 0 <= j < r@.len() && r@[j] == y;
            assert(j == 0 && y == x);
        }
    }
    let mut changed = true;
    while changed
        invariant
            r@.no_duplicates(),
            r@.contains(x),
            r@.to_set().subset_of(desc(rows, x)),
            r@.to_set().subset_of(all_ids),
            all_ids.finite(),
            all_ids.len() <= rows.len() + 1,
            rows == todos@,
            !changed ==> step_closed(rows, r@.to_set()),
        decreases (rows.len() + 1 - r.len()) as int + (if changed { 1int } else { 0int }),
    {
        let ghost r_begin = r@;
        let ghost len_begin = r.len();
        proof {
            r@.unique_seq_to_set();
            vstd::set_lib::lemma_len_subset(r@.to_set(), all_ids);
        }
        changed = false;
        let mut i: usize = 0;
        while i < todos.len()
            invariant
                r@.no_duplicates(),
                r@.contains(x),
                r@.to_set().subset_of(desc(rows, x)),
                r@.to_set().subset_of(all_ids),
                all_ids.finite(),
                all_ids.len() <= rows.len() + 1,
                rows == todos@,
                0 <= i <= todos.len(),
                r_begin.to_set().subset_of(r@.to_set()),
                changed ==> r.len() > len_begin,
                !changed ==> r@ == r_begin,
                len_begin <= r.len() <= rows.len() + 1,
                forall|j: int|
                    0 <= j < i && rows[j].parent_id is Some && r_begin.to_set().contains(
                        #[trigger] rows[j].parent_id->0,
                    ) ==> r@.to_set().contains(rows[j].id),
            decreases todos.len() - i,
        {
            let t_parent = todos[i].parent_id;
            let t_id = todos[i].id;
            match t_parent {
                Some(p) => {
                    if contains_id(&r, p) && !contains_id(&r, t_id) {
                        proof {
                            // the pushed id stays inside the descendant set
                            assert(r@.to_set().contains(p));
                            lemma_desc_closed(rows, x);
                            assert(desc(rows, x).contains(t_id));
                            // and inside the finite id universe, strictly growing
                            assert(all_ids.contains(t_id)) by {
                                assert(id_seq(rows).len() == rows.len());
                                assert(id_seq(rows)[i as int] == t_id);
                                assert(id_seq(rows).contains(t_id));
                            }
                            r@.unique_seq_to_set();
                            assert(!r@.to_set().contains(t_id));
                            vstd::set_lib::lemma_len_subset(r@.to_set(), all_ids.remove(t_id));
                            assert(r.len() <= all_ids.len() - 1);
                        }
                        let ghost prev = r@;
                        r.push(t_id);
                        changed = true;
                        proof {
                            assert(r@ == prev.push(t_id));
                            assert(r@.contains(x)) by {
                                let j = choose|j: int| 0 <= j < prev.len() && prev[j] == x;
                                assert(r@[j] == x);
                            }
                            assert(r@.to_set() =~= prev.to_set().insert(t_id)) by {
                                assert forall|y: i64| r@.to_set().contains(y)
                                    implies prev.to_set().insert(t_id).contains(y) by {
                                    let j = choose|j: int| 0 <= j < r@.len() && r@[j] == y;
                                    if j < prev.len() {
                                        assert(prev[j] == y);
                                    } else {
                                        assert(y == t_id);
                                    }
                                }
                                assert forall|y: i64| prev.to_set().insert(t_id).contains(y)
                                    implies r@.to_set().contains(y) by {
                                    if y == t_id {
                                        assert(r@[r@.len() - 1] == y);
                                    } else {
                                        let j = choose|j: int|
                                            0 <= j < prev.len() && prev[j] == y;
                                        assert(r@[j] == y);
                                    }
                                }
                            }
                            assert(r@.no_duplicates()) by {
                                assert forall|a: int, b: int|
                                    0 <= a < r@.len() && 0 <= b < r@.len() && a != b
                                    implies r@[a] != r@[b] by {
                                    if a < prev.len() && b < prev.len() {
                                        assert(prev[a] == r@[a] && prev[b] == r@[b]);
                                    } else if a < prev.len() {
                                        assert(r@[b] == t_id && r@[a] == prev[a]);
                                        assert(prev.to_set().contains(prev[a]) == prev.contains(
                                            prev[a],
                                        ));
                                    } else {
                                        assert(r@[a] == t_id && r@[b] == prev[b]);
                                    }
                                }
                            }
                        }
                    }
                },
                None => {},
            }
            i = i + 1;
        }
        proof {
            if !changed {
                assert(step_closed(rows, r@.to_set()));
            }
            r@.unique_seq_to_set();
            vstd::set_lib::lemma_len_subset(r@.to_set(), all_ids);
        }
    }
    proof {
        lemma_desc_least(rows, x, r@.to_set());
        assert(r@.to_set() =~= desc(rows, x));
    }
    r
}

} // verus!
