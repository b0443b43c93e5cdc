//! The mutation engine: an in-memory store of todo rows and settings
//! rows, with create, partial-update, reorder and delete operations whose
//! cascades follow the tree index, and an upsert/fetch settings store.

use vstd::prelude::*;
use crate::order::le;
use crate::order::le_todo;
use crate::order::lemma_insert_split;
use crate::order::sort_rows;
use crate::tree::acyclic;
use crate::tree::contains_id;
use crate::tree::desc;
use crate::tree::descendant_ids;
use crate::tree::has_id;
use crate::tree::lemma_desc_closed;
use crate::tree::lemma_desc_contains_self;
use crate::tree::lemma_drop_keeps_acyclic;
use crate::tree::lemma_push_keeps_acyclic;
use crate::tree::lemma_relink_keeps_acyclic;
use crate::tree::row_of;
use crate::tree::step_closed;
use crate::tree::unique_ids;
use crate::types::Setting;
use crate::types::Todo;
use crate::types::TodoError;
use crate::types::TodoUpdate;

verus! {

/// The row `t` with every field slot of `u` that is present written over
/// the stored value; absent slots leave the field untouched.
pub open spec fn apply_fields(t: Todo, u: TodoUpdate) -> Todo {
    Todo {
        id: t.id,
        parent_id: if u.parent_id is Some { u.parent_id->0 } else { t.parent_id },
        title: if u.title is Some { u.title->0 } else { t.title },
        completed: if u.completed is Some { u.completed->0 } else { t.completed },
        sort_order: if u.sort_order is Some { u.sort_order->0 } else { t.sort_order },
        description: if u.description is Some { u.description->0 } else { t.description },
        priority: if u.priority is Some { u.priority->0 } else { t.priority },
        due_date: if u.due_date is Some { u.due_date->0 } else { t.due_date },
    }
}

/// The row `t` with only its completion flag replaced.
pub open spec fn with_completed(t: Todo, v: bool) -> Todo {
    Todo { completed: v, ..t }
}

/// The row `t` with only its parent and sibling position replaced.
pub open spec fn with_position(t: Todo, parent_id: Option<i64>, sort_order: i64) -> Todo {
    Todo { parent_id, sort_order, ..t }
}

/// The rows of `s` that survive deleting `x`: every row whose id is
/// neither `x` nor a transitive descendant of `x` in `rows0`.
pub open spec fn surviving(rows0: Seq<Todo>, x: i64, s: Seq<Todo>) -> Seq<Todo> {
    s.filter(|t: Todo| !desc(rows0, x).contains(t.id))
}

/// What one successful `update_todo(x, u)` leaves of row `i`: the target
/// gets all supplied fields; when a completion value is supplied it
/// cascades to every transitive descendant; every other row is untouched.
pub open spec fn updated_row(rows0: Seq<Todo>, x: i64, u: TodoUpdate, i: int) -> Todo {
    if rows0[i].id == x {
        apply_fields(rows0[i], u)
    } else if u.completed is Some && desc(rows0, x).contains(rows0[i].id) {
        with_completed(rows0[i], u.completed->0)
    } else {
        rows0[i]
    }
}

/// No two settings rows share a key.
pub open spec fn unique_keys(s: Seq<Setting>) -> bool {
    forall|i: int, j: int|
        0 <= i < s.len() && 0 <= j < s.len() && i != j ==> s[i].key@ != s[j].key@
}

/// Some settings row carries the key `k`.
pub open spec fn has_key(s: Seq<Setting>, k: Seq<char>) -> bool {
    exists|i: int| 0 <= i < s.len() && s[i].key@ == k
}

/// The key/value mapping held by the settings rows; a later row wins,
/// though under `unique_keys` no key occurs twice.
pub open spec fn pairs_to_map(s: Seq<Setting>) -> Map<Seq<char>, Seq<char>>
    decreases s.len(),
{
    if s.len() == 0 {
        Map::empty()
    } else {
        pairs_to_map(s.drop_last()).insert(s.last().key@, s.last().value@)
    }
}

/// The durable state: the todo table, the settings table, and the next
/// id the store will assign.
pub struct TodoStore {
    todos: Vec<Todo>,
    settings: Vec<Setting>,
    next_id: i64,
}

impl TodoStore {
    /// The todo rows, in storage order.
    pub closed spec fn rows(self) -> Seq<Todo> {
        self.todos@
    }

    /// The settings rows, in storage order.
    pub closed spec fn settings_rows(self) -> Seq<Setting> {
        self.settings@
    }

    /// The id the next created todo will receive.
    pub closed spec fn next_id_spec(self) -> i64 {
        self.next_id
    }

    /// The key/value mapping currently held by the settings table.
    pub open spec fn settings_map(self) -> Map<Seq<char>, Seq<char>> {
        pairs_to_map(self.settings_rows())
    }

    /// Well-formedness: ids are unique, positive and below `next_id`;
    /// every parent link names an existing row; titles are non-empty;
    /// settings keys are unique and non-empty.
    pub open spec fn wf(self) -> bool {
        &&& 0 < self.next_id_spec()
        &&& unique_ids(self.rows())
        &&& acyclic(self.rows())
        &&& forall|i: int|
            0 <= i < self.rows().len() && (#[trigger] self.rows()[i]).parent_id is Some
                ==> has_id(self.rows(), self.rows()[i].parent_id->0)
        &&& forall|i: int|
            0 <= i < self.rows().len() ==> (#[trigger] self.rows()[i]).title@.len() > 0
        &&& forall|i: int|
            0 <= i < self.rows().len() ==> 0 < (#[trigger] self.rows()[i]).id < self.next_id_spec()
        &&& unique_keys(self.settings_rows())
        &&& forall|i: int|
            0 <= i < self.settings_rows().len()
                ==> (#[trigger] self.settings_rows()[i]).key@.len() > 0
    }

    /// A fresh, empty store; ids start at 1.
    pub fn new() -> (s: Self)
        ensures
            s.wf(),
            s.rows() == Seq::<Todo>::empty(),
            s.settings_rows() == Seq::<Setting>::empty(),
            s.next_id_spec() == 1,
    {
        TodoStore { todos: Vec::new(), settings: Vec::new(), next_id: 1 }
    }

    /// Whether the store can still assign a fresh id: `create_todo` asks
    /// its callers for this machine-limit headroom.
    pub fn can_assign_id(&self) -> (b: bool)
        ensures
            b == (self.next_id_spec() < i64::MAX),
    {
        self.next_id < i64::MAX
    }

    /// Inserts a new root-or-child todo with the supplied title,
    /// description, priority and due date; it starts uncompleted, with
    /// sibling position 0, under the supplied parent (or at root level).
    ///
    /// An empty title is rejected as `InvalidValue`; a dangling parent id
    /// as `InvalidReference`. On failure the store is unchanged.
    pub fn create_todo(
        &mut self,
        title: String,
        parent_id: Option<i64>,
        description: String,
        priority: i64,
        due_date: Option<String>,
    ) -> (r: Result<(), TodoError>)
        requires
            old(self).wf(),
            old(self).next_id_spec() < i64::MAX,
        ensures
            final(self).wf(),
            final(self).settings_rows() == old(self).settings_rows(),
            r == Err::<(), TodoError>(TodoError::InvalidValue) <==> title@.len() == 0,
            r == Err::<(), TodoError>(TodoError::InvalidReference) <==> title@.len() > 0
                && parent_id is Some && !has_id(old(self).rows(), parent_id->0),
            r is Err ==> final(self).rows() == old(self).rows() && final(self).next_id_spec()
                == old(self).next_id_spec(),
            r is Ok <==> title@.len() > 0 && (parent_id is Some ==> has_id(
                old(self).rows(),
                parent_id->0,
            )),
            r is Ok ==> final(self).rows() == old(self).rows().push(
                Todo {
                    id: old(self).next_id_spec(),
                    parent_id,
                    title,
                    completed: false,
                    sort_order: 0,
                    description,
                    priority,
                    due_date,
                },
            ) && final(self).next_id_spec() == old(self).next_id_spec() + 1,
    {
        if title.as_str().unicode_len() == 0 {
            return Err(TodoError::InvalidValue);
        }
        match parent_id {
            Some(p) => {
                if !has_todo(&self.todos, p) {
                    return Err(TodoError::InvalidReference);
                }
            },
            None => {},
        }
        let id = self.next_id;
        self.next_id = self.next_id + 1;
        let row = Todo {
            id,
            parent_id,
            title,
            completed: false,
            sort_order: 0,
            description,
            priority,
            due_date,
        };
        self.todos.push(row);
        proof {
            let rows0 = old(self).rows();
            let rows1 = self.rows();
            assert forall|i: int|
                0 <= i < rows1.len() && (#[trigger] rows1[i]).parent_id is Some implies has_id(
                rows1,
                rows1[i].parent_id->0,
            ) by {
                if i < rows0.len() {
                    let j = choose|j: int|
                        0 <= j < rows0.len() && rows0[j].id == rows1[i].parent_id->0;
                    assert(rows1[j].id == rows1[i].parent_id->0);
                } else {
                    let j = choose|j: int| 0 <= j < rows0.len() && rows0[j].id == parent_id->0;
                    assert(rows1[j].id == rows1[i].parent_id->0);
                }
            }
            let trow = rows1.last();
            assert(rows1 == rows0.push(trow));
            assert forall|i: int| 0 <= i < rows0.len() implies (#[trigger] rows0[i]).id
                != trow.id by {}
            lemma_push_keeps_acyclic(rows0, trow);
        }
        Ok(())
    }

    /// Applies a partial update to row `x`, cascading any supplied
    /// completion value to the whole subtree of `x` as one operation.
    ///
    /// A missing target is `NotFound`; a supplied empty title is
    /// `InvalidValue`; a supplied parent that is dangling, the target
    /// itself, or a descendant of the target (which would close a cycle)
    /// is `InvalidReference`. An update with no supplied field succeeds
    /// and changes nothing. On failure the store is unchanged.
    pub fn update_todo(&mut self, x: i64, u: TodoUpdate) -> (r: Result<(), TodoError>)
        requires
            old(self).wf(),
        ensures
            final(self).wf(),
            final(self).settings_rows() == old(self).settings_rows(),
            final(self).next_id_spec() == old(self).next_id_spec(),
            r == Err::<(), TodoError>(TodoError::NotFound) <==> !has_id(old(self).rows(), x),
            r == Err::<(), TodoError>(TodoError::InvalidValue) <==> has_id(old(self).rows(), x)
                && u.title is Some && (u.title->0)@.len() == 0,
            r == Err::<(), TodoError>(TodoError::InvalidReference) <==> has_id(
                old(self).rows(),
                x,
            ) && (u.title is Some ==> (u.title->0)@.len() > 0) && u.parent_id is Some
                && u.parent_id->0 is Some && (!has_id(old(self).rows(), u.parent_id->0->0) || desc(
                old(self).rows(),
                x,
            ).contains(u.parent_id->0->0)),
            r is Err ==> final(self).rows() == old(self).rows(),
            r is Ok <==> has_id(old(self).rows(), x) && (u.title is Some ==> (u.title->0)@.len()
                > 0) && (u.parent_id is Some && u.parent_id->0 is Some ==> has_id(
                old(self).rows(),
                u.parent_id->0->0,
            ) && !desc(old(self).rows(), x).contains(u.parent_id->0->0)),
            r is Ok ==> final(self).rows().len() == old(self).rows().len() && (forall|i: int|
                0 <= i < old(self).rows().len() ==> final(self).rows()[i] == updated_row(
                    old(self).rows(),
                    x,
                    u,
                    i,
                )),
    {
        let ghost rows0 = self.rows();
        let idx = match find_todo(&self.todos, x) {
            None => {
                return Err(TodoError::NotFound);
            },
            Some(i) => i,
        };
        match &u.title {
            Some(t) => {
                if t.as_str().unicode_len() == 0 {
                    return Err(TodoError::InvalidValue);
                }
            },
            None => {},
        }
        let d = descendant_ids(&self.todos, x);
        match &u.parent_id {
            Some(Some(p)) => {
                if !has_todo(&self.todos, *p) || contains_id(&d, *p) {
                    return Err(TodoError::InvalidReference);
                }
            },
            _ => {},
        }
        // cascade the completion value over the subtree, target included
        match u.completed {
            Some(v) => {
                let mut i: usize = 0;
                #[verifier::loop_isolation(false)]
                while i < self.todos.len()
                    invariant
                        self.todos@.len() == rows0.len(),
                        0 <= i <= rows0.len(),
                        self.settings@ == old(self).settings@,
                        self.next_id == old(self).next_id,
                        forall|j: int|
                            0 <= j < i ==> self.todos@[j] == (if desc(rows0, x).contains(
                                rows0[j].id,
                            ) {
                                with_completed(rows0[j], v)
                            } else {
                                rows0[j]
                            }),
                        forall|j: int| i <= j < rows0.len() ==> self.todos@[j] == rows0[j],
                    decreases rows0.len() - i,
                {
                    if contains_id(&d, self.todos[i].id) {
                        let ghost prev = self.todos@;
                        let mut t = self.todos.remove(i);
                        t.completed = v;
                        self.todos.insert(i, t);
                        proof {
                            assert(self.todos@ =~= prev.update(
                                i as int,
                                with_completed(rows0[i as int], v),
                            ));
                        }
                    }
                    i = i + 1;
                }
            },
            None => {},
        }
        // apply the supplied fields to the target row itself
        let ghost rows_mid = self.todos@;
        let mut t = self.todos.remove(idx);
        let TodoUpdate { title, completed, sort_order, parent_id, description, priority, due_date }
            = u;
        match title {
            Some(s) => {
                t.title = s;
            },
            None => {},
        }
        match completed {
            Some(v) => {
                t.completed = v;
            },
            None => {},
        }
        match sort_order {
            Some(s) => {
                t.sort_order = s;
            },
            None => {},
        }
        match parent_id {
            Some(p) => {
                t.parent_id = p;
            },
            None => {},
        }
        match description {
            Some(s) => {
                t.description = s;
            },
            None => {},
        }
        match priority {
            Some(p) => {
                t.priority = p;
            },
            None => {},
        }
        match due_date {
            Some(dd) => {
                t.due_date = dd;
            },
            None => {},
        }
        self.todos.insert(idx, t);
        proof {
            let rows1 = self.rows();
            assert(rows1 =~= rows_mid.update(idx as int, apply_fields(rows0[idx as int], u)));
            lemma_desc_contains_self(rows0, x);
            assert forall|i: int| 0 <= i < rows0.len() implies rows1[i] == updated_row(
                rows0,
                x,
                u,
                i,
            ) by {
                if i != idx {
                    assert(rows0[i].id != x);
                }
            }
            let np = if u.parent_id is Some {
                u.parent_id->0
            } else {
                rows0[idx as int].parent_id
            };
            assert forall|i: int| 0 <= i < rows0.len() implies (#[trigger] rows1[i]).id
                == rows0[i].id by {}
            assert forall|i: int|
                0 <= i < rows0.len() && (#[trigger] rows0[i]).id == x implies rows1[i].parent_id
                == np by {
                assert(i == idx);
            }
            assert(np is Some ==> !desc(rows0, x).contains(np->0)) by {
                if u.parent_id is None && rows0[idx as int].parent_id is Some {
                    assert(!desc(rows0, rows0[idx as int].id).contains(
                        rows0[idx as int].parent_id->0,
                    ));
                }
            }
            lemma_relink_keeps_acyclic(rows0, rows1, x, np);
            lemma_update_preserves_wf(*old(self), *self, x, u);
        }
        Ok(())
    }

    /// Moves row `x` to a new parent (or to root level) and a new sibling
    /// position, in one write; siblings are not renumbered.
    ///
    /// A missing target is `NotFound`; a new parent that is dangling, the
    /// target itself, or a descendant of the target (which would close a
    /// cycle) is `InvalidReference`. On failure the store is unchanged.
    pub fn reorder_todo(
        &mut self,
        x: i64,
        new_parent_id: Option<i64>,
        new_sort_order: i64,
    ) -> (r: Result<(), TodoError>)
        requires
            old(self).wf(),
        ensures
            final(self).wf(),
            final(self).settings_rows() == old(self).settings_rows(),
            final(self).next_id_spec() == old(self).next_id_spec(),
            r == Err::<(), TodoError>(TodoError::NotFound) <==> !has_id(old(self).rows(), x),
            r == Err::<(), TodoError>(TodoError::InvalidReference) <==> has_id(
                old(self).rows(),
                x,
            ) && new_parent_id is Some && (!has_id(old(self).rows(), new_parent_id->0) || desc(
                old(self).rows(),
                x,
            ).contains(new_parent_id->0)),
            r is Err ==> final(self).rows() == old(self).rows(),
            r is Ok <==> has_id(old(self).rows(), x) && (new_parent_id is Some ==> has_id(
                old(self).rows(),
                new_parent_id->0,
            ) && !desc(old(self).rows(), x).contains(new_parent_id->0)),
            r is Ok ==> final(self).rows().len() == old(self).rows().len() && (forall|i: int|
                0 <= i < old(self).rows().len() ==> final(self).rows()[i] == (
                if old(self).rows()[i].id == x {
                    with_position(old(self).rows()[i], new_parent_id, new_sort_order)
                } else {
                    old(self).rows()[i]
                })),
    {
        let ghost rows0 = self.rows();
        let idx = match find_todo(&self.todos, x) {
            None => {
                return Err(TodoError::NotFound);
            },
            Some(i) => i,
        };
        match new_parent_id {
            Some(p) => {
                let d = descendant_ids(&self.todos, x);
                if !has_todo(&self.todos, p) || contains_id(&d, p) {
                    return Err(TodoError::InvalidReference);
                }
            },
            None => {},
        }
        let mut t = self.todos.remove(idx);
        t.parent_id = new_parent_id;
        t.sort_order = new_sort_order;
        self.todos.insert(idx, t);
        proof {
            let rows1 = self.rows();
            assert(rows1 =~= rows0.update(
                idx as int,
                with_position(rows0[idx as int], new_parent_id, new_sort_order),
            ));
            assert forall|i: int|
                0 <= i < rows1.len() && (#[trigger] rows1[i]).parent_id is Some implies has_id(
                rows1,
                rows1[i].parent_id->0,
            ) by {
                let p = rows1[i].parent_id->0;
                if i == idx {
                    let j = choose|j: int| 0 <= j < rows0.len() && rows0[j].id == p;
                    assert(rows1[j].id == p);
                } else {
                    let j = choose|j: int| 0 <= j < rows0.len() && rows0[j].id == rows0[i].parent_id->0;
                    assert(rows1[j].id == p);
                }
            }
            assert forall|i: int| 0 <= i < rows0.len() implies (#[trigger] rows1[i]).id
                == rows0[i].id by {}
            assert forall|i: int|
                0 <= i < rows0.len() && (#[trigger] rows0[i]).id == x implies rows1[i].parent_id
                == new_parent_id by {
                assert(i == idx);
            }
            lemma_relink_keeps_acyclic(rows0, rows1, x, new_parent_id);
        }
        Ok(())
    }

    /// Deletes row `x` and, with it, its entire subtree, as one
    /// operation: exactly the rows whose id lies outside the descendant
    /// set of `x` survive, in their original order.
    ///
    /// A missing target is `NotFound`, and the store is then unchanged.
    pub fn delete_todo(&mut self, x: i64) -> (r: Result<(), TodoError>)
        requires
            old(self).wf(),
        ensures
            final(self).wf(),
            final(self).settings_rows() == old(self).settings_rows(),
            final(self).next_id_spec() == old(self).next_id_spec(),
            r == Err::<(), TodoError>(TodoError::NotFound) <==> !has_id(old(self).rows(), x),
            r is Err ==> final(self).rows() == old(self).rows(),
            r is Ok <==> has_id(old(self).rows(), x),
            r is Ok ==> final(self).rows() == surviving(old(self).rows(), x, old(self).rows()),
            r is Ok ==> forall|j: int|
                0 <= j < final(self).rows().len() ==> !desc(old(self).rows(), x).contains(
                    (#[trigger] final(self).rows()[j]).id,
                ),
    {
        let ghost rows0 = self.rows();
        if !has_todo(&self.todos, x) {
            return Err(TodoError::NotFound);
        }
        let d = descendant_ids(&self.todos, x);
        let mut kept: Vec<Todo> = Vec::new();
        proof {
            assert(rows0.take(0) =~= Seq::<Todo>::empty());
        }
        let mut i: usize = 0;
        #[verifier::loop_isolation(false)]
        while i < self.todos.len()
            invariant
                0 <= i <= rows0.len(),
                self.todos@ == rows0,
                kept@ == surviving(rows0, x, rows0.take(i as int)),
                forall|k: int|
                    0 <= k < kept@.len() ==> exists|m: int|
                        0 <= m < i && rows0[m] == #[trigger] kept@[k],
                forall|k: int|
                    0 <= k < kept@.len() ==> !desc(rows0, x).contains((#[trigger] kept@[k]).id),
                forall|m: int|
                    0 <= m < i && !desc(rows0, x).contains((#[trigger] rows0[m]).id)
                        ==> exists|k: int| 0 <= k < kept@.len() && kept@[k] == rows0[m],
                unique_ids(kept@),
            decreases rows0.len() - i,
        {
            let ghost prefix = rows0.take(i as int);
            let ghost kept0 = kept@;
            let keep = !contains_id(&d, self.todos[i].id);
            if keep {
                let row = self.todos[i].clone();
                kept.push(row);
                proof {
                    assert(kept@[kept@.len() - 1] == rows0[i as int]);
                    assert(unique_ids(kept@)) by {
                        assert forall|a: int, b: int|
                            0 <= a < kept@.len() && 0 <= b < kept@.len() && a != b
                            implies kept@[a].id != kept@[b].id by {
                            if a < kept0.len() && b < kept0.len() {
                                assert(kept@[a] == kept0[a] && kept@[b] == kept0[b]);
                            } else if a < kept0.len() {
                                assert(kept@[b] == rows0[i as int] && kept@[a] == kept0[a]);
                                let m = choose|m: int| 0 <= m < i && rows0[m] == kept0[a];
                            } else {
                                assert(kept@[a] == rows0[i as int] && kept@[b] == kept0[b]);
                                let m = choose|m: int| 0 <= m < i && rows0[m] == kept0[b];
                            }
                        }
                    }
                }
            }
            proof {
                assert(rows0.take(i as int + 1) == prefix.push(rows0[i as int])) by {
                    assert(rows0.take(i as int + 1) =~= prefix.push(rows0[i as int]));
                }
                lemma_surviving_push(rows0, x, prefix, rows0[i as int]);
                assert forall|m: int|
                    0 <= m < i + 1 && !desc(rows0, x).contains((#[trigger] rows0[m]).id)
                    implies exists|k: int| 0 <= k < kept@.len() && kept@[k] == rows0[m] by {
                    if m < i {
                        let k = choose|k: int| 0 <= k < kept0.len() && kept0[k] == rows0[m];
                        assert(kept@[k] == rows0[m]);
                    } else {
                        assert(kept@[kept@.len() - 1] == rows0[m]);
                    }
                }
            }
            i = i + 1;
        }
        proof {
            assert(rows0.take(rows0.len() as int) == rows0);
        }
        self.todos = kept;
        proof {
            assert forall|k: int| 0 <= k < self.rows().len() implies row_of(
                rows0,
                #[trigger] self.rows()[k],
            ) by {
                let m = choose|m: int| 0 <= m < rows0.len() && rows0[m] == self.rows()[k];
                assert(0 <= m < rows0.len() && rows0[m] == self.rows()[k]);
            }
            lemma_drop_keeps_acyclic(rows0, self.rows());
            lemma_delete_preserves_wf(*old(self), *self, x);
        }
        Ok(())
    }

    /// Returns every todo row, ordered by `(sort_order, id)` ascending —
    /// the total order consumed by presentation layers; the result holds
    /// exactly the stored rows.
    pub fn list_todos(&self) -> (r: Vec<Todo>)
        ensures
            r@ == sort_rows(self.rows()),
    {
        let ghost rows = self.todos@;
        let mut out: Vec<Todo> = Vec::new();
        proof {
            assert(rows.take(0) =~= Seq::<Todo>::empty());
        }
        let mut i: usize = 0;
        #[verifier::loop_isolation(false)]
        while i < self.todos.len()
            invariant
                0 <= i <= rows.len(),
                out@ == sort_rows(rows.take(i as int)),
            decreases rows.len() - i,
        {
            let t = self.todos[i].clone();
            let ghost prev = out@;
            let j = insert_pos(&out, &t);
            out.insert(j, t);
            proof {
                lemma_insert_split(prev, rows[i as int], j as int);
                assert(out@ =~= prev.take(j as int) + seq![rows[i as int]] + prev.skip(j as int));
                assert(rows.take(i as int + 1).drop_last() =~= rows.take(i as int));
                assert(rows.take(i as int + 1).last() == rows[i as int]);
            }
            i = i + 1;
        }
        proof {
            assert(rows.take(rows.len() as int) == rows);
        }
        out
    }

    /// Returns the full key/value mapping of the settings table, as its
    /// rows in storage order.
    pub fn get_settings(&self) -> (r: Vec<Setting>)
        ensures
            r@ == self.settings_rows(),
    {
        let mut out: Vec<Setting> = Vec::new();
        let mut i: usize = 0;
        while i < self.settings.len()
            invariant
                0 <= i <= self.settings@.len(),
                out@ == self.settings@.take(i as int),
            decreases self.settings@.len() - i,
        {
            out.push(self.settings[i].clone());
            proof {
                assert(out@ =~= self.settings@.take(i as int + 1));
            }
            i = i + 1;
        }
        proof {
            assert(self.settings@.take(self.settings@.len() as int) == self.settings@);
        }
        out
    }

    /// Upserts one setting: inserts the pair if the key is absent,
    /// overwrites the value if it is present. An empty key is rejected
    /// as `InvalidValue`; the todo table is never touched.
    pub fn save_setting(&mut self, key: String, value: String) -> (r: Result<(), TodoError>)
        requires
            old(self).wf(),
        ensures
            final(self).wf(),
            final(self).rows() == old(self).rows(),
            final(self).next_id_spec() == old(self).next_id_spec(),
            r == Err::<(), TodoError>(TodoError::InvalidValue) <==> key@.len() == 0,
            r is Err ==> final(self).settings_rows() == old(self).settings_rows(),
            r is Ok <==> key@.len() > 0,
            r is Ok ==> final(self).settings_map() == old(self).settings_map().insert(key@, value@),
            r is Ok ==> final(self).settings_rows().len() == (if has_key(
                old(self).settings_rows(),
                key@,
            ) {
                old(self).settings_rows().len()
            } else {
                old(self).settings_rows().len() + 1
            }),
    {
        let ghost srows0 = self.settings_rows();
        if key.as_str().unicode_len() == 0 {
            return Err(TodoError::InvalidValue);
        }
        let mut i: usize = 0;
        #[verifier::loop_isolation(false)]
        while i < self.settings.len()
            invariant
                0 <= i <= srows0.len(),
                self.settings@ == srows0,
                self.todos@ == old(self).todos@,
                self.next_id == old(self).next_id,
                forall|j: int| 0 <= j < i ==> (#[trigger] srows0[j]).key@ != key@,
            decreases srows0.len() - i,
        {
            if self.settings[i].key == key {
                let row = Setting { key, value };
                let ghost p = row;
                let _old_row = self.settings.remove(i);
                self.settings.insert(i, row);
                proof {
                    assert(self.settings@ =~= srows0.update(i as int, p));
                    lemma_pairs_update(srows0, i as int, p);
                    assert(has_key(srows0, key@));
                    let s2 = self.settings@;
                    assert forall|a: int| 0 <= a < s2.len() implies (#[trigger] s2[a]).key@
                        == srows0[a].key@ && s2[a].key@.len() > 0 by {
                        if a != i {
                            assert(s2[a] == srows0[a]);
                        }
                    }
                    assert(unique_keys(s2));
                }
                return Ok(());
            }
            i = i + 1;
        }
        let row = Setting { key, value };
        let ghost p = row;
        self.settings.push(row);
        proof {
            assert(self.settings@.drop_last() =~= srows0);
            assert(pairs_to_map(self.settings@) == pairs_to_map(srows0).insert(p.key@, p.value@));
            assert(!has_key(srows0, key@));
            let s2 = self.settings@;
            assert(unique_keys(s2)) by {
                assert forall|a: int, b: int|
                    0 <= a < s2.len() && 0 <= b < s2.len() && a != b implies s2[a].key@
                    != s2[b].key@ by {
                    if a < srows0.len() && b < srows0.len() {
                        assert(s2[a] == srows0[a] && s2[b] == srows0[b]);
                    } else if a < srows0.len() {
                        assert(s2[a] == srows0[a] && s2[b] == p);
                    } else {
                        assert(s2[a] == p && s2[b] == srows0[b]);
                    }
                }
            }
            assert forall|a: int| 0 <= a < s2.len() implies (#[trigger] s2[a]).key@.len() > 0 by {
                if a < srows0.len() {
                    assert(s2[a] == srows0[a]);
                } else {
                    assert(s2[a] == p);
                }
            }
        }
        Ok(())
    }
}

/// The position before the first row that `t` comes no later than, by
/// forward scan: the sorted insertion point.
fn insert_pos(out: &Vec<Todo>, t: &Todo) -> (j: usize)
    ensures
        j <= out@.len(),
        forall|k: int| 0 <= k < j ==> !le(*t, #[trigger] out@[k]),
        j < out@.len() ==> le(*t, out@[j as int]),
{
    let mut j: usize = 0;
    while j < out.len()
        invariant
            0 <= j <= out@.len(),
            forall|k: int| 0 <= k < j ==> !le(*t, #[trigger] out@[k]),
        decreases out@.len() - j,
    {
        if le_todo(t, &out[j]) {
            return j;
        }
        j = j + 1;
    }
    j
}

/// Whether some row of `todos` carries the id `x`, by linear scan.
pub fn has_todo(todos: &Vec<Todo>, x: i64) -> (b: bool)
    ensures
        b == has_id(todos@, x),
{
    match find_todo(todos, x) {
        Some(_) => true,
        None => false,
    }
}

/// The position of the row carrying id `x`, if any.
fn find_todo(todos: &Vec<Todo>, x: i64) -> (r: Option<usize>)
    ensures
        match r {
            Some(i) => i < todos@.len() && todos@[i as int].id == x,
            None => !has_id(todos@, x),
        },
{
    let mut i: usize = 0;
    while i < todos.len()
        invariant
            0 <= i <= todos@.len(),
            forall|j: int| 0 <= j < i ==> todos@[j].id != x,
        decreases todos@.len() - i,
    {
        if todos[i].id == x {
            return Some(i);
        }
        i = i + 1;
    }
    None
}

/// Filtering one more row keeps the filtered prefix and appends the row
/// exactly when it survives.
proof fn lemma_surviving_push(rows0: Seq<Todo>, x: i64, s: Seq<Todo>, t: Todo)
    ensures
        surviving(rows0, x, s.push(t)) == (if desc(rows0, x).contains(t.id) {
            surviving(rows0, x, s)
        } else {
            surviving(rows0, x, s).push(t)
        }),
{
    reveal_with_fuel(Seq::filter, 2);
    assert(s.push(t).drop_last() =~= s);
    assert(s.push(t).last() == t);
    if !desc(rows0, x).contains(t.id) {
        assert(surviving(rows0, x, s.push(t)) =~= surviving(rows0, x, s).push(t));
    }
}

proof fn lemma_update_preserves_wf(pre: TodoStore, post: TodoStore, x: i64, u: TodoUpdate)
    requires
        pre.wf(),
        acyclic(post.rows()),
        post.next_id_spec() == pre.next_id_spec(),
        post.settings_rows() == pre.settings_rows(),
        post.rows().len() == pre.rows().len(),
        u.title is Some ==> (u.title->0)@.len() > 0,
        u.parent_id is Some && u.parent_id->0 is Some ==> has_id(pre.rows(), u.parent_id->0->0),
        forall|i: int|
            0 <= i < pre.rows().len() ==> post.rows()[i] == updated_row(pre.rows(), x, u, i),
    ensures
        post.wf(),
{
    let rows0 = pre.rows();
    let rows1 = post.rows();
    assert forall|i: int| 0 <= i < rows1.len() implies (#[trigger] rows1[i]).id == rows0[i].id by {}
    assert forall|i: int|
        0 <= i < rows1.len() && (#[trigger] rows1[i]).parent_id is Some implies has_id(
        rows1,
        rows1[i].parent_id->0,
    ) by {
        let p = rows1[i].parent_id->0;
        if rows0[i].id == x && u.parent_id is Some {
            let j = choose|j: int| 0 <= j < rows0.len() && rows0[j].id == p;
            assert(rows1[j].id == p);
        } else {
            assert(rows0[i].parent_id is Some && rows0[i].parent_id->0 == p);
            let j = choose|j: int| 0 <= j < rows0.len() && rows0[j].id == p;
            assert(rows1[j].id == p);
        }
    }
}

proof fn lemma_delete_preserves_wf(pre: TodoStore, post: TodoStore, x: i64)
    requires
        pre.wf(),
        acyclic(post.rows()),
        post.next_id_spec() == pre.next_id_spec(),
        post.settings_rows() == pre.settings_rows(),
        unique_ids(post.rows()),
        forall|k: int|
            0 <= k < post.rows().len() ==> exists|m: int|
                0 <= m < pre.rows().len() && pre.rows()[m] == #[trigger] post.rows()[k],
        forall|k: int|
            0 <= k < post.rows().len() ==> !desc(pre.rows(), x).contains(
                (#[trigger] post.rows()[k]).id,
            ),
        forall|m: int|
            0 <= m < pre.rows().len() && !desc(pre.rows(), x).contains(
                (#[trigger] pre.rows()[m]).id,
            ) ==> exists|k: int| 0 <= k < post.rows().len() && post.rows()[k] == pre.rows()[m],
    ensures
        post.wf(),
{
    let rows0 = pre.rows();
    let rows1 = post.rows();
    assert forall|i: int|
        0 <= i < rows1.len() && (#[trigger] rows1[i]).parent_id is Some implies has_id(
        rows1,
        rows1[i].parent_id->0,
    ) by {
        let m = choose|m: int| 0 <= m < rows0.len() && rows0[m] == rows1[i];
        let p = rows1[i].parent_id->0;
        let j = choose|j: int| 0 <= j < rows0.len() && rows0[j].id == p;
        lemma_desc_closed(rows0, x);
        assert(!desc(rows0, x).contains(p)) by {
            if desc(rows0, x).contains(p) {
                assert(step_closed(rows0, desc(rows0, x)));
                assert(rows0[m].parent_id is Some && rows0[m].parent_id->0 == p);
                assert(desc(rows0, x).contains(rows0[m].id));
                assert(!desc(rows0, x).contains(rows1[i].id));
            }
        }
        assert(!desc(rows0, x).contains(rows0[j].id));
        let k = choose|k: int| 0 <= k < rows1.len() && rows1[k] == rows0[j];
        assert(rows1[k].id == p);
    }
    assert forall|i: int| 0 <= i < rows1.len() implies (#[trigger] rows1[i]).title@.len() > 0 by {
        let m = choose|m: int| 0 <= m < rows0.len() && rows0[m] == rows1[i];
    }
    assert forall|i: int| 0 <= i < rows1.len() implies 0 < (#[trigger] rows1[i]).id
        < post.next_id_spec() by {
        let m = choose|m: int| 0 <= m < rows0.len() && rows0[m] == rows1[i];
    }
}

/// Overwriting the value at the position that carries `p`'s key updates
/// the mapping exactly as a map insert does.
proof fn lemma_pairs_update(s: Seq<Setting>, j: int, p: Setting)
    requires
        unique_keys(s),
        0 <= j < s.len(),
        s[j].key@ == p.key@,
    ensures
        pairs_to_map(s.update(j, p)) == pairs_to_map(s).insert(p.key@, p.value@),
    decreases s.len(),
{
    let s2 = s.update(j, p);
    if j == s.len() - 1 {
        assert(s2.drop_last() =~= s.drop_last());
        assert(s2.last() == p);
        assert(pairs_to_map(s2) == pairs_to_map(s.drop_last()).insert(p.key@, p.value@));
        assert(pairs_to_map(s).insert(p.key@, p.value@) == pairs_to_map(s.drop_last()).insert(
            s.last().key@,
            s.last().value@,
        ).insert(p.key@, p.value@));
        assert(pairs_to_map(s.drop_last()).insert(s.last().key@, s.last().value@).insert(
            p.key@,
            p.value@,
        ) =~= pairs_to_map(s.drop_last()).insert(p.key@, p.value@));
    } else {
        assert(s2.drop_last() =~= s.drop_last().update(j, p));
        assert(s2.last() == s.last());
        lemma_pairs_update(s.drop_last(), j, p);
        assert(pairs_to_map(s2) == pairs_to_map(s.drop_last()).insert(p.key@, p.value@).insert(
            s.last().key@,
            s.last().value@,
        ));
        assert(s.last().key@ != p.key@);
        assert(pairs_to_map(s.drop_last()).insert(p.key@, p.value@).insert(
            s.last().key@,
            s.last().value@,
        ) =~= pairs_to_map(s.drop_last()).insert(s.last().key@, s.last().value@).insert(
            p.key@,
            p.value@,
        ));
    }
}

} // verus!
