use todo_engine::store::TodoStore;
use todo_engine::Todo;
use todo_engine::TodoError;
use todo_engine::TodoUpdate;

fn upd() -> TodoUpdate {
    TodoUpdate::empty()
}

fn by_id(rows: &[Todo], id: i64) -> &Todo {
    rows.iter().find(|t| t.id == id).expect("row should exist")
}

#[test]
fn create_and_list_defaults() {
    let mut s = TodoStore::new();
    let r = s.create_todo("A".to_string(), None, "".to_string(), 2, None);
    assert!(r.is_ok());
    let rows = s.list_todos();
    assert_eq!(rows.len(), 1);
    assert_eq!(rows[0].id, 1);
    assert_eq!(rows[0].title, "A");
    assert!(!rows[0].completed);
    assert_eq!(rows[0].sort_order, 0);
    assert_eq!(rows[0].parent_id, None);
    assert_eq!(rows[0].description, "");
    assert_eq!(rows[0].priority, 2);
    assert_eq!(rows[0].due_date, None);
}

#[test]
fn create_empty_title_rejected() {
    let mut s = TodoStore::new();
    let r = s.create_todo("".to_string(), None, "".to_string(), 0, None);
    assert!(matches!(r, Err(TodoError::InvalidValue)));
    assert_eq!(s.list_todos().len(), 0);
}

#[test]
fn create_dangling_parent_rejected() {
    let mut s = TodoStore::new();
    let r = s.create_todo("B".to_string(), Some(42), "".to_string(), 0, None);
    assert!(matches!(r, Err(TodoError::InvalidReference)));
    assert_eq!(s.list_todos().len(), 0);
}

#[test]
fn update_missing_id_not_found() {
    let mut s = TodoStore::new();
    let mut u = upd();
    u.title = Some("x".to_string());
    let r = s.update_todo(99, u);
    assert!(matches!(r, Err(TodoError::NotFound)));
}

#[test]
fn update_empty_title_rejected() {
    let mut s = TodoStore::new();
    s.create_todo("A".to_string(), None, "".to_string(), 0, None).unwrap();
    let mut u = upd();
    u.title = Some("".to_string());
    let r = s.update_todo(1, u);
    assert!(matches!(r, Err(TodoError::InvalidValue)));
    assert_eq!(s.list_todos()[0].title, "A");
}

#[test]
fn update_partial_fields_touch_only_supplied() {
    let mut s = TodoStore::new();
    s.create_todo("A".to_string(), None, "d0".to_string(), 1, Some("2024-01-01".to_string()))
        .unwrap();
    let mut u = upd();
    u.description = Some("d1".to_string());
    u.priority = Some(7);
    assert!(s.update_todo(1, u).is_ok());
    let rows = s.list_todos();
    assert_eq!(rows[0].title, "A");
    assert_eq!(rows[0].description, "d1");
    assert_eq!(rows[0].priority, 7);
    assert_eq!(rows[0].due_date, Some("2024-01-01".to_string()));
    assert!(!rows[0].completed);
}

#[test]
fn update_with_no_fields_is_noop_success() {
    let mut s = TodoStore::new();
    s.create_todo("A".to_string(), None, "".to_string(), 0, None).unwrap();
    assert!(s.update_todo(1, upd()).is_ok());
    let rows = s.list_todos();
    assert_eq!(rows.len(), 1);
    assert_eq!(rows[0].title, "A");
}

#[test]
fn complete_cascade_then_delete_subtree() {
    // root A (id 1), child B under 1 (id 2), grandchild C under 2 (id 3)
    let mut s = TodoStore::new();
    s.create_todo("A".to_string(), None, "".to_string(), 0, None).unwrap();
    s.create_todo("B".to_string(), Some(1), "".to_string(), 0, None).unwrap();
    s.create_todo("C".to_string(), Some(2), "".to_string(), 0, None).unwrap();
    let mut u = upd();
    u.completed = Some(true);
    assert!(s.update_todo(1, u).is_ok());
    let rows = s.list_todos();
    assert_eq!(rows.len(), 3);
    assert!(by_id(&rows, 1).completed);
    assert!(by_id(&rows, 2).completed);
    assert!(by_id(&rows, 3).completed);
    // deleting B removes B and C; A remains
    assert!(s.delete_todo(2).is_ok());
    let rows = s.list_todos();
    assert_eq!(rows.len(), 1);
    assert_eq!(rows[0].id, 1);
}

#[test]
fn complete_cascade_touches_only_the_subtree() {
    let mut s = TodoStore::new();
    s.create_todo("A".to_string(), None, "".to_string(), 0, None).unwrap();
    s.create_todo("B".to_string(), Some(1), "".to_string(), 0, None).unwrap();
    s.create_todo("S".to_string(), None, "".to_string(), 0, None).unwrap();
    let mut u = upd();
    u.completed = Some(true);
    assert!(s.update_todo(1, u).is_ok());
    let rows = s.list_todos();
    assert!(by_id(&rows, 1).completed);
    assert!(by_id(&rows, 2).completed);
    assert!(!by_id(&rows, 3).completed);
}

#[test]
fn uncomplete_cascades_the_same_way() {
    let mut s = TodoStore::new();
    s.create_todo("A".to_string(), None, "".to_string(), 0, None).unwrap();
    s.create_todo("B".to_string(), Some(1), "".to_string(), 0, None).unwrap();
    let mut u = upd();
    u.completed = Some(true);
    s.update_todo(1, u).unwrap();
    let mut u = upd();
    u.completed = Some(false);
    s.update_todo(1, u).unwrap();
    let rows = s.list_todos();
    assert!(!by_id(&rows, 1).completed);
    assert!(!by_id(&rows, 2).completed);
}

#[test]
fn delete_missing_id_not_found() {
    let mut s = TodoStore::new();
    let r = s.delete_todo(99);
    assert!(matches!(r, Err(TodoError::NotFound)));
}

#[test]
fn list_ordered_by_sort_order_then_id() {
    let mut s = TodoStore::new();
    s.create_todo("A".to_string(), None, "".to_string(), 0, None).unwrap();
    s.create_todo("B".to_string(), None, "".to_string(), 0, None).unwrap();
    s.create_todo("C".to_string(), None, "".to_string(), 0, None).unwrap();
    let mut u = upd();
    u.sort_order = Some(5);
    s.update_todo(1, u).unwrap();
    let mut u = upd();
    u.sort_order = Some(-3);
    s.update_todo(3, u).unwrap();
    let rows = s.list_todos();
    let ids: Vec<i64> = rows.iter().map(|t| t.id).collect();
    // C has -3; B keeps 0; A has 5
    assert_eq!(ids, vec![3, 2, 1]);
    // ties broken by id ascending
    let mut s = TodoStore::new();
    s.create_todo("A".to_string(), None, "".to_string(), 0, None).unwrap();
    s.create_todo("B".to_string(), None, "".to_string(), 0, None).unwrap();
    let ids: Vec<i64> = s.list_todos().iter().map(|t| t.id).collect();
    assert_eq!(ids, vec![1, 2]);
}

#[test]
fn list_is_stable_across_calls() {
    let mut s = TodoStore::new();
    s.create_todo("A".to_string(), None, "".to_string(), 1, None).unwrap();
    s.create_todo("B".to_string(), Some(1), "x".to_string(), 2, Some("2024".to_string()))
        .unwrap();
    let first = s.list_todos();
    let second = s.list_todos();
    assert_eq!(first.len(), second.len());
    for (a, b) in first.iter().zip(second.iter()) {
        assert_eq!(a.id, b.id);
        assert_eq!(a.parent_id, b.parent_id);
        assert_eq!(a.title, b.title);
        assert_eq!(a.completed, b.completed);
        assert_eq!(a.sort_order, b.sort_order);
        assert_eq!(a.description, b.description);
        assert_eq!(a.priority, b.priority);
        assert_eq!(a.due_date, b.due_date);
    }
}

#[test]
fn reorder_places_row_among_siblings() {
    let mut s = TodoStore::new();
    s.create_todo("P".to_string(), None, "".to_string(), 0, None).unwrap();
    s.create_todo("A".to_string(), Some(1), "".to_string(), 0, None).unwrap();
    s.create_todo("B".to_string(), Some(1), "".to_string(), 0, None).unwrap();
    s.create_todo("C".to_string(), None, "".to_string(), 0, None).unwrap();
    // give A and B explicit positions 10 and 20, then move C between them
    let mut u = upd();
    u.sort_order = Some(10);
    s.update_todo(2, u).unwrap();
    let mut u = upd();
    u.sort_order = Some(20);
    s.update_todo(3, u).unwrap();
    assert!(s.reorder_todo(4, Some(1), 15).is_ok());
    let rows = s.list_todos();
    assert_eq!(by_id(&rows, 4).parent_id, Some(1));
    assert_eq!(by_id(&rows, 4).sort_order, 15);
    let pos = |id: i64| rows.iter().position(|t| t.id == id).unwrap();
    assert!(pos(2) < pos(4));
    assert!(pos(4) < pos(3));
}

#[test]
fn reorder_missing_id_not_found() {
    let mut s = TodoStore::new();
    assert!(matches!(s.reorder_todo(9, None, 0), Err(TodoError::NotFound)));
}

#[test]
fn reorder_into_own_subtree_rejected() {
    let mut s = TodoStore::new();
    s.create_todo("A".to_string(), None, "".to_string(), 0, None).unwrap();
    s.create_todo("B".to_string(), Some(1), "".to_string(), 0, None).unwrap();
    // under its own descendant
    assert!(matches!(s.reorder_todo(1, Some(2), 0), Err(TodoError::InvalidReference)));
    // under itself
    assert!(matches!(s.reorder_todo(1, Some(1), 0), Err(TodoError::InvalidReference)));
    // under a missing row
    assert!(matches!(s.reorder_todo(1, Some(77), 0), Err(TodoError::InvalidReference)));
    // the tree is untouched
    let rows = s.list_todos();
    assert_eq!(by_id(&rows, 1).parent_id, None);
    assert_eq!(by_id(&rows, 2).parent_id, Some(1));
}

#[test]
fn reorder_to_root_level() {
    let mut s = TodoStore::new();
    s.create_todo("A".to_string(), None, "".to_string(), 0, None).unwrap();
    s.create_todo("B".to_string(), Some(1), "".to_string(), 0, None).unwrap();
    assert!(s.reorder_todo(2, None, 3).is_ok());
    let rows = s.list_todos();
    assert_eq!(by_id(&rows, 2).parent_id, None);
    assert_eq!(by_id(&rows, 2).sort_order, 3);
}

#[test]
fn update_parent_cycle_rejected() {
    let mut s = TodoStore::new();
    s.create_todo("A".to_string(), None, "".to_string(), 0, None).unwrap();
    s.create_todo("B".to_string(), Some(1), "".to_string(), 0, None).unwrap();
    let mut u = upd();
    u.parent_id = Some(Some(2));
    assert!(matches!(s.update_todo(1, u), Err(TodoError::InvalidReference)));
    let mut u = upd();
    u.parent_id = Some(Some(50));
    assert!(matches!(s.update_todo(1, u), Err(TodoError::InvalidReference)));
}

#[test]
fn update_parent_to_root_accepted() {
    let mut s = TodoStore::new();
    s.create_todo("A".to_string(), None, "".to_string(), 0, None).unwrap();
    s.create_todo("B".to_string(), Some(1), "".to_string(), 0, None).unwrap();
    let mut u = upd();
    u.parent_id = Some(None);
    assert!(s.update_todo(2, u).is_ok());
    let rows = s.list_todos();
    assert_eq!(by_id(&rows, 2).parent_id, None);
}

#[test]
fn delete_cascade_leaves_no_orphan() {
    let mut s = TodoStore::new();
    s.create_todo("A".to_string(), None, "".to_string(), 0, None).unwrap();
    s.create_todo("B".to_string(), Some(1), "".to_string(), 0, None).unwrap();
    s.create_todo("C".to_string(), Some(2), "".to_string(), 0, None).unwrap();
    s.create_todo("D".to_string(), Some(1), "".to_string(), 0, None).unwrap();
    s.create_todo("E".to_string(), None, "".to_string(), 0, None).unwrap();
    assert!(s.delete_todo(1).is_ok());
    let ids: Vec<i64> = s.list_todos().iter().map(|t| t.id).collect();
    assert_eq!(ids, vec![5]);
}

#[test]
fn settings_upsert_keeps_one_entry_per_key() {
    let mut s = TodoStore::new();
    assert!(s.save_setting("theme".to_string(), "light".to_string()).is_ok());
    assert!(s.save_setting("theme".to_string(), "dark".to_string()).is_ok());
    let settings = s.get_settings();
    let hits: Vec<_> = settings.iter().filter(|p| p.key == "theme").collect();
    assert_eq!(hits.len(), 1);
    assert_eq!(hits[0].value, "dark");
}

#[test]
fn settings_keep_distinct_keys() {
    let mut s = TodoStore::new();
    s.save_setting("a".to_string(), "1".to_string()).unwrap();
    s.save_setting("b".to_string(), "2".to_string()).unwrap();
    let settings = s.get_settings();
    assert_eq!(settings.len(), 2);
    assert!(settings.iter().any(|p| p.key == "a" && p.value == "1"));
    assert!(settings.iter().any(|p| p.key == "b" && p.value == "2"));
}

#[test]
fn save_setting_empty_key_rejected() {
    let mut s = TodoStore::new();
    let r = s.save_setting("".to_string(), "v".to_string());
    assert!(matches!(r, Err(TodoError::InvalidValue)));
    assert_eq!(s.get_settings().len(), 0);
}

#[test]
fn settings_untouched_by_todo_operations() {
    let mut s = TodoStore::new();
    s.save_setting("k".to_string(), "v".to_string()).unwrap();
    s.create_todo("A".to_string(), None, "".to_string(), 0, None).unwrap();
    s.delete_todo(1).unwrap();
    let settings = s.get_settings();
    assert_eq!(settings.len(), 1);
    assert_eq!(settings[0].key, "k");
    assert_eq!(settings[0].value, "v");
}
