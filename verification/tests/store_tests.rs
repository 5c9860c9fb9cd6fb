use particle_editor::store::{WidgetId, WidgetStore};

#[test]
fn flag_defaults_to_false_and_persists() {
    let mut store = WidgetStore::new();
    let id = WidgetId::new(7);
    assert_eq!(store.get_flag(&id), false);
    store.set_flag(&id, true);
    assert_eq!(store.get_flag(&id), true);
    store.set_flag(&id, false);
    assert_eq!(store.get_flag(&id), false);
}

#[test]
fn drag_defaults_to_none_and_persists() {
    let mut store = WidgetStore::new();
    let id = WidgetId::new(3);
    assert_eq!(store.get_drag(&id), None);
    store.set_drag(&id, Some(4));
    assert_eq!(store.get_drag(&id), Some(4));
    store.set_drag(&id, None);
    assert_eq!(store.get_drag(&id), None);
}

#[test]
fn distinct_ids_keep_distinct_slots() {
    let mut store = WidgetStore::new();
    let a = WidgetId::new(1);
    let b = WidgetId::new(2);
    store.set_flag(&a, true);
    assert_eq!(store.get_flag(&b), false);
    assert_eq!(store.get_flag(&a), true);
}

#[test]
fn child_ids_differ_from_parent_and_siblings() {
    let parent = WidgetId::new(10);
    let alpha = parent.child(1);
    let beta = parent.child(2);
    assert!(parent.matches(&parent));
    assert!(!parent.matches(&alpha));
    assert!(!alpha.matches(&beta));
    assert!(alpha.matches(&parent.child(1)));

    let mut store = WidgetStore::new();
    store.set_flag(&alpha, true);
    assert_eq!(store.get_flag(&beta), false);
    assert_eq!(store.get_flag(&parent), false);
    assert_eq!(store.get_flag(&alpha), true);
}

#[test]
fn same_derivation_means_same_slot() {
    let mut store = WidgetStore::new();
    let first = WidgetId::new(42).child(7);
    let second = WidgetId::new(42).child(7);
    store.set_flag(&first, true);
    assert_eq!(store.get_flag(&second), true);
}
