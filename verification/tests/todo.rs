use todo_cli::store::TodoList;

fn stamp() -> String {
    "2024-01-01 00:00:00".to_string()
}

#[test]
fn fresh_list_is_empty() {
    let t = TodoList::new();
    assert_eq!(t.get_next_id(), 1);
    assert_eq!(t.items_vec().len(), 0);
    assert!(!t.contains(1));
    assert_eq!(t.get_root_items().len(), 0);
}

#[test]
fn insert_root_then_child() {
    let mut t = TodoList::new();
    let root = t.add_item_at("Buy groceries".to_string(), None, stamp());
    assert_eq!(root, 1);
    let child = t.add_item_at("Buy milk".to_string(), Some(root), stamp());
    assert_eq!(child, 2);
    let kids = t.get_sub_items(root);
    assert_eq!(kids.len(), 1);
    assert_eq!(kids[0].id, 2);
    assert_eq!(kids[0].text, "Buy milk");
    assert_eq!(kids[0].parent_id, Some(1));
    let roots = t.get_root_items();
    assert_eq!(roots.len(), 1);
    assert_eq!(roots[0].id, 1);
}

#[test]
fn next_id_counts_insertions_and_ids_are_unique() {
    let mut t = TodoList::new();
    for k in 0..10u32 {
        let id = t.add_item_at(format!("task {}", k), None, stamp());
        assert_eq!(id, k + 1);
    }
    assert_eq!(t.get_next_id(), 11);
    let items = t.items_vec();
    for i in 0..items.len() {
        for j in 0..items.len() {
            if i != j {
                assert_ne!(items[i].id, items[j].id);
            }
        }
    }
}

#[test]
fn delete_removes_every_descendant() {
    let mut t = TodoList::new();
    let a = t.add_item_at("a".to_string(), None, stamp());
    let b = t.add_item_at("b".to_string(), Some(a), stamp());
    let c = t.add_item_at("c".to_string(), Some(b), stamp());
    let d = t.add_item_at("d".to_string(), Some(c), stamp());
    let other = t.add_item_at("other".to_string(), None, stamp());
    assert!(t.delete_item(b));
    assert!(t.contains(a));
    assert!(!t.contains(b));
    assert!(!t.contains(c));
    assert!(!t.contains(d));
    assert!(t.contains(other));
    // no survivor points at a removed id
    for it in t.items_vec() {
        if let Some(p) = it.parent_id {
            assert!(t.contains(p));
            assert_ne!(p, b);
            assert_ne!(p, c);
            assert_ne!(p, d);
        }
    }
}

#[test]
fn delete_missing_id_changes_nothing() {
    let mut t = TodoList::new();
    t.add_item_at("a".to_string(), None, stamp());
    t.add_item_at("b".to_string(), Some(1), stamp());
    let before = t.save_to_string();
    assert!(!t.delete_item(99));
    let after = t.save_to_string();
    assert_eq!(before, after);
    assert_eq!(t.get_next_id(), 3);
}

#[test]
fn complete_then_uncomplete_restores_state() {
    let mut t = TodoList::new();
    t.add_item_at("a".to_string(), None, stamp());
    let before = t.save_to_string();
    assert!(t.complete_item(1));
    assert!(t.items_vec()[0].completed);
    assert!(t.uncomplete_item(1));
    assert!(!t.items_vec()[0].completed);
    assert_eq!(t.save_to_string(), before);
}

#[test]
fn complete_twice_is_idempotent() {
    let mut t = TodoList::new();
    t.add_item_at("a".to_string(), None, stamp());
    assert!(t.complete_item(1));
    let once = t.save_to_string();
    assert!(t.complete_item(1));
    assert_eq!(t.save_to_string(), once);
}

#[test]
fn complete_missing_id_reports_false() {
    let mut t = TodoList::new();
    assert!(!t.complete_item(7));
    assert!(!t.uncomplete_item(7));
}

#[test]
fn save_then_load_round_trips() {
    let mut t = TodoList::new();
    t.add_item_at("Buy groceries".to_string(), None, "2024-01-02 10:20:30".to_string());
    t.add_item_at("Buy milk".to_string(), Some(1), "2024-01-02 10:21:00".to_string());
    t.complete_item(2);
    t.delete_item(17);
    let text = t.save_to_string();
    let back = TodoList::load_from_string(&text);
    assert_eq!(back.get_next_id(), t.get_next_id());
    let xs = t.items_vec();
    let ys = back.items_vec();
    assert_eq!(xs.len(), ys.len());
    for k in 0..xs.len() {
        assert_eq!(xs[k].id, ys[k].id);
        assert_eq!(xs[k].text, ys[k].text);
        assert_eq!(xs[k].completed, ys[k].completed);
        assert_eq!(xs[k].parent_id, ys[k].parent_id);
        assert_eq!(xs[k].created_at, ys[k].created_at);
    }
    assert_eq!(back.save_to_string(), text);
}

#[test]
fn round_trip_keeps_awkward_text() {
    let mut t = TodoList::new();
    t.add_item_at("line\nbreak and数字 7\n8\n9".to_string(), None, stamp());
    t.add_item_at("".to_string(), Some(1), "".to_string());
    let text = t.save_to_string();
    let back = TodoList::load_from_string(&text);
    assert_eq!(back.items_vec()[0].text, "line\nbreak and数字 7\n8\n9");
    assert_eq!(back.items_vec()[1].text, "");
    assert_eq!(back.items_vec()[1].created_at, "");
    assert_eq!(back.save_to_string(), text);
}

#[test]
fn corrupt_or_empty_input_loads_fresh() {
    let empty = TodoList::load_from_string("");
    assert_eq!(empty.get_next_id(), 1);
    assert_eq!(empty.items_vec().len(), 0);
    let garbage = TodoList::load_from_string("not a stored list at all");
    assert_eq!(garbage.get_next_id(), 1);
    assert_eq!(garbage.items_vec().len(), 0);
    // parses, but breaks the invariant: id 5 is not below next_id 1
    let bad = TodoList::load_from_string("1\n1\n5\n0\n-\n1\nx\n1\ny\n");
    assert_eq!(bad.get_next_id(), 1);
    assert_eq!(bad.items_vec().len(), 0);
}

#[test]
fn render_shows_indented_tree() {
    let mut t = TodoList::new();
    let root = t.add_item_at("Buy groceries".to_string(), None, stamp());
    assert_eq!(root, 1);
    let sub = t.add_item_at("Buy milk".to_string(), Some(1), stamp());
    assert_eq!(sub, 2);
    assert!(t.complete_item(2));
    let shown = t.render();
    assert_eq!(shown, "[1] ○ Buy groceries\n  [2] ✓ Buy milk\n");
    assert!(t.delete_item(1));
    assert!(!t.contains(1));
    assert!(!t.contains(2));
}

#[test]
fn render_of_empty_list_is_a_hint() {
    let t = TodoList::new();
    assert_eq!(t.render(), "No todos found. Use 'todo add <text>' to add a new todo.\n");
}

#[test]
fn render_handles_multi_digit_ids_and_depth() {
    let mut t = TodoList::new();
    for k in 0..9u32 {
        t.add_item_at(format!("t{}", k), None, stamp());
    }
    t.add_item_at("ten".to_string(), Some(9), stamp());
    t.add_item_at("eleven".to_string(), Some(10), stamp());
    let shown = t.render();
    assert!(shown.contains("[10] ○ ten\n"));
    assert!(shown.contains("    [11] ○ eleven\n"));
}

#[test]
fn sub_with_missing_parent_fails_without_a_trace() {
    let mut t = TodoList::new();
    t.add_item_at("a".to_string(), None, stamp());
    t.add_item_at("b".to_string(), Some(1), stamp());
    let before = t.save_to_string();
    let r = t.add_sub_item("orphan".to_string(), 999);
    assert_eq!(r, None);
    assert_eq!(t.get_next_id(), 3);
    assert_eq!(t.save_to_string(), before);
    let ok = t.add_sub_item("fine".to_string(), 2);
    assert_eq!(ok, Some(3));
    assert_eq!(t.get_sub_items(2).len(), 1);
}

#[test]
fn add_item_stamps_the_current_time() {
    let mut t = TodoList::new();
    let id = t.add_item("now".to_string(), None);
    assert_eq!(id, 1);
    let items = t.items_vec();
    assert_eq!(items[0].text, "now");
    assert_eq!(items[0].parent_id, None);
    assert!(!items[0].completed);
    // the chrono stamp has the fixed `YYYY-MM-DD HH:MM:SS` shape
    assert_eq!(items[0].created_at.len(), 19);
    let saved = t.save_to_string();
    let back = TodoList::load_from_string(&saved);
    assert_eq!(back.items_vec()[0].created_at, items[0].created_at);
}

#[test]
fn duplicate_copies_every_field() {
    let mut t = TodoList::new();
    t.add_item_at("x".to_string(), None, stamp());
    t.add_item_at("y".to_string(), Some(1), stamp());
    let copy = t.items_vec()[1].duplicate();
    assert_eq!(copy.id, 2);
    assert_eq!(copy.text, "y");
    assert_eq!(copy.parent_id, Some(1));
    assert_eq!(copy.created_at, stamp());
    assert!(!copy.completed);
}

#[test]
fn well_formed_accepts_store_output_and_rejects_bad_parts() {
    let mut t = TodoList::new();
    t.add_item_at("a".to_string(), None, stamp());
    t.add_item_at("b".to_string(), Some(1), stamp());
    assert!(t.well_formed());
    // a parent pointing at a missing id is rejected
    let orphan = TodoList::load_from_string("9\n1\n3\n0\n2\n1\nx\n1\ny\n");
    assert_eq!(orphan.items_vec().len(), 0);
    assert_eq!(orphan.get_next_id(), 1);
}
