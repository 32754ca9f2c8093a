use keyed_tree::{Change, Element, ElementOpError, Key};

fn void(name: &str, key: u64) -> Element {
    Element::void(Key::Local(key), name.to_string(), None)
}

fn parent(key: u64, children: Vec<Element>) -> Element {
    Element::parent(Key::Local(key), "div".to_string(), None, children).unwrap()
}

fn keys(e: &Element) -> Vec<Key> {
    match e {
        Element::Parent { children, .. } => children.iter().map(|c| c.to_key()).collect(),
        _ => vec![],
    }
}

fn assert_keymap_consistent(e: &Element) {
    match e {
        Element::Parent { keymap, children, .. } => {
            assert_eq!(keymap.len(), children.len());
            for (i, c) in children.iter().enumerate() {
                assert_eq!(keymap.get(&c.to_key().slot()), Some(&i));
            }
        }
        _ => panic!("not a parent"),
    }
}

fn three() -> Element {
    parent(0, vec![void("a", 1), void("b", 2), void("c", 3)])
}

#[test]
fn append_child_pushes_and_reports_insert() {
    let mut p = three();
    let c = p.append_child(void("d", 4)).unwrap();
    assert_eq!(c, Change::InsertChild(void("d", 4)));
    assert_eq!(keys(&p), vec![Key::Local(1), Key::Local(2), Key::Local(3), Key::Local(4)]);
    assert_keymap_consistent(&p);
}

#[test]
fn append_then_diff_gives_one_insert() {
    let before = three();
    let mut after = before.clone();
    after.append_child(void("d", 4)).unwrap();
    let d = before.diff(&after).unwrap();
    assert_eq!(d.changes, Some(vec![Change::InsertChild(void("d", 4))]));
    assert_eq!(d.children, None);
}

#[test]
fn insert_before_shifts_later_children() {
    let mut p = three();
    let c = p.insert_before(1, void("x", 9)).unwrap();
    assert_eq!(c, Change::InsertBefore(Key::Local(2), void("x", 9)));
    assert_eq!(keys(&p), vec![Key::Local(1), Key::Local(9), Key::Local(2), Key::Local(3)]);
    assert_keymap_consistent(&p);
}

#[test]
fn insert_all_keeps_batch_order() {
    let mut p = three();
    let c = p.insert_all(0, vec![void("x", 8), void("y", 9)]).unwrap();
    assert_eq!(c, Change::InsertAllBefore(Key::Local(1), vec![void("x", 8), void("y", 9)]));
    assert_eq!(
        keys(&p),
        vec![Key::Local(8), Key::Local(9), Key::Local(1), Key::Local(2), Key::Local(3)]
    );
    assert_keymap_consistent(&p);
    assert_eq!(p.insert_all(5, vec![void("z", 10)]), Err(ElementOpError::IndexOOBError));
}

#[test]
fn append_all_adds_at_end() {
    let mut p = three();
    let c = p.append_all(vec![void("x", 8), void("y", 9)]).unwrap();
    assert_eq!(c, Change::AppendAll(vec![void("x", 8), void("y", 9)]));
    assert_eq!(
        keys(&p),
        vec![Key::Local(1), Key::Local(2), Key::Local(3), Key::Local(8), Key::Local(9)]
    );
    assert_keymap_consistent(&p);
}

#[test]
fn replace_child_swaps_in_new_node() {
    let mut p = three();
    let c = p.replace_child(1, void("x", 7)).unwrap();
    assert_eq!(c, Change::ReplaceChild(Key::Local(2), void("x", 7)));
    assert_eq!(keys(&p), vec![Key::Local(1), Key::Local(7), Key::Local(3)]);
    assert_keymap_consistent(&p);
    // the same key may stay in place
    let c = p.replace_child(0, void("y", 1)).unwrap();
    assert_eq!(c, Change::ReplaceChild(Key::Local(1), void("y", 1)));
    assert_keymap_consistent(&p);
}

#[test]
fn remove_child_reports_key() {
    let mut p = three();
    let c = p.remove_child(0).unwrap();
    assert_eq!(c, Change::RemoveChild(Key::Local(1)));
    assert_eq!(keys(&p), vec![Key::Local(2), Key::Local(3)]);
    assert_keymap_consistent(&p);
}

#[test]
fn index_at_length_is_out_of_bounds() {
    let mut p = three();
    assert_eq!(p.insert_before(3, void("x", 9)), Err(ElementOpError::IndexOOBError));
    assert_eq!(p.replace_child(3, void("x", 9)), Err(ElementOpError::IndexOOBError));
    assert_eq!(p.remove_child(3), Err(ElementOpError::IndexOOBError));
    assert_eq!(keys(&p), vec![Key::Local(1), Key::Local(2), Key::Local(3)]);
    assert!(p.insert_before(2, void("x", 9)).is_ok());
    let mut p = three();
    assert!(p.replace_child(2, void("x", 9)).is_ok());
    let mut p = three();
    assert!(p.remove_child(2).is_ok());
    assert_keymap_consistent(&p);
}

#[test]
fn childless_nodes_refuse_child_operations() {
    for mut e in vec![void("br", 1), Element::text(Key::Local(1), "t".to_string())] {
        let err = Err(ElementOpError::ChildlessElementOpError);
        assert_eq!(e.append_child(void("x", 2)), err);
        assert_eq!(e.insert_before(0, void("x", 2)), err);
        assert_eq!(e.insert_all(0, vec![void("x", 2)]), err);
        assert_eq!(e.append_all(vec![void("x", 2)]), err);
        assert_eq!(e.replace_child(0, void("x", 2)), err);
        assert_eq!(e.remove_child(0), err);
    }
}

#[test]
fn update_text_only_on_text() {
    let mut t = Element::text(Key::Local(1), "old".to_string());
    assert_eq!(t.update_text("new".to_string()), Ok(Change::UpdateText("new".to_string())));
    match &t {
        Element::Text { value, .. } => assert_eq!(value, "new"),
        _ => panic!("not text"),
    }
    assert_eq!(void("br", 1).update_text("x".to_string()), Err(ElementOpError::NotATextNode));
    assert_eq!(three().update_text("x".to_string()), Err(ElementOpError::NotATextNode));
}

#[test]
fn remove_last_child_leaves_empty_parent() {
    let mut p = parent(0, vec![void("a", 1)]);
    p.remove_child(0).unwrap();
    assert_eq!(keys(&p), Vec::<Key>::new());
    assert_keymap_consistent(&p);
    assert_eq!(p.remove_child(0), Err(ElementOpError::IndexOOBError));
}

fn payload(e: &Element) -> u64 {
    match e.to_key() {
        Key::Local(n) => n,
        Key::Global(n) => n,
    }
}

#[test]
fn reorder_children_sorts_by_rank() {
    let mut p = three();
    let c = p.reorder_children(|e: &Element| 100 - payload(e)).unwrap();
    let expected = vec![Key::Local(3), Key::Local(2), Key::Local(1)];
    assert_eq!(c, Change::SortChildren(expected.clone()));
    assert_eq!(keys(&p), expected);
    assert_keymap_consistent(&p);
}

#[test]
fn reorder_children_is_stable() {
    let mut p = parent(
        0,
        vec![void("a", 5), void("b", 2), void("c", 4), void("d", 1), void("e", 6)],
    );
    // odd payloads rank 0, even ones rank 1: ties keep their first order
    let c = p.reorder_children(|e: &Element| (payload(e) + 1) % 2).unwrap();
    let expected = vec![Key::Local(5), Key::Local(1), Key::Local(2), Key::Local(4), Key::Local(6)];
    assert_eq!(c, Change::SortChildren(expected.clone()));
    assert_eq!(keys(&p), expected);
    assert_keymap_consistent(&p);
}

#[test]
fn reorder_children_needs_a_parent() {
    let mut t = Element::text(Key::Local(1), "t".to_string());
    assert_eq!(t.reorder_children(|_e: &Element| 0), Err(ElementOpError::ChildlessElementOpError));
    let mut empty = parent(0, vec![]);
    assert_eq!(empty.reorder_children(|_e: &Element| 0), Ok(Change::SortChildren(vec![])));
}
