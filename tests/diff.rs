use keyed_tree::{Change, DiffTree, Element, Key};

fn void(name: &str, key: u64) -> Element {
    Element::void(Key::Local(key), name.to_string(), None)
}

fn parent(name: &str, key: u64, children: Vec<Element>) -> Element {
    Element::parent(Key::Local(key), name.to_string(), None, children).unwrap()
}

fn text(key: u64, value: &str) -> Element {
    Element::text(Key::Local(key), value.to_string())
}

#[test]
fn test_remove_single() {
    let left = parent("div", 0, vec![void("div", 1), void("div", 2), void("div", 3)]);
    let right = parent("div", 0, vec![void("div", 1), void("div", 2)]);
    let diff = left.diff(&right);

    assert_eq!(
        diff,
        Some(DiffTree {
            changes: Some(vec![Change::RemoveChild(Key::Local(3))]),
            children: None,
        })
    );
}

#[test]
fn test_remove_many() {
    let left = parent("div", 0, vec![void("div", 1), void("div", 2), void("div", 3)]);
    let right = parent("div", 0, vec![void("div", 1)]);
    let diff = left.diff(&right);

    assert_eq!(
        diff,
        Some(DiffTree {
            changes: Some(vec![
                Change::RemoveChild(Key::Local(2)),
                Change::RemoveChild(Key::Local(3)),
            ]),
            children: None,
        })
    );
}

#[test]
fn test_nested_remove() {
    let left = parent("div", 0, vec![parent("div", 0, vec![void("div", 0)])]);
    let right = parent("div", 0, vec![void("div", 0)]);
    let diff = left.diff(&right);

    assert_eq!(
        diff,
        Some(DiffTree {
            changes: None,
            children: Some(vec![(
                Key::Local(0),
                DiffTree {
                    changes: Some(vec![Change::ReplaceNode(void("div", 0))]),
                    children: None,
                }
            )]),
        })
    );
}

#[test]
fn test_insert_single() {
    let left = parent("div", 0, vec![void("div", 1), void("div", 2)]);
    let right = parent("div", 0, vec![void("div", 0), void("div", 1), void("div", 2)]);
    let diff = left.diff(&right);

    assert_eq!(
        diff,
        Some(DiffTree {
            changes: Some(vec![
                Change::InsertChild(void("div", 0)),
                Change::SortChildren(vec![Key::Local(0), Key::Local(1), Key::Local(2)]),
            ]),
            children: None,
        })
    );
}

#[test]
fn self_diff_is_absent() {
    let tree = parent(
        "ul",
        0,
        vec![
            text(1, "a"),
            parent("li", 2, vec![void("br", 3), text(4, "b")]),
            void("hr", 5),
        ],
    );
    assert_eq!(tree.diff(&tree), None);
    let copy = tree.clone();
    assert_eq!(tree.diff(&copy), None);
}

#[test]
fn text_change_gives_update_text() {
    let d = text(1, "old").diff(&text(1, "new"));
    assert_eq!(
        d,
        Some(DiffTree {
            changes: Some(vec![Change::UpdateText("new".to_string())]),
            children: None,
        })
    );
    assert_eq!(text(1, "same").diff(&text(2, "same")), None);
}

#[test]
fn void_tag_change_gives_replace() {
    let d = void("br", 1).diff(&void("hr", 1));
    match d {
        Some(DiffTree { changes: Some(cs), children: None }) => {
            assert_eq!(cs.len(), 1);
            match &cs[0] {
                Change::ReplaceNode(Element::Void { name, .. }) => assert_eq!(name, "hr"),
                other => panic!("unexpected change {:?}", other),
            }
        }
        other => panic!("unexpected diff {:?}", other),
    }
    assert_eq!(void("br", 1).diff(&void("br", 7)), None);
}

#[test]
fn mismatched_shapes_give_replace() {
    let d = text(1, "a").diff(&void("br", 1));
    assert_eq!(
        d,
        Some(DiffTree { changes: Some(vec![Change::ReplaceNode(void("br", 1))]), children: None })
    );
    let d = parent("ul", 1, vec![]).diff(&parent("ol", 1, vec![]));
    match d {
        Some(DiffTree { changes: Some(cs), children: None }) => match &cs[0] {
            Change::ReplaceNode(Element::Parent { name, .. }) => assert_eq!(name, "ol"),
            other => panic!("unexpected change {:?}", other),
        },
        other => panic!("unexpected diff {:?}", other),
    }
}

#[test]
fn reorder_gives_one_sort() {
    let left = parent("div", 0, vec![void("a", 1), void("b", 2)]);
    let right = parent("div", 0, vec![void("b", 2), void("a", 1)]);
    assert_eq!(
        left.diff(&right),
        Some(DiffTree {
            changes: Some(vec![Change::SortChildren(vec![Key::Local(2), Key::Local(1)])]),
            children: None,
        })
    );
}

#[test]
fn grandchild_change_nests_per_level() {
    let left = parent("div", 0, vec![parent("p", 1, vec![parent("span", 2, vec![void("br", 3)])])]);
    let right = parent("div", 0, vec![parent("p", 1, vec![parent("span", 2, vec![void("hr", 3)])])]);
    let expected = Some(DiffTree {
        changes: None,
        children: Some(vec![(
            Key::Local(1),
            DiffTree {
                changes: None,
                children: Some(vec![(
                    Key::Local(2),
                    DiffTree {
                        changes: None,
                        children: Some(vec![(
                            Key::Local(3),
                            DiffTree {
                                changes: Some(vec![Change::ReplaceNode(void("hr", 3))]),
                                children: None,
                            },
                        )]),
                    },
                )]),
            },
        )]),
    });
    assert_eq!(left.diff(&right), expected);
}

#[test]
fn removal_insertion_and_move_together() {
    let left = parent("div", 0, vec![void("a", 1), void("b", 2), void("c", 3)]);
    let right = parent("div", 0, vec![void("c", 3), void("d", 4), void("a", 1)]);
    assert_eq!(
        left.diff(&right),
        Some(DiffTree {
            changes: Some(vec![
                Change::RemoveChild(Key::Local(2)),
                Change::InsertChild(void("d", 4)),
                Change::SortChildren(vec![Key::Local(3), Key::Local(4), Key::Local(1)]),
            ]),
            children: None,
        })
    );
}

#[test]
fn global_and_local_keys_differ() {
    let left = Element::parent(
        Key::Local(0),
        "div".to_string(),
        None,
        vec![Element::void(Key::Local(5), "a".to_string(), None)],
    )
    .unwrap();
    let right = Element::parent(
        Key::Local(0),
        "div".to_string(),
        None,
        vec![Element::void(Key::Global(5), "a".to_string(), None)],
    )
    .unwrap();
    assert_eq!(
        left.diff(&right),
        Some(DiffTree {
            changes: Some(vec![
                Change::RemoveChild(Key::Local(5)),
                Change::InsertChild(Element::void(Key::Global(5), "a".to_string(), None)),
            ]),
            children: None,
        })
    );
}

#[test]
fn parent_refuses_repeated_keys() {
    let r = Element::parent(Key::Local(0), "div".to_string(), None, vec![void("a", 1), void("b", 1)]);
    assert!(r.is_none());
    assert!(Element::parent(Key::Local(0), "div".to_string(), None, vec![]).is_some());
}

#[test]
fn empty_parents_do_not_differ() {
    assert_eq!(parent("div", 0, vec![]).diff(&parent("div", 9, vec![])), None);
}

#[test]
fn element_equality_is_by_key() {
    assert_eq!(void("a", 1), text(1, "anything"));
    assert_ne!(void("a", 1), void("a", 2));
    assert_ne!(void("a", 1), Element::void(Key::Global(1), "a".to_string(), None));
}
