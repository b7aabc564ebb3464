use lib::{ComponentCtx, ComponentTree};

type Tree = ComponentTree<&'static str, fn()>;

fn noop() {}

/// Builds the tree used by several tests:
/// 1 (root) with children 2 and 3; 3 has child 4; 5 is another root.
fn sample() -> (Tree, Vec<ComponentCtx>) {
    let mut t: Tree = ComponentTree::new();
    let c1 = t.new_component();
    let c2 = c1.create_child(&mut t);
    let c3 = c1.create_child(&mut t);
    let c4 = c3.create_child(&mut t);
    let c5 = t.new_component();
    for (c, name) in [(&c1, "app"), (&c2, "header"), (&c3, "list"), (&c4, "task"), (&c5, "dialog")] {
        let id = t.insert(c, name);
        assert_eq!(id, c.id());
    }
    (t, vec![c1, c2, c3, c4, c5])
}

#[test]
fn new_tree_is_clean_and_empty() {
    let mut t: Tree = ComponentTree::new();
    assert!(t.is_clean());
    assert_eq!(t.peek_next_id(), 1);
    assert_eq!(t.get(1), None);
    assert!(t.exec_rebuilds().is_empty());
    assert!(t.change_callbacks().is_empty());
}

#[test]
fn ids_are_handed_out_in_increasing_order() {
    let mut t: Tree = ComponentTree::new();
    let a = t.new_component();
    let b = a.create_child(&mut t);
    let c = t.new_component();
    assert_eq!(a.id(), 1);
    assert_eq!(a.parent_id(), None);
    assert_eq!(b.id(), 2);
    assert_eq!(b.parent_id(), Some(1));
    assert_eq!(c.id(), 3);
    assert_eq!(c.parent_id(), None);
    assert_eq!(t.peek_next_id(), 4);
}

#[test]
fn registered_components_can_be_found_and_destroyed() {
    let (mut t, ctxs) = sample();
    assert_eq!(t.get(3), Some(&"list"));
    assert_eq!(t.get(5), Some(&"dialog"));
    assert_eq!(t.get(6), None);
    t.destroy(ctxs[2].id());
    assert_eq!(t.get(3), None);
    assert_eq!(t.get(4), Some(&"task"));
}

#[test]
fn callbacks_are_due_only_when_the_tree_turns_dirty() {
    let (mut t, ctxs) = sample();
    assert!(ctxs[3].with_model_mut(&mut t));
    assert!(!t.is_clean());
    assert!(!ctxs[3].with_model_mut(&mut t));
    assert!(!ctxs[0].with_model_mut(&mut t));
    assert_eq!(t.exec_rebuilds(), vec![1, 3, 4]);
    assert!(t.is_clean());
    assert!(ctxs[1].with_model_mut(&mut t));
}

#[test]
fn rebuild_covers_ancestors_oldest_first() {
    let (mut t, ctxs) = sample();
    ctxs[3].with_model_mut(&mut t);
    assert_eq!(t.exec_rebuilds(), vec![1, 3, 4]);
    // The round takes the change marks: the tree is clean again.
    assert!(t.is_clean());
    assert!(t.exec_rebuilds().is_empty());
    assert_eq!(t.get(4), Some(&"task"));
    assert_eq!(t.peek_next_id(), 6);
}

#[test]
fn change_made_during_a_round_is_kept_for_the_next() {
    let (mut t, ctxs) = sample();
    ctxs[3].with_model_mut(&mut t);
    let order = t.exec_rebuilds();
    assert_eq!(order, vec![1, 3, 4]);
    // While rebuilding component 1, the model of component 5 changes.
    assert!(ctxs[4].with_model_mut(&mut t));
    assert_eq!(t.exec_rebuilds(), vec![5]);
}

#[test]
fn rebuild_lists_each_component_once() {
    let (mut t, ctxs) = sample();
    ctxs[4].with_model_mut(&mut t);
    ctxs[1].with_model_mut(&mut t);
    ctxs[3].with_model_mut(&mut t);
    ctxs[2].with_model_mut(&mut t);
    assert_eq!(t.exec_rebuilds(), vec![1, 2, 3, 4, 5]);
}

#[test]
fn rebuild_of_roots_only() {
    let (mut t, ctxs) = sample();
    ctxs[4].with_model_mut(&mut t);
    ctxs[0].with_model_mut(&mut t);
    assert_eq!(t.exec_rebuilds(), vec![1, 5]);
}

#[test]
fn destroyed_component_loses_its_change_mark() {
    let (mut t, ctxs) = sample();
    ctxs[1].with_model_mut(&mut t);
    t.destroy(ctxs[1].id());
    assert!(t.is_clean());
    assert!(t.exec_rebuilds().is_empty());
}

#[test]
fn chain_through_a_destroyed_parent_stops_there() {
    let (mut t, ctxs) = sample();
    t.destroy(ctxs[2].id());
    ctxs[3].with_model_mut(&mut t);
    // Component 4 still names 3 as its parent; 3 is no longer live, so the
    // chain of ancestors ends at 3.
    assert_eq!(t.exec_rebuilds(), vec![3, 4]);
    assert!(t.is_clean());
}

#[test]
fn component_marked_before_it_is_registered() {
    let mut t: Tree = ComponentTree::new();
    let root = t.new_component();
    t.insert(&root, "root");
    let child = root.create_child(&mut t);
    assert!(child.with_model_mut(&mut t));
    // The child is not registered yet, so its parent is not known.
    assert_eq!(t.exec_rebuilds(), vec![2]);
    t.insert(&child, "child");
    assert!(child.with_model_mut(&mut t));
    assert_eq!(t.exec_rebuilds(), vec![1, 2]);
}

#[test]
fn callbacks_are_kept_in_registration_order() {
    let mut t: Tree = ComponentTree::new();
    t.on_first_change(noop);
    t.on_first_change(noop);
    assert_eq!(t.change_callbacks().len(), 2);
    for cb in t.change_callbacks() {
        cb();
    }
}
