use boko::chapter::{Chapter, ComputedStyle, FontWeight, Node, Role};
use boko::fuse::fuse_lists;
use boko::links::{ChapterId, GlobalNodeId, NodeId};

/// Build a list of the given role with one (empty) list item.
fn list_with_item(chapter: &mut Chapter, role: Role) -> NodeId {
    let list = chapter.alloc_node(Node::new(role));
    chapter.append_child(NodeId::root(), list);
    let li = chapter.alloc_node(Node::new(Role::ListItem));
    chapter.append_child(list, li);
    list
}

#[test]
fn test_fuse_adjacent_unordered_lists() {
    let mut chapter = Chapter::new();

    let ul1 = chapter.alloc_node(Node::new(Role::UnorderedList));
    chapter.append_child(NodeId::root(), ul1);
    let li1 = chapter.alloc_node(Node::new(Role::ListItem));
    chapter.append_child(ul1, li1);

    let ul2 = chapter.alloc_node(Node::new(Role::UnorderedList));
    chapter.append_child(NodeId::root(), ul2);
    let li2 = chapter.alloc_node(Node::new(Role::ListItem));
    chapter.append_child(ul2, li2);

    fuse_lists(&mut chapter);

    let root_children = chapter.children(NodeId::root());
    assert_eq!(root_children.len(), 1);

    let list_children = chapter.children(root_children[0]);
    assert_eq!(list_children.len(), 2);
}

#[test]
fn test_no_fuse_different_list_types() {
    let mut chapter = Chapter::new();

    let ul = chapter.alloc_node(Node::new(Role::UnorderedList));
    chapter.append_child(NodeId::root(), ul);

    let ol = chapter.alloc_node(Node::new(Role::OrderedList));
    chapter.append_child(NodeId::root(), ol);

    fuse_lists(&mut chapter);

    assert_eq!(chapter.children(NodeId::root()).len(), 2);
}

#[test]
fn no_fuse_when_second_list_has_id() {
    let mut chapter = Chapter::new();
    let _ul1 = list_with_item(&mut chapter, Role::UnorderedList);
    let ul2 = list_with_item(&mut chapter, Role::UnorderedList);
    // The second list is a link target; fusing would destroy the anchor.
    chapter.semantics.set_id(ul2, "target");

    fuse_lists(&mut chapter);

    assert_eq!(chapter.children(NodeId::root()).len(), 2);
    assert_eq!(chapter.semantics.id(ul2), Some("target"));
}

#[test]
fn no_fuse_when_ordered_list_has_start() {
    let mut chapter = Chapter::new();
    let _ol1 = list_with_item(&mut chapter, Role::OrderedList);
    let ol2 = list_with_item(&mut chapter, Role::OrderedList);
    // ol@start encodes numbering that fusing would destroy.
    chapter.semantics.set_list_start(ol2, 5);

    fuse_lists(&mut chapter);

    assert_eq!(chapter.children(NodeId::root()).len(), 2);
    assert_eq!(chapter.semantics.list_start(ol2), Some(5));
}

#[test]
fn no_fuse_when_styles_differ() {
    let mut chapter = Chapter::new();
    let _ul1 = list_with_item(&mut chapter, Role::UnorderedList);
    let ul2 = list_with_item(&mut chapter, Role::UnorderedList);
    let bold = chapter.styles.intern(ComputedStyle {
        font_weight: FontWeight::bold(),
        ..Default::default()
    });
    chapter.set_style(ul2, bold);

    fuse_lists(&mut chapter);

    assert_eq!(chapter.children(NodeId::root()).len(), 2);
}

#[test]
fn fuses_long_run_of_single_item_lists_in_order() {
    // The one-ul-per-li pattern: many consecutive fusions into the same
    // left list.
    let mut chapter = Chapter::new();
    let mut items = Vec::new();
    for _ in 0..8 {
        let ul = chapter.alloc_node(Node::new(Role::UnorderedList));
        chapter.append_child(NodeId::root(), ul);
        let li = chapter.alloc_node(Node::new(Role::ListItem));
        chapter.append_child(ul, li);
        items.push(li);
    }

    fuse_lists(&mut chapter);

    let root_children = chapter.children(NodeId::root());
    assert_eq!(root_children.len(), 1);
    let fused_items = chapter.children(root_children[0]);
    assert_eq!(fused_items, items, "items preserved in document order");
    for li in &fused_items {
        assert_eq!(chapter.node(*li).and_then(|n| n.parent), Some(root_children[0]));
    }
}

#[test]
fn fuses_runs_separately_around_other_blocks() {
    // ul ul p ul ol ol: two runs fuse, the paragraph and the kind change
    // break them.
    let mut chapter = Chapter::new();
    let a = list_with_item(&mut chapter, Role::UnorderedList);
    let _b = list_with_item(&mut chapter, Role::UnorderedList);
    let p = chapter.alloc_node(Node::new(Role::Paragraph));
    chapter.append_child(NodeId::root(), p);
    let c = list_with_item(&mut chapter, Role::UnorderedList);
    let d = list_with_item(&mut chapter, Role::OrderedList);
    let _e = list_with_item(&mut chapter, Role::OrderedList);

    fuse_lists(&mut chapter);

    let root_children = chapter.children(NodeId::root());
    assert_eq!(root_children, vec![a, p, c, d]);
    assert_eq!(chapter.children(a).len(), 2);
    assert_eq!(chapter.children(c).len(), 1);
    assert_eq!(chapter.children(d).len(), 2);
}

#[test]
fn fuses_nested_lists_inside_items() {
    // A list item holding two fragmented sub-lists: the sub-lists fuse.
    let mut chapter = Chapter::new();
    let outer = chapter.alloc_node(Node::new(Role::UnorderedList));
    chapter.append_child(NodeId::root(), outer);
    let li = chapter.alloc_node(Node::new(Role::ListItem));
    chapter.append_child(outer, li);
    for _ in 0..3 {
        let sub = chapter.alloc_node(Node::new(Role::OrderedList));
        chapter.append_child(li, sub);
        let item = chapter.alloc_node(Node::new(Role::ListItem));
        chapter.append_child(sub, item);
    }

    fuse_lists(&mut chapter);

    let subs = chapter.children(li);
    assert_eq!(subs.len(), 1);
    assert_eq!(chapter.children(subs[0]).len(), 3);
}

#[test]
fn fusing_keeps_node_count_and_roles() {
    let mut chapter = Chapter::new();
    let a = list_with_item(&mut chapter, Role::UnorderedList);
    let b = list_with_item(&mut chapter, Role::UnorderedList);
    let before = chapter.nodes.len();

    fuse_lists(&mut chapter);

    assert_eq!(chapter.nodes.len(), before);
    assert_eq!(chapter.node(a).map(|n| n.role), Some(Role::UnorderedList));
    assert_eq!(chapter.node(b).map(|n| n.role), Some(Role::UnorderedList));
    assert_eq!(chapter.children(NodeId::root()), vec![a]);
}

#[test]
fn global_node_id_holds_its_parts() {
    let g = GlobalNodeId::new(ChapterId(3), NodeId(7));
    assert_eq!(g.chapter, ChapterId(3));
    assert_eq!(g.node, NodeId(7));
}

#[test]
fn lists_brought_together_by_a_fusion_stay_apart() {
    // Fusion runs bottom-up: the sub-lists of two fused lists end up side by
    // side in the survivor, each having been handled on its own.
    let mut chapter = Chapter::new();
    let mut outers = Vec::new();
    for _ in 0..2 {
        let outer = chapter.alloc_node(Node::new(Role::UnorderedList));
        chapter.append_child(NodeId::root(), outer);
        let sub = chapter.alloc_node(Node::new(Role::OrderedList));
        chapter.append_child(outer, sub);
        let item = chapter.alloc_node(Node::new(Role::ListItem));
        chapter.append_child(sub, item);
        outers.push(outer);
    }

    fuse_lists(&mut chapter);

    assert_eq!(chapter.children(NodeId::root()), vec![outers[0]]);
    assert_eq!(chapter.children(outers[0]).len(), 2);
}

#[test]
fn fusing_a_fused_chapter_again_changes_nothing() {
    let mut chapter = Chapter::new();
    let ul1 = list_with_item(&mut chapter, Role::UnorderedList);
    let _ul2 = list_with_item(&mut chapter, Role::UnorderedList);
    let _p = {
        let p = chapter.alloc_node(Node::new(Role::Paragraph));
        chapter.append_child(NodeId::root(), p);
        p
    };
    let _ol = list_with_item(&mut chapter, Role::OrderedList);

    fuse_lists(&mut chapter);
    let root_once = chapter.children(NodeId::root());
    let items_once = chapter.children(ul1);
    fuse_lists(&mut chapter);
    assert_eq!(chapter.children(NodeId::root()), root_once);
    assert_eq!(chapter.children(ul1), items_once);
    assert_eq!(root_once.len(), 3);
    assert_eq!(items_once.len(), 2);
}

#[test]
fn nested_lists_meet_only_after_their_parents_fuse() {
    // ul > ol, ul > ol: fusing the outer lists makes the inner ones
    // neighbours, and a second pass fuses them too.
    let mut chapter = Chapter::new();
    let ul1 = chapter.alloc_node(Node::new(Role::UnorderedList));
    chapter.append_child(NodeId::root(), ul1);
    let ol1 = chapter.alloc_node(Node::new(Role::OrderedList));
    chapter.append_child(ul1, ol1);
    let ul2 = chapter.alloc_node(Node::new(Role::UnorderedList));
    chapter.append_child(NodeId::root(), ul2);
    let ol2 = chapter.alloc_node(Node::new(Role::OrderedList));
    chapter.append_child(ul2, ol2);

    fuse_lists(&mut chapter);
    assert_eq!(chapter.children(NodeId::root()), vec![ul1]);
    assert_eq!(chapter.children(ul1), vec![ol1, ol2]);
    fuse_lists(&mut chapter);
    assert_eq!(chapter.children(ul1), vec![ol1]);
}

#[test]
fn semantic_setters_store_their_values() {
    let mut chapter = Chapter::new();
    let ul = list_with_item(&mut chapter, Role::UnorderedList);
    assert_eq!(chapter.semantics.id(ul), None);
    chapter.semantics.set_id(ul, "a");
    chapter.semantics.set_id(ul, "b");
    assert_eq!(chapter.semantics.id(ul), Some("b"));
    assert_eq!(chapter.semantics.ids.len(), 1);
    chapter.semantics.set_list_start(ul, 3);
    chapter.semantics.set_list_start(ul, 9);
    assert_eq!(chapter.semantics.list_start(ul), Some(9));
    assert_eq!(chapter.semantics.list_start(NodeId::root()), None);
}

#[test]
fn fused_list_points_at_its_new_last_child() {
    let mut chapter = Chapter::new();
    let ul1 = chapter.alloc_node(Node::new(Role::UnorderedList));
    chapter.append_child(NodeId::root(), ul1);
    let li1 = chapter.alloc_node(Node::new(Role::ListItem));
    chapter.append_child(ul1, li1);
    let ul2 = chapter.alloc_node(Node::new(Role::UnorderedList));
    chapter.append_child(NodeId::root(), ul2);
    let li2 = chapter.alloc_node(Node::new(Role::ListItem));
    chapter.append_child(ul2, li2);
    let root_before = *chapter.node(NodeId::root()).unwrap();

    fuse_lists(&mut chapter);

    assert_eq!(chapter.node(ul1).and_then(|n| n.last_child), Some(li2));
    // The absorbed list itself is left as it was.
    assert_eq!(chapter.node(ul2).and_then(|n| n.first_child), Some(li2));
    assert_eq!(chapter.node(NodeId::root()).map(|n| n.first_child), Some(root_before.first_child));
}
