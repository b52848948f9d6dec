use flat_tree::{
    Children, ChildrenMut, FlatTree, FlatTreeIter, FlatTreeIterMut, FlatTreeWithLookup,
    HasChildren, SourceNode,
};

fn sample() -> SourceNode<usize> {
    SourceNode::with_children(
        1,
        vec![
            SourceNode::new(2),
            SourceNode::with_children(3, vec![SourceNode::new(4), SourceNode::new(5)]),
            SourceNode::with_children(6, vec![SourceNode::new(7)]),
            SourceNode::new(8),
        ],
    )
}

fn keep_all(n: &SourceNode<usize>) -> Option<usize> {
    Some(n.value)
}

fn walk(out: &mut Vec<usize>, mut it: FlatTreeIter<usize>) {
    while let Some((node, children)) = it.next() {
        out.push(*node.data());
        walk(out, children.children());
    }
}

fn positions(out: &mut Vec<usize>, mut it: FlatTreeIter<usize>) {
    while let Some((_, children)) = it.next() {
        out.push(children.parent_position());
        positions(out, children.children());
    }
}

fn payloads(flat: &FlatTree<usize>) -> Vec<usize> {
    flat.as_slice().iter().map(|n| *n.data()).collect()
}

fn offsets(flat: &FlatTree<usize>) -> Vec<isize> {
    flat.as_slice().iter().map(|n| n.next_sibling()).collect()
}

#[test]
fn offsets_follow_the_encoding() {
    let flat = FlatTree::new(&sample(), 8, keep_all);
    assert_eq!(offsets(&flat), vec![-1, 1, 3, 1, 0, 2, 0, 0]);
    assert_eq!(flat.len(), 8);
    assert!(!flat.is_empty());
}

#[test]
fn depth_first_walk_is_pre_order() {
    let flat = FlatTree::new(&sample(), 8, keep_all);
    let mut out = Vec::new();
    walk(&mut out, flat.tree_iter());
    assert_eq!(out, vec![1, 2, 3, 4, 5, 6, 7, 8]);
    assert_eq!(out, payloads(&flat));
}

#[test]
fn walk_skips_left_out_subtrees() {
    let flat = FlatTree::new(&sample(), 8, |n: &SourceNode<usize>| {
        if n.value == 3 { None } else { Some(n.value * 10) }
    });
    let mut out = Vec::new();
    walk(&mut out, flat.tree_iter());
    assert_eq!(out, vec![10, 20, 60, 70, 80]);
}

#[test]
fn lookup_keeps_full_indices() {
    let flat = FlatTreeWithLookup::new(&sample(), 8, |n: &SourceNode<usize>| {
        if n.value == 3 { None } else { Some(n.value) }
    });
    assert_eq!(payloads(flat.tree()), vec![1, 2, 6, 7, 8]);
    let globals: Vec<usize> = (0..5).map(|i| flat.global_position_of(i)).collect();
    assert_eq!(globals, vec![0, 1, 5, 6, 7]);
    assert_eq!(offsets(flat.tree()), vec![-1, 1, 2, 0, 0]);
}

#[test]
fn lookup_without_filtering_is_identity() {
    let flat = FlatTreeWithLookup::new(&sample(), 0, keep_all);
    let globals: Vec<usize> = (0..8).map(|i| flat.global_position_of(i)).collect();
    assert_eq!(globals, vec![0, 1, 2, 3, 4, 5, 6, 7]);
}

#[test]
fn lookup_skips_a_deep_left_out_subtree() {
    // 0(1(2, 3), 4(5), 6): leave out node 1, so 2 and 3 go too.
    let tree = SourceNode::with_children(
        0usize,
        vec![
            SourceNode::with_children(1, vec![SourceNode::new(2), SourceNode::new(3)]),
            SourceNode::with_children(4, vec![SourceNode::new(5)]),
            SourceNode::new(6),
        ],
    );
    let flat = FlatTreeWithLookup::new(&tree, 2, |n: &SourceNode<usize>| {
        if n.value == 1 { None } else { Some(n.value) }
    });
    assert_eq!(payloads(flat.tree()), vec![0, 4, 5, 6]);
    let globals: Vec<usize> = (0..4).map(|i| flat.global_position_of(i)).collect();
    assert_eq!(globals, vec![0, 4, 5, 6]);
}

#[test]
fn root_left_out_gives_an_empty_tree() {
    let flat = FlatTreeWithLookup::new(&sample(), 8, |_: &SourceNode<usize>| None::<usize>);
    assert!(flat.tree().is_empty());
    assert_eq!(flat.tree().len(), 0);
    assert!(flat.tree_iter().next().is_none());
    let mut flat = flat;
    assert!(flat.tree_iter_mut().next().is_none());
}

#[test]
fn node_whose_children_all_go_is_a_leaf() {
    // 1(2(3, 4), 5): leave out 3 and 4.
    let tree = SourceNode::with_children(
        1usize,
        vec![
            SourceNode::with_children(2, vec![SourceNode::new(3), SourceNode::new(4)]),
            SourceNode::new(5),
        ],
    );
    let flat = FlatTree::new(&tree, 5, |n: &SourceNode<usize>| {
        if n.value == 3 || n.value == 4 { None } else { Some(n.value) }
    });
    assert_eq!(payloads(&flat), vec![1, 2, 5]);
    assert_eq!(offsets(&flat), vec![-1, 1, 0]);
    let mut it = flat.tree_iter();
    let (_, root_children) = it.next().unwrap();
    let (two, two_children) = root_children.get(0).unwrap();
    assert_eq!(*two.data(), 2);
    assert!(two_children.is_empty());
    assert!(two_children.children().next().is_none());
}

#[test]
fn last_kept_child_ends_the_chain() {
    // 1(2(7), 3, 4): leave out the trailing 3 and 4, so 2 is the last child.
    let tree = SourceNode::with_children(
        1usize,
        vec![
            SourceNode::with_children(2, vec![SourceNode::new(7)]),
            SourceNode::new(3),
            SourceNode::new(4),
        ],
    );
    let flat = FlatTree::new(&tree, 5, |n: &SourceNode<usize>| {
        if n.value == 3 || n.value == 4 { None } else { Some(n.value) }
    });
    assert_eq!(payloads(&flat), vec![1, 2, 7]);
    assert_eq!(offsets(&flat), vec![-1, -1, 0]);
    let mut out = Vec::new();
    walk(&mut out, flat.tree_iter());
    assert_eq!(out, vec![1, 2, 7]);
}

#[test]
fn single_node_tree() {
    let flat = FlatTree::new(&SourceNode::new(42usize), 1, keep_all);
    assert_eq!(offsets(&flat), vec![0]);
    let mut it = flat.tree_iter();
    let (node, children) = it.next().unwrap();
    assert_eq!(*node.data(), 42);
    assert!(children.is_empty());
    assert!(children.get(0).is_none());
    assert!(it.next().is_none());
}

#[test]
fn children_get_walks_the_chain() {
    let flat = FlatTree::new(&sample(), 8, keep_all);
    let mut it = flat.tree_iter();
    let (_, children) = it.next().unwrap();
    let got: Vec<usize> = (0..4).map(|i| *children.get(i).unwrap().0.data()).collect();
    assert_eq!(got, vec![2, 3, 6, 8]);
    assert!(children.get(4).is_none());
    assert!(children.get(100).is_none());
    let (three, three_children) = children.get(1).unwrap();
    assert_eq!(*three.data(), 3);
    assert_eq!(three_children.parent_position(), 2);
    assert_eq!(*three_children.get(1).unwrap().0.data(), 5);
    assert!(three_children.get(2).is_none());
}

#[test]
fn children_view_is_idempotent() {
    let flat = FlatTree::new(&sample(), 8, keep_all);
    let (_, children): (_, Children<usize>) = flat.tree_iter().next().unwrap();
    let mut first = Vec::new();
    walk(&mut first, children.children());
    let mut second = Vec::new();
    walk(&mut second, children.children());
    assert_eq!(first, second);
    assert_eq!(first, vec![2, 3, 4, 5, 6, 7, 8]);
    for i in 0..5 {
        let a = children.get(i).map(|(n, c)| (*n.data(), c.parent_position()));
        let b = children.get(i).map(|(n, c)| (*n.data(), c.parent_position()));
        assert_eq!(a, b);
    }
    assert_eq!(children.is_empty(), children.is_empty());
    assert!(!children.is_empty());
}

#[test]
fn subtree_positions_are_contiguous() {
    let flat = FlatTree::new(&sample(), 8, keep_all);
    let mut it = flat.tree_iter();
    let (_, root_children) = it.next().unwrap();
    let (_, three_children) = root_children.get(1).unwrap();
    let mut inside = Vec::new();
    positions(&mut inside, three_children.children());
    assert_eq!(inside, vec![3, 4]);
    let (_, six_children) = root_children.get(2).unwrap();
    let mut inside_six = Vec::new();
    positions(&mut inside_six, six_children.children());
    assert_eq!(inside_six, vec![6]);
    let mut all = Vec::new();
    positions(&mut all, flat.tree_iter());
    assert_eq!(all, vec![0, 1, 2, 3, 4, 5, 6, 7]);
}

#[test]
fn nth_skips_siblings() {
    let flat = FlatTree::new(&sample(), 8, keep_all);
    let (_, children) = flat.tree_iter().next().unwrap();
    let mut it = children.children();
    assert_eq!(*it.nth(1).unwrap().0.data(), 3);
    assert_eq!(*it.next().unwrap().0.data(), 6);
    assert!(it.nth(1).is_none());
    assert!(it.next().is_none());
}

#[test]
fn empty_cursors_yield_nothing() {
    let mut a: FlatTreeIter<usize> = FlatTreeIter::new_empty();
    assert!(a.next().is_none());
    let mut b: FlatTreeIterMut<usize> = FlatTreeIterMut::new_empty();
    assert!(b.next().is_none());
    assert!(b.nth(3).is_none());
}

#[test]
fn cursor_over_a_slice() {
    let flat = FlatTree::new(&sample(), 8, keep_all);
    let mut out = Vec::new();
    walk(&mut out, FlatTreeIter::new(flat.as_slice()));
    assert_eq!(out, vec![1, 2, 3, 4, 5, 6, 7, 8]);
}

#[test]
fn writes_through_one_child_stay_there() {
    let mut flat = FlatTree::new(&sample(), 8, keep_all);
    {
        let mut it = flat.tree_iter_mut();
        let (root, mut children): (_, ChildrenMut<usize>) = it.next().unwrap();
        {
            let (three, mut three_children) = children.get_mut(1).unwrap();
            *three.data_mut() = 30;
            let (four, _) = three_children.get_mut(0).unwrap();
            *four.data_mut() = 40;
        }
        {
            let (eight, _) = children.get_mut(3).unwrap();
            *eight.data_mut() += 800;
        }
        assert!(children.get_mut(4).is_none());
        assert_eq!(*children.get(1).unwrap().0.data(), 30);
        assert!(!children.is_empty());
        *root.data_mut() = 100;
    }
    assert_eq!(payloads(&flat), vec![100, 2, 30, 40, 5, 6, 7, 808]);
    assert_eq!(offsets(&flat), vec![-1, 1, 3, 1, 0, 2, 0, 0]);
}

#[test]
fn writes_through_sibling_cursors_are_disjoint() {
    let mut flat = FlatTree::new(&sample(), 8, keep_all);
    {
        let mut it = flat.tree_iter_mut();
        let (_, mut children) = it.next().unwrap();
        let mut siblings = children.children_mut();
        let (_, mut three_children) = siblings.nth(1).unwrap();
        let (_, mut six_children) = siblings.next().unwrap();
        let mut under_three = three_children.children_mut();
        let mut under_six = six_children.children_mut();
        let (seven, _) = under_six.next().unwrap();
        let (four, _) = under_three.next().unwrap();
        *seven.data_mut() = 70;
        *four.data_mut() = 41;
        assert!(under_six.next().is_none());
    }
    assert_eq!(payloads(&flat), vec![1, 2, 3, 41, 5, 6, 70, 8]);
}

#[test]
fn mutable_walk_through_lookup_variant() {
    let mut flat = FlatTreeWithLookup::new(&sample(), 8, |n: &SourceNode<usize>| {
        if n.value == 6 { None } else { Some(n.value) }
    });
    {
        let mut it = flat.tree_iter_mut();
        let (_, mut children) = it.next().unwrap();
        let (last, _) = children.get_mut(2).unwrap();
        *last.data_mut() = 9;
    }
    assert_eq!(payloads(flat.tree()), vec![1, 2, 3, 4, 5, 9]);
    assert_eq!(flat.global_position_of(5), 7);
}

#[test]
fn deref_reaches_the_payload() {
    let mut flat = FlatTree::new(&sample(), 8, keep_all);
    {
        let mut it = flat.tree_iter_mut();
        let (root, _) = it.next().unwrap();
        assert_eq!(**root, 1);
        **root += 10;
    }
    let first = &flat.as_slice()[0];
    assert_eq!(**first, 11);
    assert_eq!(first.next_sibling(), -1);
}

#[test]
fn source_nodes_expose_children() {
    let tree = sample();
    let kids: Vec<usize> = tree.get_children().iter().map(|c| c.value).collect();
    assert_eq!(kids, vec![2, 3, 6, 8]);
    assert!(tree.get_children()[0].get_children().is_empty());
}
