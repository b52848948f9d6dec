use flat_tree::buffer::FlatTree;
use flat_tree::{FlatTreeIterMut, SourceNode};

fn sample() -> SourceNode<usize> {
    SourceNode::with_children(
        1,
        vec![
            SourceNode::new(2),
            SourceNode::with_children(3, vec![SourceNode::new(4), SourceNode::new(5)]),
            SourceNode::with_children(6, vec![SourceNode::new(7)]),
            SourceNode::new(8),
        ],
    )
}

#[test]
fn test() {
    let test = sample();
    let mut flat = FlatTree::new(&test, 8, |item: &SourceNode<usize>| Some(item.value));
    let buffer: Vec<usize> = flat.as_slice().iter().map(|x| **x).collect();
    assert_eq!(buffer, [1, 2, 3, 4, 5, 6, 7, 8]);

    let mut res = Vec::new();
    recursive_iter(&mut res, flat.tree_iter_mut());
    assert_eq!(
        res,
        [">1", ">2", "<2", ">3", ">4", "<4", ">5", "<5", "<3", ">6", ">7", "<7", "<6", ">8", "<8", "<1"]
    );
}

fn recursive_iter(result: &mut Vec<String>, mut iter: FlatTreeIterMut<usize>) {
    while let Some((node, mut children)) = iter.next() {
        result.push(format!(">{}", **node));
        recursive_iter(result, children.children_mut());
        result.push(format!("<{}", **node));
    }
}
