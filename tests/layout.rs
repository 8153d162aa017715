use panegraph::graph::{FloatingGraph, Poll};
use panegraph::tree::{edge_at, Axis, Edge, Node, Pane, PaneTree, RATIO_HALF, RATIO_MAX, RATIO_MIN};

fn graph(samples: Vec<i32>) -> Pane {
    Pane::Graph(FloatingGraph::new(samples, 0, 0, None))
}

fn walk(n: &Node, out: &mut Vec<(u64, bool)>) {
    match n {
        Node::Leaf { id, pane } => out.push((*id, matches!(pane, Pane::Graph(_)))),
        Node::Split { a, b, .. } => {
            walk(a, out);
            walk(b, out);
        }
    }
}

fn kinds(tree: &PaneTree) -> Vec<(u64, bool)> {
    let mut out = Vec::new();
    walk(&tree.root, &mut out);
    out
}

#[test]
fn split_resize_drop_scenario() {
    let mut tree = PaneTree::new();
    let (g, sp) = tree.split(0, Axis::Horizontal, graph(vec![1, 2, 3])).unwrap();
    assert_eq!(tree.handles().len(), 2);
    assert_eq!(kinds(&tree), vec![(0, false), (g, true)]);
    assert_eq!(tree.ratio(sp), Some(RATIO_HALF));
    tree.resize(sp, 8000);
    assert_eq!(tree.ratio(sp), Some(8000));
    assert!(tree.drop(g, 0, Edge::Top));
    assert_eq!(tree.handles().len(), 2);
    assert_eq!(kinds(&tree), vec![(g, true), (0, false)]);
}

#[test]
fn resize_twice_is_resize_once() {
    let mut tree = PaneTree::new();
    let (_, sp) = tree.split(0, Axis::Vertical, graph(vec![])).unwrap();
    tree.resize(sp, 3000);
    let once = (tree.handles(), tree.ratio(sp));
    tree.resize(sp, 3000);
    assert_eq!((tree.handles(), tree.ratio(sp)), once);
}

#[test]
fn resize_clamps_ratio() {
    let mut tree = PaneTree::new();
    let (_, sp) = tree.split(0, Axis::Vertical, Pane::Controls).unwrap();
    tree.resize(sp, 0);
    assert_eq!(tree.ratio(sp), Some(RATIO_MIN));
    tree.resize(sp, 20000);
    assert_eq!(tree.ratio(sp), Some(RATIO_MAX));
    tree.resize(sp + 100, 4000);
    assert_eq!(tree.ratio(sp), Some(RATIO_MAX));
    assert_eq!(tree.ratio(sp + 100), None);
}

#[test]
fn leaf_count_follows_splits_and_closes() {
    let mut tree = PaneTree::new();
    let mut splits = 0;
    let mut closes = 0;
    let (a, _) = tree.split(0, Axis::Horizontal, graph(vec![1])).unwrap();
    splits += 1;
    let (b, _) = tree.split(a, Axis::Vertical, graph(vec![2])).unwrap();
    splits += 1;
    assert!(tree.split(999, Axis::Vertical, Pane::Controls).is_none());
    assert!(!tree.drop(b, b, Edge::Left));
    assert!(!tree.drop(b, 999, Edge::Left));
    assert!(tree.drop(b, 0, Edge::Left));
    assert!(tree.drop(0, a, Edge::Bottom));
    assert_eq!(tree.handles().len(), 1 + splits - closes);
    assert!(tree.close(a).is_some());
    closes += 1;
    assert!(tree.close(a).is_none());
    assert_eq!(tree.handles().len(), 1 + splits - closes);
    let mut hs = tree.handles();
    hs.sort();
    assert_eq!(hs, vec![0, b]);
}

#[test]
fn last_pane_is_never_closed() {
    let mut tree = PaneTree::new();
    assert!(tree.close(0).is_none());
    assert_eq!(tree.handles(), vec![0]);
}

#[test]
fn drop_beside_nested_target() {
    let mut tree = PaneTree::new();
    let (a, _) = tree.split(0, Axis::Horizontal, graph(vec![])).unwrap();
    let (b, _) = tree.split(a, Axis::Vertical, graph(vec![])).unwrap();
    assert_eq!(tree.handles(), vec![0, a, b]);
    assert!(tree.drop(0, b, Edge::Right));
    assert_eq!(tree.handles(), vec![a, b, 0]);
    assert!(tree.drop(0, a, Edge::Left));
    assert_eq!(tree.handles(), vec![0, a, b]);
}

#[test]
fn update_graph_by_handle() {
    let mut tree = PaneTree::new();
    let (g, _) = tree.split(0, Axis::Horizontal, graph(vec![7])).unwrap();
    assert_eq!(tree.update_graph(g, Poll::Sample(8)), None);
    assert_eq!(tree.update_graph(g, Poll::Empty), None);
    assert_eq!(tree.update_graph(0, Poll::Sample(9)), None);
    assert_eq!(tree.graph_columns(), vec![vec![7, 8]]);
    assert!(tree.update_graph(g, Poll::Disconnected).is_some());
    assert_eq!(tree.graph_columns(), vec![vec![7, 8]]);
}

#[test]
fn edge_follows_dominant_axis() {
    assert_eq!(edge_at(-10, 3), Edge::Left);
    assert_eq!(edge_at(10, -3), Edge::Right);
    assert_eq!(edge_at(2, -30), Edge::Top);
    assert_eq!(edge_at(2, 30), Edge::Bottom);
    assert_eq!(edge_at(-5, 5), Edge::Left);
    assert_eq!(edge_at(0, 0), Edge::Right);
    assert_eq!(edge_at(i32::MIN, i32::MAX), Edge::Left);
}

#[test]
fn panes_keep_content_through_split_and_drop() {
    let mut tree = PaneTree::new();
    let (a, _) = tree.split(0, Axis::Horizontal, graph(vec![1])).unwrap();
    let (b, sb) = tree.split(a, Axis::Vertical, graph(vec![2, 2])).unwrap();
    assert_eq!((a, b, sb), (2, 4, 3));
    assert_eq!(tree.next_id, 5);
    assert_eq!(tree.graph_columns(), vec![vec![1], vec![2, 2]]);
    assert!(tree.drop(a, 0, Edge::Top));
    assert_eq!(kinds(&tree), vec![(a, true), (0, false), (b, true)]);
    assert_eq!(tree.graph_columns(), vec![vec![1], vec![2, 2]]);
    assert!(tree.drop(0, b, Edge::Right));
    assert_eq!(kinds(&tree), vec![(a, true), (b, true), (0, false)]);
    assert_eq!(tree.graph_columns(), vec![vec![1], vec![2, 2]]);
}
