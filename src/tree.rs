use vstd::prelude::*;
use vstd::multiset::Multiset;
use crate::export::col_views;
use crate::graph::{after_poll, ControlSignal, FloatingGraph, Poll};

verus! {

broadcast use vstd::multiset::group_multiset_axioms;

/// Split ratios are counted in ten-thousandths of the parent's extent.
pub const RATIO_SCALE: u32 = 10000;

/// Smallest ratio a split may have: no pane ever shrinks to nothing.
pub const RATIO_MIN: u32 = 1;

/// Largest ratio a split may have.
pub const RATIO_MAX: u32 = 9999;

/// Ratio of a fresh split: half and half.
pub const RATIO_HALF: u32 = 5000;

/// The direction of the line that divides a split.
#[derive(Clone, Copy, Debug, PartialEq, Eq, Structural)]
pub enum Axis {
    /// A horizontal line: one pane above the other.
    Horizontal,
    /// A vertical line: one pane beside the other.
    Vertical,
}

/// Where, on the target pane, a dragged pane is released.
#[derive(Clone, Copy, Debug, PartialEq, Eq, Structural)]
pub enum Edge {
    Top,
    Bottom,
    Left,
    Right,
}

/// What a pane shows.
pub enum Pane {
    Graph(FloatingGraph),
    Controls,
}

/// A node of the layout: a leaf holding a pane, or a split of two subtrees.
/// `id` is the node's handle.
pub enum Node {
    Leaf { id: u64, pane: Pane },
    Split { id: u64, axis: Axis, ratio: u32, a: Box<Node>, b: Box<Node> },
}

/// The pane layout: a binary tree of splits with panes at its leaves.
pub struct PaneTree {
    pub root: Node,
    pub next_id: u64,
}

/// What a requested ratio becomes: pulled into `RATIO_MIN ..= RATIO_MAX`.
pub open spec fn clamp_ratio(r: int) -> int {
    if r < RATIO_MIN as int {
        RATIO_MIN as int
    } else if r > RATIO_MAX as int {
        RATIO_MAX as int
    } else {
        r
    }
}

/// The axis and the side a pane dropped on `edge` of its target is put on:
/// `true` when it goes first (above or to the left).
pub open spec fn placement(edge: Edge) -> (Axis, bool) {
    match edge {
        Edge::Top => (Axis::Horizontal, true),
        Edge::Bottom => (Axis::Horizontal, false),
        Edge::Left => (Axis::Vertical, true),
        Edge::Right => (Axis::Vertical, false),
    }
}

/// The edge of the target nearest to a cursor at offset (`dx`, `dy`) from the
/// target's centre, `dy` growing downwards. The axis with the larger offset
/// wins; on a tie the horizontal offset wins, and a zero offset counts as
/// positive.
pub open spec fn edge_for(dx: int, dy: int) -> Edge {
    let ax = if dx < 0 { -dx } else { dx };
    let ay = if dy < 0 { -dy } else { dy };
    if ax >= ay {
        if dx < 0 { Edge::Left } else { Edge::Right }
    } else {
        if dy < 0 { Edge::Top } else { Edge::Bottom }
    }
}

/// The handles of the leaves, left to right.
pub open spec fn leaves(n: Node) -> Seq<u64>
    decreases n,
{
    match n {
        Node::Leaf { id, .. } => seq![id],
        Node::Split { a, b, .. } => leaves(*a) + leaves(*b),
    }
}

/// Some split along `axis` has the leaf `first` as its first child and the leaf
/// `second` as its second.
pub open spec fn has_pair(n: Node, axis: Axis, first: u64, second: u64) -> bool
    decreases n,
{
    match n {
        Node::Leaf { .. } => false,
        Node::Split { axis: ax, a, b, .. } => (ax == axis && match (*a, *b) {
            (Node::Leaf { id: x, .. }, Node::Leaf { id: y, .. }) => x == first && y == second,
            _ => false,
        }) || has_pair(*a, axis, first, second) || has_pair(*b, axis, first, second),
    }
}

/// What one operation did to the multiset of pane handles.
pub enum Change {
    /// A pane with this handle was added.
    Added(u64),
    /// The pane with this handle was removed.
    Removed(u64),
    /// The panes are the same, perhaps in other places.
    Kept,
}

/// `after` is `before` changed as `c` says.
pub open spec fn changes(before: Multiset<u64>, after: Multiset<u64>, c: Change) -> bool {
    match c {
        Change::Added(h) => after == before.insert(h),
        Change::Removed(h) => before.contains(h) && after == before.remove(h),
        Change::Kept => after == before,
    }
}

/// How many of the changes added a pane.
pub open spec fn n_added(cs: Seq<Change>) -> int
    decreases cs.len(),
{
    if cs.len() == 0 {
        0
    } else {
        n_added(cs.drop_last()) + if cs.last() is Added { 1int } else { 0int }
    }
}

/// How many of the changes removed a pane.
pub open spec fn n_removed(cs: Seq<Change>) -> int
    decreases cs.len(),
{
    if cs.len() == 0 {
        0
    } else {
        n_removed(cs.drop_last()) + if cs.last() is Removed { 1int } else { 0int }
    }
}

/// After any run of operations from a one-pane layout, the number of panes is
/// one plus the panes added minus the panes removed; an operation that changes
/// nothing leaves the count alone.
pub proof fn lemma_leaf_count_law(bags: Seq<Multiset<u64>>, cs: Seq<Change>)
    requires
        bags.len() == cs.len() + 1,
        bags[0].len() == 1,
        forall|i: int| 0 <= i < cs.len() ==> changes(#[trigger] bags[i], bags[i + 1], cs[i]),
    ensures
        bags.last().len() == 1 + n_added(cs) - n_removed(cs),
    decreases cs.len(),
{
    if cs.len() > 0 {
        let k = cs.len() - 1;
        lemma_leaf_count_law(bags.drop_last(), cs.drop_last());
        assert(changes(bags[k], bags[k + 1], cs[k]));
        assert(bags.drop_last().last() == bags[k]);
    }
}

/// The handles of every node, leaves and splits, as a multiset.
pub open spec fn id_bag(n: Node) -> Multiset<u64>
    decreases n,
{
    match n {
        Node::Leaf { id, .. } => Multiset::singleton(id),
        Node::Split { id, a, b, .. } => id_bag(*a).add(id_bag(*b)).insert(id),
    }
}

/// No two nodes share a handle.
pub open spec fn distinct_ids(n: Node) -> bool {
    forall|x: u64| #[trigger] id_bag(n).count(x) <= 1
}

/// No two leaves share a handle.
pub open spec fn distinct_leaves(n: Node) -> bool {
    forall|x: u64| #[trigger] leaf_bag(n).count(x) <= 1
}

/// The handles of the leaves, as a multiset.
pub open spec fn leaf_bag(n: Node) -> Multiset<u64>
    decreases n,
{
    match n {
        Node::Leaf { id, .. } => Multiset::singleton(id),
        Node::Split { a, b, .. } => leaf_bag(*a).add(leaf_bag(*b)),
    }
}

/// Every handle is below `bound`, every ratio in range and every graph well formed.
pub open spec fn node_ok(n: Node, bound: u64) -> bool
    decreases n,
{
    match n {
        Node::Leaf { id, pane } => id < bound && pane_ok(pane),
        Node::Split { id, ratio, a, b, .. } => id < bound && RATIO_MIN <= ratio <= RATIO_MAX
            && node_ok(*a, bound) && node_ok(*b, bound),
    }
}

/// The ratio of the split with handle `id`, if there is one.
pub open spec fn ratio_of(n: Node, id: u64) -> Option<u32>
    decreases n,
{
    match n {
        Node::Leaf { .. } => None,
        Node::Split { id: sid, ratio, a, b, .. } => if sid == id {
            Some(ratio)
        } else {
            match ratio_of(*a, id) {
                Some(r) => Some(r),
                None => ratio_of(*b, id),
            }
        },
    }
}

/// The tree with every split of handle `id` set to ratio `r`.
pub open spec fn resized(n: Node, id: u64, r: u32) -> Node
    decreases n,
{
    match n {
        Node::Leaf { .. } => n,
        Node::Split { id: sid, axis, ratio, a, b } => Node::Split {
            id: sid,
            axis,
            ratio: if sid == id { r } else { ratio },
            a: Box::new(resized(*a, id, r)),
            b: Box::new(resized(*b, id, r)),
        },
    }
}

/// The samples of the graph at leaf `id`, if that leaf holds a graph.
pub open spec fn graph_at(n: Node, id: u64) -> Option<Seq<i32>>
    decreases n,
{
    match n {
        Node::Leaf { id: lid, pane } => if lid == id {
            match pane {
                Pane::Graph(g) => Some(g.samples()),
                Pane::Controls => None,
            }
        } else {
            None
        },
        Node::Split { a, b, .. } => if leaf_bag(*a).contains(id) {
            graph_at(*a, id)
        } else {
            graph_at(*b, id)
        },
    }
}

/// The samples of every graph, in leaf order.
pub open spec fn columns(n: Node) -> Seq<Seq<i32>>
    decreases n,
{
    match n {
        Node::Leaf { pane, .. } => match pane {
            Pane::Graph(g) => seq![g.samples()],
            Pane::Controls => Seq::empty(),
        },
        Node::Split { a, b, .. } => columns(*a) + columns(*b),
    }
}

/// A pane's content is well formed.
pub open spec fn pane_ok(p: Pane) -> bool {
    match p {
        Pane::Graph(g) => g.wf(),
        Pane::Controls => true,
    }
}

/// Every tree holds at least one leaf, and its two lists of leaves agree in length.
pub proof fn lemma_leaf_count(n: Node)
    ensures
        leaf_bag(n).len() >= 1,
        leaves(n).len() == leaf_bag(n).len(),
        n is Leaf <==> leaf_bag(n).len() == 1,
    decreases n,
{
    match n {
        Node::Leaf { .. } => {},
        Node::Split { a, b, .. } => {
            lemma_leaf_count(*a);
            lemma_leaf_count(*b);
        },
    }
}

/// Handles at or above the bound of a well-formed tree name nothing in it.
pub proof fn lemma_fresh(n: Node, bound: u64, x: u64)
    requires
        node_ok(n, bound),
        x >= bound,
    ensures
        !leaf_bag(n).contains(x),
        !id_bag(n).contains(x),
        ratio_of(n, x).is_none(),
    decreases n,
{
    match n {
        Node::Leaf { .. } => {},
        Node::Split { a, b, .. } => {
            lemma_fresh(*a, bound, x);
            lemma_fresh(*b, bound, x);
        },
    }
}

/// A well-formed tree stays well formed under a larger bound.
pub proof fn lemma_bound_grows(n: Node, b1: u64, b2: u64)
    requires
        node_ok(n, b1),
        b1 <= b2,
    ensures
        node_ok(n, b2),
    decreases n,
{
    match n {
        Node::Leaf { .. } => {},
        Node::Split { a, b, .. } => {
            lemma_bound_grows(*a, b1, b2);
            lemma_bound_grows(*b, b1, b2);
        },
    }
}

/// Resizing keeps the leaves, and keeps the tree well formed when the ratio is in range.
pub proof fn lemma_resized_shape(n: Node, id: u64, r: u32, bound: u64)
    ensures
        leaf_bag(resized(n, id, r)) == leaf_bag(n),
        id_bag(resized(n, id, r)) == id_bag(n),
        leaves(resized(n, id, r)) == leaves(n),
        columns(resized(n, id, r)) == columns(n),
        node_ok(n, bound) && RATIO_MIN <= r <= RATIO_MAX ==> node_ok(resized(n, id, r), bound),
        ratio_of(n, id).is_some() ==> ratio_of(resized(n, id, r), id) == Some(r),
        ratio_of(n, id).is_none() ==> ratio_of(resized(n, id, r), id).is_none(),
        forall|x: u64| #[trigger] graph_at(resized(n, id, r), x) == graph_at(n, x),
    decreases n,
{
    match n {
        Node::Leaf { .. } => {},
        Node::Split { a, b, .. } => {
            lemma_resized_shape(*a, id, r, bound);
            lemma_resized_shape(*b, id, r, bound);
            assert forall|x: u64| #[trigger] graph_at(resized(n, id, r), x) == graph_at(n, x) by {
                assert(graph_at(resized(*a, id, r), x) == graph_at(*a, x));
                assert(graph_at(resized(*b, id, r), x) == graph_at(*b, x));
            }
        },
    }
}

/// Resizing a split to a ratio it already has been given changes nothing.
pub proof fn lemma_resized_idempotent(n: Node, id: u64, r: u32)
    ensures
        resized(resized(n, id, r), id, r) == resized(n, id, r),
    decreases n,
{
    match n {
        Node::Leaf { .. } => {},
        Node::Split { a, b, .. } => {
            lemma_resized_idempotent(*a, id, r);
            lemma_resized_idempotent(*b, id, r);
        },
    }
}

fn contains_leaf(n: &Node, target: u64) -> (r: bool)
    ensures
        r == leaf_bag(*n).contains(target),
    decreases n,
{
    match n {
        Node::Leaf { id, .. } => *id == target,
        Node::Split { a, b, .. } => contains_leaf(a, target) || contains_leaf(b, target),
    }
}

fn is_leaf_with(n: &Node, target: u64) -> (r: bool)
    ensures
        r == (n is Leaf && leaf_bag(*n).contains(target)),
{
    match n {
        Node::Leaf { id, .. } => *id == target,
        Node::Split { .. } => false,
    }
}

/// Replaces the leaf `target` by a split, with handle `sid` and an even ratio,
/// of `leaf` and that leaf; `leaf` comes first when `first` holds.
fn insert_beside(n: Node, target: u64, leaf: Node, axis: Axis, first: bool, sid: u64) -> (r: Node)
    requires
        leaf_bag(n).contains(target),
    ensures
        leaf_bag(r) == leaf_bag(n).add(leaf_bag(leaf)),
        id_bag(r) == id_bag(n).add(id_bag(leaf)).insert(sid),
        forall|bound: u64|
            node_ok(n, bound) && node_ok(leaf, bound) && sid < bound ==> #[trigger] node_ok(r, bound),
        ratio_of(n, sid).is_none() && ratio_of(leaf, sid).is_none() ==> ratio_of(r, sid) == Some(
            RATIO_HALF,
        ),
        leaf matches Node::Leaf { id: h, .. } ==> (!leaf_bag(n).contains(h) ==> graph_at(r, h)
            == graph_at(leaf, h)),
        forall|x: u64|
            leaf_bag(n).contains(x) && !leaf_bag(leaf).contains(x) ==> #[trigger] graph_at(r, x)
                == graph_at(n, x),
        leaf matches Node::Leaf { id: h, .. } ==> (if first {
            has_pair(r, axis, h, target)
        } else {
            has_pair(r, axis, target, h)
        }),
    decreases n,
{
    match n {
        Node::Leaf { id, pane } => {
            let here = Node::Leaf { id, pane };
            let r = if first {
                Node::Split { id: sid, axis, ratio: RATIO_HALF, a: Box::new(leaf), b: Box::new(here) }
            } else {
                Node::Split { id: sid, axis, ratio: RATIO_HALF, a: Box::new(here), b: Box::new(leaf) }
            };
            assert(leaf_bag(r) =~= leaf_bag(n).add(leaf_bag(leaf)));
            assert(id_bag(r) =~= id_bag(n).add(id_bag(leaf)).insert(sid));
            assert forall|x: u64|
                leaf_bag(n).contains(x) && !leaf_bag(leaf).contains(x) implies #[trigger] graph_at(r, x)
                == graph_at(n, x) by {
                assert(x == id);
            }
            assert forall|bound: u64|
                node_ok(n, bound) && node_ok(leaf, bound) && sid < bound implies #[trigger] node_ok(r, bound) by {}
            r
        },
        Node::Split { id, axis: ax, ratio, a, b } => {
            if contains_leaf(&a, target) {
                let na = insert_beside(*a, target, leaf, axis, first, sid);
                let r = Node::Split { id, axis: ax, ratio, a: Box::new(na), b };
                assert(leaf_bag(r) =~= leaf_bag(n).add(leaf_bag(leaf)));
            assert(id_bag(r) =~= id_bag(n).add(id_bag(leaf)).insert(sid));
                assert forall|x: u64|
                    leaf_bag(n).contains(x) && !leaf_bag(leaf).contains(x) implies #[trigger] graph_at(r, x)
                    == graph_at(n, x) by {
                    if leaf_bag(na).contains(x) { assert(graph_at(na, x) == graph_at(*a, x)); }
                }
                assert forall|bound: u64|
                    node_ok(n, bound) && node_ok(leaf, bound) && sid < bound implies #[trigger] node_ok(r, bound) by {
                    assert(node_ok(na, bound));
                }
                r
            } else {
                let nb = insert_beside(*b, target, leaf, axis, first, sid);
                let r = Node::Split { id, axis: ax, ratio, a, b: Box::new(nb) };
                assert(leaf_bag(r) =~= leaf_bag(n).add(leaf_bag(leaf)));
            assert(id_bag(r) =~= id_bag(n).add(id_bag(leaf)).insert(sid));
                assert forall|x: u64|
                    leaf_bag(n).contains(x) && !leaf_bag(leaf).contains(x) implies #[trigger] graph_at(r, x)
                    == graph_at(n, x) by {
                    if leaf_bag(nb).contains(x) { assert(graph_at(nb, x) == graph_at(*b, x)); }
                }
                assert forall|bound: u64|
                    node_ok(n, bound) && node_ok(leaf, bound) && sid < bound implies #[trigger] node_ok(r, bound) by {
                    assert(node_ok(nb, bound));
                }
                r
            }
        },
    }
}

/// Detaches the leaf `target` from a split tree. Its sibling takes the place of
/// their parent, whose handle is handed back with the rest and the leaf.
fn take_leaf(n: Node, target: u64) -> (r: (Node, Node, u64))
    requires
        n is Split,
        leaf_bag(n).contains(target),
    ensures
        leaf_bag(r.0) == leaf_bag(n).remove(target),
        leaf_bag(r.1) == Multiset::singleton(target),
        r.1 is Leaf,
        id_bag(r.0).add(id_bag(r.1)).insert(r.2) == id_bag(n),
        forall|x: u64|
            leaf_bag(r.0).contains(x) && x != target ==> #[trigger] graph_at(r.0, x) == graph_at(
                n,
                x,
            ),
        leaf_bag(n).count(target) == 1 ==> graph_at(r.1, target) == graph_at(n, target),
        forall|bound: u64|
            #[trigger] node_ok(n, bound) ==> node_ok(r.0, bound) && node_ok(r.1, bound) && r.2
                < bound,
    decreases n,
{
    match n {
        Node::Leaf { .. } => {
            proof {
                assert(false);
            }
            (n, Node::Leaf { id: target, pane: Pane::Controls }, 0)
        },
        Node::Split { id, axis, ratio, a, b } => {
            if is_leaf_with(&a, target) {
                proof {
                    lemma_leaf_count(*b);
                }
                assert(leaf_bag(*b) =~= leaf_bag(n).remove(target));
                let r = (*b, *a, id);
                assert(id_bag(r.0).add(id_bag(r.1)).insert(r.2) =~= id_bag(n));
                assert forall|x: u64|
                    leaf_bag(r.0).contains(x) && x != target implies #[trigger] graph_at(r.0, x) == graph_at(n, x) by {
                    assert(!leaf_bag(*a).contains(x) || x == target);
                }
                assert(leaf_bag(n).count(target) == 1 ==> graph_at(r.1, target) == graph_at(n, target));
                assert forall|bound: u64| #[trigger] node_ok(n, bound) implies node_ok(r.0, bound) && node_ok(r.1, bound) && r.2 < bound by {}
                r
            } else if is_leaf_with(&b, target) {
                assert(leaf_bag(*a) =~= leaf_bag(n).remove(target));
                let r = (*a, *b, id);
                assert(id_bag(r.0).add(id_bag(r.1)).insert(r.2) =~= id_bag(n));
                assert forall|x: u64|
                    leaf_bag(r.0).contains(x) && x != target implies #[trigger] graph_at(r.0, x) == graph_at(n, x) by {
                    assert(!leaf_bag(*b).contains(x) || x == target);
                }
                assert(leaf_bag(n).count(target) == 1 ==> graph_at(r.1, target) == graph_at(n, target));
                assert forall|bound: u64| #[trigger] node_ok(n, bound) implies node_ok(r.0, bound) && node_ok(r.1, bound) && r.2 < bound by {}
                r
            } else if contains_leaf(&a, target) {
                let (ra, l, p) = take_leaf(*a, target);
                let r = Node::Split { id, axis, ratio, a: Box::new(ra), b };
                assert(leaf_bag(r) =~= leaf_bag(n).remove(target));
                let r = (r, l, p);
                assert(id_bag(r.0).add(id_bag(r.1)).insert(r.2) =~= id_bag(n));
                assert forall|x: u64|
                    leaf_bag(r.0).contains(x) && x != target implies #[trigger] graph_at(r.0, x) == graph_at(n, x) by {
                    if leaf_bag(ra).contains(x) { assert(graph_at(ra, x) == graph_at(*a, x)); }
                }
                assert(leaf_bag(n).count(target) == 1 ==> graph_at(r.1, target) == graph_at(n, target));
                assert forall|bound: u64| #[trigger] node_ok(n, bound) implies node_ok(r.0, bound) && node_ok(r.1, bound) && r.2 < bound by {
                    assert(node_ok(*a, bound));
                }
                r
            } else {
                let (rb, l, p) = take_leaf(*b, target);
                let r = Node::Split { id, axis, ratio, a, b: Box::new(rb) };
                assert(leaf_bag(r) =~= leaf_bag(n).remove(target));
                let r = (r, l, p);
                assert(id_bag(r.0).add(id_bag(r.1)).insert(r.2) =~= id_bag(n));
                assert forall|x: u64|
                    leaf_bag(r.0).contains(x) && x != target implies #[trigger] graph_at(r.0, x) == graph_at(n, x) by {
                    if !leaf_bag(*a).contains(x) {
                        assert(leaf_bag(rb).contains(x));
                        assert(graph_at(rb, x) == graph_at(*b, x));
                    }
                }
                assert(leaf_bag(n).count(target) == 1 ==> graph_at(r.1, target) == graph_at(n, target));
                assert forall|bound: u64| #[trigger] node_ok(n, bound) implies node_ok(r.0, bound) && node_ok(r.1, bound) && r.2 < bound by {
                    assert(node_ok(*b, bound));
                }
                r
            }
        },
    }
}

fn resize_node(n: Node, id: u64, r: u32) -> (res: Node)
    ensures
        res == resized(n, id, r),
    decreases n,
{
    match n {
        Node::Leaf { id: lid, pane } => Node::Leaf { id: lid, pane },
        Node::Split { id: sid, axis, ratio, a, b } => {
            let na = resize_node(*a, id, r);
            let nb = resize_node(*b, id, r);
            Node::Split {
                id: sid,
                axis,
                ratio: if sid == id { r } else { ratio },
                a: Box::new(na),
                b: Box::new(nb),
            }
        },
    }
}

fn ratio_lookup(n: &Node, id: u64) -> (r: Option<u32>)
    ensures
        r == ratio_of(*n, id),
    decreases n,
{
    match n {
        Node::Leaf { .. } => None,
        Node::Split { id: sid, ratio, a, b, .. } => {
            if *sid == id {
                Some(*ratio)
            } else {
                match ratio_lookup(a, id) {
                    Some(r) => Some(r),
                    None => ratio_lookup(b, id),
                }
            }
        },
    }
}

fn collect_leaves(n: &Node, out: &mut Vec<u64>)
    ensures
        final(out)@ == old(out)@ + leaves(*n),
    decreases n,
{
    match n {
        Node::Leaf { id, .. } => {
            out.push(*id);
            assert(final(out)@ =~= old(out)@ + leaves(*n));
        },
        Node::Split { a, b, .. } => {
            collect_leaves(a, out);
            collect_leaves(b, out);
            assert(final(out)@ =~= old(out)@ + leaves(*n));
        },
    }
}

fn copy_samples(s: &[i32]) -> (r: Vec<i32>)
    ensures
        r@ == s@,
{
    let mut r: Vec<i32> = Vec::new();
    let mut i: usize = 0;
    while i < s.len()
        invariant
            i <= s@.len(),
            r@ == s@.take(i as int),
        decreases s@.len() - i,
    {
        r.push(s[i]);
        i = i + 1;
        assert(r@ =~= s@.take(i as int));
    }
    assert(s@.take(s@.len() as int) =~= s@);
    r
}


fn collect_columns(n: &Node, out: &mut Vec<Vec<i32>>)
    ensures
        col_views(final(out)@) == col_views(old(out)@) + columns(*n),
    decreases n,
{
    match n {
        Node::Leaf { pane, .. } => {
            match pane {
                Pane::Graph(g) => {
                    let c = copy_samples(g.values());
                    out.push(c);
                },
                Pane::Controls => {},
            }
            assert(col_views(final(out)@) =~= col_views(old(out)@) + columns(*n));
        },
        Node::Split { a, b, .. } => {
            collect_columns(a, out);
            collect_columns(b, out);
            assert(col_views(final(out)@) =~= col_views(old(out)@) + columns(*n));
        },
    }
}

/// Hands `poll` to the graph at leaf `target`; other panes are untouched.
fn feed(n: Node, target: u64, poll: Poll) -> (r: (Node, Option<ControlSignal>))
    ensures
        leaf_bag(r.0) == leaf_bag(n),
        id_bag(r.0) == id_bag(n),
        leaves(r.0) == leaves(n),
        forall|bound: u64| #[trigger] node_ok(n, bound) ==> node_ok(r.0, bound),
        graph_at(r.0, target) == (match graph_at(n, target) {
            Some(s) => Some(after_poll(s, poll)),
            None => None,
        }),
        r.1 == (match graph_at(n, target) {
            Some(s) => crate::graph::signal_of(poll),
            None => None,
        }),
    decreases n,
{
    match n {
        Node::Leaf { id, pane } => {
            if id == target {
                match pane {
                    Pane::Graph(g) => {
                        let mut g = g;
                        let sig = g.update(poll);
                        (Node::Leaf { id, pane: Pane::Graph(g) }, sig)
                    },
                    Pane::Controls => (Node::Leaf { id, pane: Pane::Controls }, None),
                }
            } else {
                (Node::Leaf { id, pane }, None)
            }
        },
        Node::Split { id, axis, ratio, a, b } => {
            if contains_leaf(&a, target) {
                let (na, sig) = feed(*a, target, poll);
                let r = (Node::Split { id, axis, ratio, a: Box::new(na), b }, sig);
                assert forall|bound: u64| #[trigger] node_ok(n, bound) implies node_ok(r.0, bound) by {
                    assert(node_ok(*a, bound));
                }
                r
            } else {
                let (nb, sig) = feed(*b, target, poll);
                let r = (Node::Split { id, axis, ratio, a, b: Box::new(nb) }, sig);
                assert forall|bound: u64| #[trigger] node_ok(n, bound) implies node_ok(r.0, bound) by {
                    assert(node_ok(*b, bound));
                }
                r
            }
        },
    }
}


impl PaneTree {
    /// Handles come from `next_id`, which no handle in the tree has reached.
    pub open spec fn wf(&self) -> bool {
        &&& node_ok(self.root, self.next_id)
        &&& distinct_leaves(self.root)
        &&& distinct_ids(self.root)
    }

    /// The handles of the leaves, as a multiset.
    pub open spec fn bag(&self) -> Multiset<u64> {
        leaf_bag(self.root)
    }

    /// How many panes the layout shows.
    pub open spec fn leaf_count(&self) -> nat {
        leaf_bag(self.root).len()
    }

    /// A layout of one `Controls` pane, with handle 0.
    pub fn new() -> (r: PaneTree)
        ensures
            r.wf(),
            leaves(r.root) == seq![0u64],
            r.bag() == Multiset::singleton(0u64),
            columns(r.root) == Seq::<Seq<i32>>::empty(),
            r.next_id == 1,
            r.root matches Node::Leaf { id, pane } && id == 0 && pane is Controls,
    {
        PaneTree { root: Node::Leaf { id: 0, pane: Pane::Controls }, next_id: 1 }
    }

    fn take_root(&mut self) -> (r: Node)
        ensures
            r == old(self).root,
            final(self).next_id == old(self).next_id,
    {
        let mut r = Node::Leaf { id: 0, pane: Pane::Controls };
        std::mem::swap(&mut r, &mut self.root);
        r
    }

    /// Splits the pane `target` along `axis`, evenly, and puts `pane` in the new
    /// half. Gives the new pane's handle and the split's handle; gives `None`
    /// and changes nothing when `target` is not a pane of the layout or when
    /// the handles are used up.
    pub fn split(&mut self, target: u64, axis: Axis, pane: Pane) -> (r: Option<(u64, u64)>)
        requires
            old(self).wf(),
            pane_ok(pane),
        ensures
            final(self).wf(),
            r.is_some() <==> old(self).bag().contains(target) && old(self).next_id < u64::MAX - 1,
            r.is_none() ==> *final(self) == *old(self),
            r matches Some((h, sp)) ==> {
                &&& sp == old(self).next_id
                &&& h == old(self).next_id + 1
                &&& final(self).next_id == old(self).next_id + 2
                &&& !old(self).bag().contains(h)
                &&& final(self).bag() == old(self).bag().insert(h)
                &&& final(self).leaf_count() == old(self).leaf_count() + 1
                &&& ratio_of(final(self).root, sp) == Some(RATIO_HALF)
                &&& has_pair(final(self).root, axis, target, h)
                &&& graph_at(final(self).root, h) == match pane {
                    Pane::Graph(g) => Some(g.samples()),
                    Pane::Controls => None,
                }
                &&& forall|x: u64|
                    old(self).bag().contains(x) ==> #[trigger] graph_at(final(self).root, x)
                        == graph_at(old(self).root, x)
            },
            changes(old(self).bag(), final(self).bag(), match r {
                Some((h, _)) => Change::Added(h),
                None => Change::Kept,
            }),
    {
        if self.next_id >= u64::MAX - 1 || !contains_leaf(&self.root, target) {
            return None;
        }
        let sid = self.next_id;
        let h = sid + 1;
        proof {
            lemma_fresh(self.root, self.next_id, sid);
            lemma_fresh(self.root, self.next_id, h);
            lemma_bound_grows(self.root, self.next_id, (h + 1) as u64);
        }
        let root = self.take_root();
        let leaf = Node::Leaf { id: h, pane };
        assert(leaf_bag(leaf) =~= Multiset::singleton(h));
        let new_root = insert_beside(root, target, leaf, axis, false, sid);
        self.root = new_root;
        self.next_id = h + 1;
        assert forall|x: u64| #[trigger] leaf_bag(self.root).count(x) <= 1 by {
            assert(leaf_bag(old(self).root).count(x) <= 1);
        }
        Some((h, sid))
    }

    /// Sets every split with handle `split` to `ratio`, pulled into
    /// `RATIO_MIN ..= RATIO_MAX`. An unknown handle changes nothing.
    pub fn resize(&mut self, split: u64, ratio: u32)
        requires
            old(self).wf(),
        ensures
            final(self).wf(),
            final(self).root == resized(old(self).root, split, clamp_ratio(ratio as int) as u32),
            final(self).next_id == old(self).next_id,
            final(self).bag() == old(self).bag(),
            ratio_of(old(self).root, split).is_some() ==> ratio_of(final(self).root, split) == Some(
                clamp_ratio(ratio as int) as u32,
            ),
            forall|x: u64| #[trigger] graph_at(final(self).root, x) == graph_at(old(self).root, x),
    {
        let r = if ratio < RATIO_MIN {
            RATIO_MIN
        } else if ratio > RATIO_MAX {
            RATIO_MAX
        } else {
            ratio
        };
        proof {
            lemma_resized_shape(self.root, split, r, self.next_id);
        }
        let root = self.take_root();
        self.root = resize_node(root, split, r);
    }

    /// The ratio of the split `split`, if there is one.
    pub fn ratio(&self, split: u64) -> (r: Option<u32>)
        ensures
            r == ratio_of(self.root, split),
    {
        ratio_lookup(&self.root, split)
    }

    /// Whether `handle` names a pane of the layout.
    pub fn contains(&self, handle: u64) -> (r: bool)
        ensures
            r == self.bag().contains(handle),
    {
        contains_leaf(&self.root, handle)
    }

    /// Moves the pane `source` next to the pane `target`, on the side `edge`,
    /// in an even split. The split that held `source` is dissolved and its
    /// handle reused. Returns whether anything moved: dropping a pane onto
    /// itself or naming a missing pane changes nothing.
    pub fn drop(&mut self, source: u64, target: u64, edge: Edge) -> (r: bool)
        requires
            old(self).wf(),
        ensures
            final(self).wf(),
            r <==> source != target && old(self).bag().contains(source) && old(self).bag().contains(
                target,
            ),
            !r ==> *final(self) == *old(self),
            final(self).bag() == old(self).bag(),
            final(self).leaf_count() == old(self).leaf_count(),
            changes(old(self).bag(), final(self).bag(), Change::Kept),
            final(self).next_id == old(self).next_id,
            forall|x: u64|
                old(self).bag().contains(x) ==> #[trigger] graph_at(final(self).root, x) == graph_at(
                    old(self).root,
                    x,
                ),
            r ==> (if placement(edge).1 {
                has_pair(final(self).root, placement(edge).0, source, target)
            } else {
                has_pair(final(self).root, placement(edge).0, target, source)
            }),
    {
        if source == target || !contains_leaf(&self.root, source) || !contains_leaf(
            &self.root,
            target,
        ) {
            return false;
        }
        proof {
            lemma_leaf_count(self.root);
            if self.root is Leaf {
                assert(self.bag().contains(source));
                assert(self.bag().contains(target));
            }
        }
        let root = self.take_root();
        let (rest, leaf, pid) = take_leaf(root, source);
        assert(leaf_bag(rest).contains(target));
        assert(leaf_bag(root).count(source) == 1);
        assert(!leaf_bag(rest).contains(source));
        let (axis, first) = match edge {
            Edge::Top => (Axis::Horizontal, true),
            Edge::Bottom => (Axis::Horizontal, false),
            Edge::Left => (Axis::Vertical, true),
            Edge::Right => (Axis::Vertical, false),
        };
        let new_root = insert_beside(rest, target, leaf, axis, first, pid);
        self.root = new_root;
        assert(self.bag() =~= old(self).bag());
        assert forall|x: u64|
            old(self).bag().contains(x) implies #[trigger] graph_at(self.root, x) == graph_at(
                old(self).root,
                x,
            ) by {
            if x != source {
                assert(leaf_bag(rest).contains(x));
                assert(graph_at(rest, x) == graph_at(root, x));
            }
        }
        true
    }

    /// Closes the pane `handle` and hands back what it showed; its sibling takes
    /// the place of their split. The last pane is never closed: that, and a
    /// missing handle, give `None` and change nothing.
    pub fn close(&mut self, handle: u64) -> (r: Option<Pane>)
        requires
            old(self).wf(),
        ensures
            final(self).wf(),
            r.is_some() <==> old(self).bag().contains(handle) && old(self).leaf_count() >= 2,
            r.is_none() ==> *final(self) == *old(self),
            r.is_some() ==> final(self).bag() == old(self).bag().remove(handle)
                && final(self).leaf_count() + 1 == old(self).leaf_count(),
            changes(old(self).bag(), final(self).bag(), if r.is_some() {
                Change::Removed(handle)
            } else {
                Change::Kept
            }),
    {
        proof {
            lemma_leaf_count(self.root);
        }
        if !contains_leaf(&self.root, handle) {
            return None;
        }
        if is_leaf_with(&self.root, handle) {
            return None;
        }
        let root = self.take_root();
        let (rest, leaf, pid) = take_leaf(root, handle);
        assert forall|x: u64| #[trigger] id_bag(rest).count(x) <= 1 by {
            assert(id_bag(root).count(x) <= 1);
            assert(id_bag(rest).add(id_bag(leaf)).insert(pid).count(x) >= id_bag(rest).count(x));
        }
        self.root = rest;
        match leaf {
            Node::Leaf { pane, .. } => Some(pane),
            Node::Split { .. } => {
                proof {
                    assert(false);
                }
                None
            },
        }
    }

    /// The handles of all panes, in a fixed order: left to right, top to bottom.
    pub fn handles(&self) -> (r: Vec<u64>)
        ensures
            r@ == leaves(self.root),
            r@.len() == self.leaf_count(),
    {
        proof {
            lemma_leaf_count(self.root);
        }
        let mut out: Vec<u64> = Vec::new();
        collect_leaves(&self.root, &mut out);
        assert(out@ =~= leaves(self.root));
        out
    }

    /// One tick of the graph at `handle`: hands it what its data source gave.
    pub fn update_graph(&mut self, handle: u64, poll: Poll) -> (r: Option<ControlSignal>)
        requires
            old(self).wf(),
        ensures
            final(self).wf(),
            final(self).bag() == old(self).bag(),
            leaves(final(self).root) == leaves(old(self).root),
            graph_at(final(self).root, handle) == (match graph_at(old(self).root, handle) {
                Some(s) => Some(after_poll(s, poll)),
                None => None,
            }),
            r == (match graph_at(old(self).root, handle) {
                Some(s) => crate::graph::signal_of(poll),
                None => None,
            }),
    {
        let root = self.take_root();
        let (new_root, sig) = feed(root, handle, poll);
        self.root = new_root;
        sig
    }

    /// The samples of every graph, in the order of `handles`.
    pub fn graph_columns(&self) -> (r: Vec<Vec<i32>>)
        ensures
            col_views(r@) == columns(self.root),
    {
        let mut out: Vec<Vec<i32>> = Vec::new();
        collect_columns(&self.root, &mut out);
        assert(col_views(out@) =~= columns(self.root));
        out
    }
}

/// Setting a split's ratio a second time to the same value leaves the layout as
/// the first time did.
pub proof fn lemma_resize_idempotent(t: PaneTree, split: u64, ratio: u32)
    ensures
        resized(resized(t.root, split, clamp_ratio(ratio as int) as u32), split, clamp_ratio(
            ratio as int,
        ) as u32) == resized(t.root, split, clamp_ratio(ratio as int) as u32),
{
    lemma_resized_idempotent(t.root, split, clamp_ratio(ratio as int) as u32);
}

/// The edge of the target a pane is dropped on, from the cursor's offset to the
/// target's centre (`dy` growing downwards): the axis with the larger offset
/// wins, the horizontal one on a tie.
pub fn edge_at(dx: i32, dy: i32) -> (r: Edge)
    ensures
        r == edge_for(dx as int, dy as int),
{
    let ax: i64 = if dx < 0 { -(dx as i64) } else { dx as i64 };
    let ay: i64 = if dy < 0 { -(dy as i64) } else { dy as i64 };
    if ax >= ay {
        if dx < 0 { Edge::Left } else { Edge::Right }
    } else {
        if dy < 0 { Edge::Top } else { Edge::Bottom }
    }
}

} // verus!
