use vstd::prelude::*;
use vstd::multiset::Multiset;
use crate::export::{export_rows, table_of};
use crate::text::{fmt_table, format_table};
use crate::graph::{after_poll, signal_of, ControlSignal, FloatingGraph, Poll};
use crate::tree::{
    clamp_ratio, columns, graph_at, has_pair, placement, ratio_of, resized, Axis, Edge, Node, Pane,
    PaneTree, RATIO_HALF, Change, changes, n_added, n_removed, lemma_leaf_count_law,
};

verus! {

broadcast use vstd::string::to_string_from_display_ensures_for_str;

/// Everything that can happen to the workspace: the only way its state changes.
pub enum Message {
    /// Set the ratio of a split.
    Resize { split: u64, ratio: u32 },
    /// A pane was dragged and released on an edge of another.
    Drop { source: u64, target: u64, edge: Edge },
    /// Export every graph to the current path.
    Save,
    /// The export path was edited.
    PathChanged(String),
    /// A data port was picked.
    ChangePort(String),
    /// Open a new graph below `target`: it starts from `imported` when an import
    /// gave samples, and from the synthesized `samples` otherwise.
    Split { target: u64, samples: Vec<i32>, imported: Option<Vec<i32>> },
    /// The data source of the graph at `pane` was polled.
    Data { pane: u64, poll: Poll },
}

/// What the host has to do after a message.
pub enum Action {
    Nothing,
    /// Write `text`, the padded table of every graph's samples, to the file at `path`.
    Export { path: String, text: Vec<u8> },
    /// A graph reported an exceptional condition.
    Signal(ControlSignal),
}

/// The state behind the window: the layout, the export path and the chosen port.
pub struct Workspace {
    pub tree: PaneTree,
    pub path: String,
    pub port: Option<String>,
}

/// What a successful split of `target` for a graph of `samples` made of
/// `before`: the split takes the next handle and the new pane the one after.
/// The pane goes below `target` in an even horizontal split, holds the graph,
/// and every other pane keeps what it showed.
pub open spec fn new_pane_ok(before: PaneTree, after: PaneTree, target: u64, samples: Seq<i32>) -> bool {
    let sp = before.next_id;
    let h = (before.next_id + 1) as u64;
    &&& after.next_id == before.next_id + 2
    &&& !before.bag().contains(h)
    &&& after.bag() == before.bag().insert(h)
    &&& graph_at(after.root, h) == Some(samples)
    &&& has_pair(after.root, Axis::Horizontal, target, h)
    &&& ratio_of(after.root, sp) == Some(RATIO_HALF)
    &&& forall|x: u64| before.bag().contains(x) ==> #[trigger] graph_at(after.root, x) == graph_at(before.root, x)
}

/// What a message does to the multiset of pane handles: only a split that
/// succeeds adds one, and no message removes one.
pub open spec fn step_change(w: Workspace, msg: Message) -> Change {
    match msg {
        Message::Split { target, .. } => if w.tree.bag().contains(target) && w.tree.next_id
            < u64::MAX - 1 {
            Change::Added((w.tree.next_id + 1) as u64)
        } else {
            Change::Kept
        },
        _ => Change::Kept,
    }
}

/// After any run of messages from a new workspace, the number of panes is one
/// plus the number of splits that succeeded; every other message, and every
/// split that fails, leaves it as it was.
pub proof fn lemma_run_leaf_count(states: Seq<Workspace>, msgs: Seq<Message>)
    requires
        states.len() == msgs.len() + 1,
        states[0].tree.bag() == Multiset::singleton(0u64),
        forall|i: int|
            0 <= i < msgs.len() ==> changes(
                #[trigger] states[i].tree.bag(),
                states[i + 1].tree.bag(),
                step_change(states[i], msgs[i]),
            ),
    ensures
        states.last().tree.leaf_count() == 1 + n_added(
            Seq::new(msgs.len(), |i: int| step_change(states[i], msgs[i])),
        ),
{
    let cs = Seq::new(msgs.len(), |i: int| step_change(states[i], msgs[i]));
    let bags = Seq::new(states.len(), |i: int| states[i].tree.bag());
    assert forall|i: int| 0 <= i < cs.len() implies changes(#[trigger] bags[i], bags[i + 1], cs[i]) by {
        assert(changes(states[i].tree.bag(), states[i + 1].tree.bag(), step_change(states[i], msgs[i])));
    }
    lemma_leaf_count_law(bags, cs);
    lemma_none_removed(cs);
    assert(bags.last() == states.last().tree.bag());
}

proof fn lemma_none_removed(cs: Seq<Change>)
    requires
        forall|i: int| 0 <= i < cs.len() ==> !(#[trigger] cs[i] is Removed),
    ensures
        n_removed(cs) == 0,
    decreases cs.len(),
{
    if cs.len() > 0 {
        assert(!(cs[cs.len() - 1] is Removed));
        lemma_none_removed(cs.drop_last());
    }
}

impl Workspace {
    /// The layout is well formed.
    pub open spec fn wf(&self) -> bool {
        self.tree.wf()
    }

    /// One `Controls` pane, the path `graph1.csv` and no port.
    pub fn new() -> (r: Workspace)
        ensures
            r.wf(),
            r.tree.bag() == Multiset::singleton(0u64),
            r.tree.next_id == 1,
            r.tree.root matches Node::Leaf { id, pane } && id == 0 && pane is Controls,
            r.path@ == "graph1.csv"@,
            r.port.is_none(),
    {
        Workspace { tree: PaneTree::new(), path: "graph1.csv".to_string(), port: None }
    }

    /// Handles one message.
    pub fn update(&mut self, msg: Message) -> (r: Action)
        requires
            old(self).wf(),
        ensures
            final(self).wf(),
            changes(old(self).tree.bag(), final(self).tree.bag(), step_change(*old(self), msg)),
            match msg {
                Message::Resize { split, ratio } => {
                    &&& final(self).tree.root == resized(
                        old(self).tree.root,
                        split,
                        clamp_ratio(ratio as int) as u32,
                    )
                    &&& final(self).tree.next_id == old(self).tree.next_id
                    &&& final(self).tree.bag() == old(self).tree.bag()
                    &&& ratio_of(old(self).tree.root, split).is_some() ==> ratio_of(
                        final(self).tree.root,
                        split,
                    ) == Some(clamp_ratio(ratio as int) as u32)
                    &&& forall|x: u64|
                        old(self).tree.bag().contains(x) ==> #[trigger] graph_at(
                            final(self).tree.root,
                            x,
                        ) == graph_at(old(self).tree.root, x)
                    &&& final(self).path == old(self).path
                    &&& final(self).port == old(self).port
                    &&& r is Nothing
                },
                Message::Drop { source, target, edge } => {
                    &&& final(self).tree.bag() == old(self).tree.bag()
                    &&& final(self).tree.next_id == old(self).tree.next_id
                    &&& forall|x: u64|
                        old(self).tree.bag().contains(x) ==> #[trigger] graph_at(
                            final(self).tree.root,
                            x,
                        ) == graph_at(old(self).tree.root, x)
                    &&& !(source != target && old(self).tree.bag().contains(source)
                        && old(self).tree.bag().contains(target)) ==> final(self).tree
                        == old(self).tree
                    &&& (source != target && old(self).tree.bag().contains(source)
                        && old(self).tree.bag().contains(target)) ==> if placement(edge).1 {
                        has_pair(final(self).tree.root, placement(edge).0, source, target)
                    } else {
                        has_pair(final(self).tree.root, placement(edge).0, target, source)
                    }
                    &&& final(self).path == old(self).path
                    &&& final(self).port == old(self).port
                    &&& r is Nothing
                },
                Message::Save => {
                    &&& final(self).tree == old(self).tree
                    &&& final(self).path == old(self).path
                    &&& final(self).port == old(self).port
                    &&& r matches Action::Export { path, text } && path@ == old(self).path@
                        && text@ == fmt_table(table_of(columns(old(self).tree.root)))
                },
                Message::PathChanged(p) => {
                    &&& final(self).tree == old(self).tree
                    &&& final(self).path == p
                    &&& final(self).port == old(self).port
                    &&& r is Nothing
                },
                Message::ChangePort(p) => {
                    &&& final(self).tree == old(self).tree
                    &&& final(self).path == old(self).path
                    &&& final(self).port == Some(p)
                    &&& r is Nothing
                },
                Message::Split { target, samples, imported } => {
                    &&& final(self).path == old(self).path
                    &&& final(self).port == old(self).port
                    &&& r is Nothing
                    &&& if old(self).tree.bag().contains(target) && old(self).tree.next_id
                        < u64::MAX - 1 {
                        &&& final(self).tree.leaf_count() == old(self).tree.leaf_count() + 1
                        &&& new_pane_ok(
                            old(self).tree,
                            final(self).tree,
                            target,
                            match imported {
                                Some(v) => v@,
                                None => samples@,
                            },
                        )
                    } else {
                        final(self).tree == old(self).tree
                    }
                },
                Message::Data { pane, poll } => {
                    &&& final(self).tree.bag() == old(self).tree.bag()
                    &&& graph_at(final(self).tree.root, pane) == (match graph_at(
                        old(self).tree.root,
                        pane,
                    ) {
                        Some(s) => Some(after_poll(s, poll)),
                        None => None,
                    })
                    &&& final(self).path == old(self).path
                    &&& final(self).port == old(self).port
                    &&& r == (match graph_at(old(self).tree.root, pane) {
                        Some(s) => match signal_of(poll) {
                            Some(c) => Action::Signal(c),
                            None => Action::Nothing,
                        },
                        None => Action::Nothing,
                    })
                },
            },
    {
        match msg {
            Message::Resize { split, ratio } => {
                self.tree.resize(split, ratio);
                Action::Nothing
            },
            Message::Drop { source, target, edge } => {
                self.tree.drop(source, target, edge);
                Action::Nothing
            },
            Message::Save => {
                let cols = self.tree.graph_columns();
                let rows = export_rows(&cols);
                let text = format_table(&rows);
                Action::Export { path: self.path.clone(), text }
            },
            Message::PathChanged(p) => {
                self.path = p;
                Action::Nothing
            },
            Message::ChangePort(p) => {
                self.port = Some(p);
                Action::Nothing
            },
            Message::Split { target, samples, imported } => {
                let g = FloatingGraph::new(samples, 0, 0, imported);
                self.tree.split(target, Axis::Horizontal, Pane::Graph(g));
                Action::Nothing
            },
            Message::Data { pane, poll } => {
                match self.tree.update_graph(pane, poll) {
                    Some(c) => Action::Signal(c),
                    None => Action::Nothing,
                }
            },
        }
    }
}

} // verus!
