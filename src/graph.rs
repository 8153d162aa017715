use vstd::prelude::*;
use crate::buffer::GraphBuffer;
use crate::viewport::{is_projection, Point, Viewport};

verus! {

/// What one non-blocking poll of a graph's data source gave.
#[derive(Clone, Copy, Debug, PartialEq, Eq, Structural)]
pub enum Poll {
    /// One new sample.
    Sample(i32),
    /// Nothing new this tick; not an error.
    Empty,
    /// The source stopped and will yield nothing more.
    Disconnected,
}

/// An exceptional condition reported by `FloatingGraph::update`.
#[derive(Clone, Copy, Debug, PartialEq, Eq, Structural)]
pub enum ControlSignal {
    SourceDisconnected,
}

/// A live graph: its samples and the transform it is drawn with.
pub struct FloatingGraph {
    pub buffer: GraphBuffer,
    pub viewport: Viewport,
}

/// The signal that one poll result raises, if any.
pub open spec fn signal_of(p: Poll) -> Option<ControlSignal> {
    match p {
        Poll::Disconnected => Some(ControlSignal::SourceDisconnected),
        _ => None,
    }
}

/// The samples after one poll result has been taken in.
pub open spec fn after_poll(s: Seq<i32>, p: Poll) -> Seq<i32> {
    match p {
        Poll::Sample(v) => s.push(v),
        _ => s,
    }
}

/// The samples after a run of poll results has been taken in, in order.
pub open spec fn after_polls(s: Seq<i32>, polls: Seq<Poll>) -> Seq<i32>
    decreases polls.len(),
{
    if polls.len() == 0 {
        s
    } else {
        after_poll(after_polls(s, polls.drop_last()), polls.last())
    }
}

/// The values of a run of polls that each gave a sample.
pub open spec fn polled_values(polls: Seq<Poll>) -> Seq<i32> {
    polls.map_values(|p: Poll| match p {
        Poll::Sample(v) => v,
        _ => 0,
    })
}

/// When every poll of a run gives one sample, the run appends exactly those
/// samples, in arrival order, and nothing else.
pub proof fn lemma_ticks_append(s: Seq<i32>, polls: Seq<Poll>)
    requires
        forall|i: int| 0 <= i < polls.len() ==> #[trigger] polls[i] is Sample,
    ensures
        after_polls(s, polls) == s + polled_values(polls),
        after_polls(s, polls).len() == s.len() + polls.len(),
    decreases polls.len(),
{
    if polls.len() > 0 {
        let k = polls.len() - 1;
        assert(polls[k] is Sample);
        lemma_ticks_append(s, polls.drop_last());
        assert(polled_values(polls) =~= polled_values(polls.drop_last()).push(
            polled_values(polls)[k],
        ));
        assert(after_polls(s, polls) =~= s + polled_values(polls));
    } else {
        assert(s + polled_values(polls) =~= s);
    }
}

impl FloatingGraph {
    /// The viewport is well formed.
    pub open spec fn wf(&self) -> bool {
        self.viewport.wf()
    }

    /// The samples received so far, in order.
    pub open spec fn samples(&self) -> Seq<i32> {
        self.buffer@
    }

    /// A graph that starts from `imported` when an import gave samples, and from
    /// the synthesized `initial` samples otherwise; the zoom is one.
    pub fn new(initial: Vec<i32>, pan_x: i32, pan_y: i32, imported: Option<Vec<i32>>) -> (r:
        FloatingGraph)
        ensures
            r.wf(),
            r.samples() == (match imported {
                Some(v) => v@,
                None => initial@,
            }),
            r.viewport == (Viewport { pan_x, pan_y, zoom: 1 }),
    {
        let samples = match imported {
            Some(v) => v,
            None => initial,
        };
        let mut viewport = Viewport::new();
        viewport.set_pan(pan_x, pan_y);
        FloatingGraph { buffer: GraphBuffer::from_samples(samples), viewport }
    }

    /// One tick: takes in what the data source gave. A sample is appended; a
    /// disconnected source leaves the samples as they are and is reported.
    pub fn update(&mut self, poll: Poll) -> (r: Option<ControlSignal>)
        ensures
            final(self).samples() == after_poll(old(self).samples(), poll),
            final(self).viewport == old(self).viewport,
            r == signal_of(poll),
    {
        match poll {
            Poll::Sample(v) => {
                self.buffer.append(v);
                None
            },
            Poll::Empty => None,
            Poll::Disconnected => Some(ControlSignal::SourceDisconnected),
        }
    }

    /// The samples, for export.
    pub fn values(&self) -> (r: &[i32])
        ensures
            r@ == self.samples(),
    {
        self.buffer.snapshot()
    }

    /// The polyline to stroke on a canvas `canvas_height` pixels high.
    pub fn draw(&self, canvas_height: u32) -> (r: Vec<Point>)
        ensures
            is_projection(r@, self.viewport, self.samples(), canvas_height as int),
    {
        self.viewport.project(self.buffer.snapshot(), canvas_height)
    }

    /// Moves the view; the samples stay as they are.
    pub fn pan(&mut self, pan_x: i32, pan_y: i32)
        requires
            old(self).wf(),
        ensures
            final(self).wf(),
            final(self).samples() == old(self).samples(),
            final(self).viewport == (Viewport { pan_x, pan_y, zoom: old(self).viewport.zoom }),
    {
        self.viewport.set_pan(pan_x, pan_y);
    }

    /// Changes the zoom, raising a value at or below zero to the minimum.
    pub fn zoom(&mut self, zoom: i64)
        ensures
            final(self).wf(),
            final(self).samples() == old(self).samples(),
            final(self).viewport.zoom as int == crate::viewport::clamp_zoom(zoom as int),
            final(self).viewport.pan_x == old(self).viewport.pan_x,
            final(self).viewport.pan_y == old(self).viewport.pan_y,
    {
        self.viewport.set_zoom(zoom);
    }
}

} // verus!
