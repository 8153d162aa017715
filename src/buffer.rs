use vstd::prelude::*;

verus! {

/// The samples received by one graph, in order of arrival.
///
/// A sample is a reading in thousandths of its unit. Nothing is ever removed,
/// reordered or validated: the buffer only grows.
pub struct GraphBuffer {
    samples: Vec<i32>,
}

impl View for GraphBuffer {
    type V = Seq<i32>;

    closed spec fn view(&self) -> Seq<i32> {
        self.samples@
    }
}

impl GraphBuffer {
    /// An empty buffer.
    pub fn new() -> (r: GraphBuffer)
        ensures
            r@ == Seq::<i32>::empty(),
    {
        GraphBuffer { samples: Vec::new() }
    }

    /// A buffer that starts with the given samples, in their order.
    pub fn from_samples(samples: Vec<i32>) -> (r: GraphBuffer)
        ensures
            r@ == samples@,
    {
        GraphBuffer { samples }
    }

    /// Appends one sample at the end.
    pub fn append(&mut self, value: i32)
        ensures
            final(self)@ == old(self)@.push(value),
    {
        self.samples.push(value);
    }

    /// A read-only view of all samples.
    pub fn snapshot(&self) -> (r: &[i32])
        ensures
            r@ == self@,
    {
        self.samples.as_slice()
    }

    /// How many samples have arrived.
    pub fn len(&self) -> (r: usize)
        ensures
            r == self@.len(),
    {
        self.samples.len()
    }
}

} // verus!
