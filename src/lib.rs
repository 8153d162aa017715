//! A workspace of resizable, rearrangeable panes that show live graphs of
//! streaming samples: the pane layout, the graphs' buffers and viewports, and
//! the export of captured samples as delimited text.

pub mod buffer;
pub mod viewport;
pub mod graph;
pub mod tree;
pub mod export;
pub mod workspace;
pub mod text;
