use panegraph::buffer::GraphBuffer;
use panegraph::export::{export_rows, import_columns};
use panegraph::graph::{ControlSignal, FloatingGraph, Poll};
use panegraph::text::{format_table, parse_sample, parse_table, push_sample, read_columns, split_bytes};
use panegraph::viewport::{Point, Viewport};
use panegraph::workspace::{Action, Message, Workspace};

#[test]
fn thousand_updates_fill_buffer_in_order() {
    let mut g = FloatingGraph::new(vec![], 0, 0, None);
    for i in 0..1000 {
        assert_eq!(g.update(Poll::Sample(i)), None);
    }
    let want: Vec<i32> = (0..1000).collect();
    assert_eq!(g.values(), &want[..]);
}

#[test]
fn disconnected_source_freezes_graph() {
    let mut g = FloatingGraph::new(vec![1, 2], 0, 0, None);
    assert_eq!(g.update(Poll::Disconnected), Some(ControlSignal::SourceDisconnected));
    assert_eq!(g.update(Poll::Empty), None);
    assert_eq!(g.values(), &[1, 2][..]);
}

#[test]
fn import_replaces_synthesized_samples() {
    let g = FloatingGraph::new(vec![1, 2], 3, 4, Some(vec![9]));
    assert_eq!(g.values(), &[9][..]);
    assert_eq!(g.viewport, Viewport { pan_x: 3, pan_y: 4, zoom: 1 });
}

#[test]
fn buffer_appends_at_end() {
    let mut b = GraphBuffer::new();
    assert_eq!(b.len(), 0);
    b.append(5);
    b.append(-5);
    assert_eq!(b.snapshot(), &[5, -5][..]);
    let c = GraphBuffer::from_samples(vec![1]);
    assert_eq!(c.len(), 1);
}

#[test]
fn project_empty_buffer_is_empty() {
    let vp = Viewport { pan_x: -40, pan_y: 17, zoom: 9 };
    assert!(vp.project(&[], 300).is_empty());
    assert!(Viewport::new().project(&[], 0).is_empty());
}

#[test]
fn project_exact_points() {
    let vp = Viewport { pan_x: 1, pan_y: 2, zoom: 3 };
    let pts = vp.project(&[5, -1], 100);
    assert_eq!(pts, vec![Point { x: 3, y: 29 }, Point { x: 6, y: 47 }]);
}

#[test]
fn project_x_is_monotonic() {
    let mut vp = Viewport::new();
    vp.set_zoom(4);
    let pts = vp.project(&[3, -8, 100, 0, 0, -7], 50);
    for w in pts.windows(2) {
        assert!(w[0].x <= w[1].x);
    }
    assert_eq!(pts[5].x, 20);
}

#[test]
fn zoom_at_or_below_zero_is_raised() {
    let mut g = FloatingGraph::new(vec![1], 0, 0, None);
    g.zoom(0);
    assert_eq!(g.viewport.zoom, 1);
    g.zoom(-7);
    assert_eq!(g.viewport.zoom, 1);
    g.zoom(1 << 40);
    assert_eq!(g.viewport.zoom, u32::MAX);
    g.pan(5, 6);
    assert_eq!(g.draw(10), vec![Point { x: 5 * u32::MAX as i128, y: 5 - 7 * u32::MAX as i128 }]);
}

#[test]
fn export_pads_short_columns() {
    let rows = export_rows(&vec![vec![1, 2, 3, 4, 5], vec![6, 7, 8]]);
    assert_eq!(rows.len(), 5);
    assert_eq!(rows[0], vec![Some(1), Some(6)]);
    assert_eq!(rows[2], vec![Some(3), Some(8)]);
    assert_eq!(rows[3], vec![Some(4), None]);
    assert_eq!(rows[4], vec![Some(5), None]);
}

#[test]
fn export_then_import_round_trip() {
    let cols = vec![vec![10, -20, 30], vec![], vec![i32::MIN, i32::MAX, 0, 1, 2]];
    let rows = export_rows(&cols);
    assert_eq!(import_columns(&rows, 3), cols);
    assert!(export_rows(&vec![]).is_empty());
}

#[test]
fn workspace_routes_messages() {
    let mut w = Workspace::new();
    assert_eq!(w.path, "graph1.csv");
    assert!(matches!(w.update(Message::PathChanged("out.csv".to_string())), Action::Nothing));
    assert!(matches!(w.update(Message::ChangePort("ttyS0".to_string())), Action::Nothing));
    assert_eq!(w.port, Some("ttyS0".to_string()));
    w.update(Message::Split { target: 0, samples: vec![1, 2], imported: None });
    let hs = w.tree.handles();
    assert_eq!(hs.len(), 2);
    let g = hs[1];
    match w.update(Message::Data { pane: g, poll: Poll::Disconnected }) {
        Action::Signal(c) => assert_eq!(c, ControlSignal::SourceDisconnected),
        _ => panic!("expected a signal"),
    }
    w.update(Message::Data { pane: g, poll: Poll::Sample(3) });
    w.update(Message::Split { target: g, samples: vec![9], imported: Some(vec![4]) });
    match w.update(Message::Save) {
        Action::Export { path, text } => {
            assert_eq!(path, "out.csv");
            assert_eq!(String::from_utf8(text).unwrap(), "0.001,0.004\n0.002,\n0.003,\n");
        }
        _ => panic!("expected an export"),
    }
}

fn sample_text(v: i32) -> String {
    let mut out = Vec::new();
    push_sample(v, &mut out);
    String::from_utf8(out).unwrap()
}

#[test]
fn sample_text_exact() {
    assert_eq!(sample_text(1500), "1.500");
    assert_eq!(sample_text(-5), "-0.005");
    assert_eq!(sample_text(0), "0.000");
    assert_eq!(sample_text(i32::MIN), "-2147483.648");
    assert_eq!(sample_text(i32::MAX), "2147483.647");
}

#[test]
fn sample_text_round_trip() {
    for v in [0, 1, -1, 999, -1000, 123456, i32::MIN, i32::MAX] {
        assert_eq!(parse_sample(sample_text(v).as_bytes()), Some(v));
    }
}

#[test]
fn malformed_fields_are_rejected() {
    for f in ["", "-", "1.5", "1.5000", "a.000", "1,000", "--1.000", "2147483.648", "12345678.000", "1.00x"] {
        assert_eq!(parse_sample(f.as_bytes()), None, "{f}");
    }
    assert_eq!(parse_sample(b"-2147483.648"), Some(i32::MIN));
    assert_eq!(parse_sample(b"007.010"), Some(7010));
}

#[test]
fn export_text_pads_with_empty_fields() {
    let rows = export_rows(&vec![vec![1000, 2000, 3000, 4000, 5000], vec![-1, -2, -3]]);
    let text = String::from_utf8(format_table(&rows)).unwrap();
    assert_eq!(text, "1.000,-0.001\n2.000,-0.002\n3.000,-0.003\n4.000,\n5.000,\n");
    assert_eq!(format_table(&vec![]), Vec::<u8>::new());
}

#[test]
fn exported_text_reads_back() {
    let cols = vec![vec![1500, -5, 0, 7], vec![i32::MIN, i32::MAX]];
    let text = format_table(&export_rows(&cols));
    assert_eq!(read_columns(&text), Some(cols));
    let rows = export_rows(&vec![vec![3, 4], vec![5]]);
    assert_eq!(parse_table(&format_table(&rows), 2), Some(rows));
}

#[test]
fn malformed_text_is_rejected() {
    assert_eq!(parse_table(b"1.000,2.000\n", 3), None);
    assert_eq!(parse_table(b"1.000,2.000", 2), None);
    assert_eq!(parse_table(b"1.000,x\n", 2), None);
    assert_eq!(read_columns(b"1.0\n"), None);
    assert_eq!(read_columns(b""), Some(vec![]));
    assert_eq!(split_bytes(b"a,,b", b','), vec![b"a".to_vec(), vec![], b"b".to_vec()]);
}
