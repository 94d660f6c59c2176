use std::io::Cursor;
use std::io::Write;

use roadgraph::graph::Error;
use roadgraph::graph::Graph;

fn zip_of(entries: &[&str]) -> Vec<u8> {
    let mut writer = zip::ZipWriter::new(Cursor::new(Vec::new()));
    let options = zip::write::SimpleFileOptions::default();
    for (i, text) in entries.iter().enumerate() {
        writer.start_file(format!("part{}.txt", i), options).unwrap();
        writer.write_all(text.as_bytes()).unwrap();
    }
    writer.finish().unwrap().into_inner()
}

fn load(entries: &[&str]) -> Result<Graph, Error> {
    Graph::read_graph_from_bytes(&zip_of(entries))
}

#[test]
fn round_trip_counts() {
    let data = "# a tiny graph\n3\n2\n0 1.0 2.0\n1 1.5 2.5\n2 2.0 3.0\n0 1 100 50\n1 2 200 100\n";
    let g = load(&[data]).unwrap();
    assert_eq!(3, g.num_nodes());
    assert_eq!(2, g.num_arcs());
}

#[test]
fn entries_concatenate_in_order() {
    let g = load(&["2\n1\n", "0 0 0\n1 0 0\n0 1 10 50\n"]).unwrap();
    assert_eq!(2, g.num_nodes());
    assert_eq!(1, g.num_arcs());
}

#[test]
fn bad_header_is_a_parse_error() {
    match load(&["x\n"]) {
        Err(Error::ParseError { line, token }) => {
            assert_eq!(1, line);
            assert_eq!("x", token);
        }
        _ => panic!("expected a parse error"),
    }
}

#[test]
fn bad_node_record_is_a_format_error() {
    let data = "1\n0\n0 1.0\n";
    match load(&[data]) {
        Err(Error::FormatError { line, .. }) => {
            assert_eq!(3, line);
        }
        _ => panic!("expected a format error"),
    }
}

#[test]
fn extra_line_is_a_format_error() {
    let data = "1\n0\n0 1.0 2.0\n7 7 7\n";
    match load(&[data]) {
        Err(Error::FormatError { line, .. }) => {
            assert_eq!(4, line);
        }
        _ => panic!("expected a format error"),
    }
}

#[test]
fn arc_to_missing_node_is_a_format_error() {
    let data = "2\n1\n0 0 0\n1 0 0\n0 5 10 50\n";
    match load(&[data]) {
        Err(Error::FormatError { line, .. }) => {
            assert_eq!(5, line);
        }
        _ => panic!("expected a format error"),
    }
}

#[test]
fn not_an_archive_is_an_archive_error() {
    let bytes = vec![1u8, 2, 3, 4];
    match Graph::read_graph_from_bytes(&bytes) {
        Err(Error::ArchiveError) => {}
        _ => panic!("expected an archive error"),
    }
}

#[test]
fn shortest_path_scenario() {
    // nodes at (0,0), (0,0.01), (0,0.02); arcs 0->1 (1000 m, 100 km/h)
    // and 1->2 (2000 m, 50 km/h)
    let data = "3\n2\n0 0 0\n1 0 0.01\n2 0 0.02\n0 1 1000 100\n1 2 2000 50\n";
    let mut g = load(&[data]).unwrap();
    g.set_arc_costs_to_distance();
    g.reset();
    g.compute_shortest_paths(0).unwrap();
    let (dist, time_ms) = g.travel_to(2, u64::MAX).unwrap();
    assert_eq!(3000, dist);
    assert_eq!(180.0, time_ms as f64 / 1000.0);
}

#[test]
fn reconstruction_ignores_search_costs() {
    // search ran under the raw-distance model, yet the reported travel
    // time comes from the arcs' distances and speeds under the cap
    let data = "2\n1\n0 0 0\n1 0 0.01\n0 1 1000 200\n";
    let mut g = load(&[data]).unwrap();
    g.set_arc_costs_to_distance();
    g.reset();
    g.compute_shortest_paths(0).unwrap();
    let (dist, time_ms) = g.travel_to(1, 100).unwrap();
    assert_eq!(1000, dist);
    // 1000 m at min(200, 100) km/h: 36 seconds
    assert_eq!(36000, time_ms);
}

#[test]
fn unreachable_destination_reports_no_path() {
    let data = "3\n1\n0 0 0\n1 0 0\n2 0 0\n0 1 10 50\n";
    let mut g = load(&[data]).unwrap();
    g.reset();
    g.compute_shortest_paths(0).unwrap();
    match g.travel_to(2, u64::MAX) {
        Err(Error::NoPath) => {}
        _ => panic!("expected no path"),
    }
    match g.travel_to(9, u64::MAX) {
        Err(Error::OutOfRange) => {}
        _ => panic!("expected out of range"),
    }
    match g.compute_shortest_paths(17) {
        Err(Error::OutOfRange) => {}
        _ => panic!("expected out of range"),
    }
}

#[test]
fn self_loop_is_harmless() {
    let data = "2\n2\n0 0 0\n1 0 0\n0 0 5 50\n0 1 10 50\n";
    let mut g = load(&[data]).unwrap();
    g.reset();
    g.compute_shortest_paths(0).unwrap();
    let (d0, t0) = g.travel_to(0, u64::MAX).unwrap();
    assert_eq!(0, d0);
    assert_eq!(0, t0);
    let (d1, _) = g.travel_to(1, u64::MAX).unwrap();
    assert_eq!(10, d1);
}

#[test]
fn largest_component_of_two() {
    // component {0..4} chained, component {5..7} chained, no crossing arcs
    let data = "8\n7\n0 0 0\n1 0 0\n2 0 0\n3 0 0\n4 0 0\n5 0 0\n6 0 0\n7 0 0\n\
        0 1 1 50\n1 2 1 50\n2 3 1 50\n3 4 1 50\n5 6 1 50\n6 7 1 50\n7 5 1 50\n";
    let g = load(&[data]).unwrap();
    let (size, members) = g.compute_lcc();
    assert_eq!(5, size);
    assert_eq!(vec![0, 1, 2, 3, 4], members);
}

#[test]
fn repeated_runs_agree() {
    let data = "4\n4\n0 0 0\n1 0 0\n2 0 0\n3 0 0\n0 1 5 50\n0 2 3 50\n2 3 4 50\n1 3 9 50\n";
    let mut g = load(&[data]).unwrap();
    g.reset();
    g.compute_shortest_paths(0).unwrap();
    let first: Vec<_> = (0..4).map(|v| g.travel_to(v, 80)).collect();
    let far1 = g.get_furthest_node();
    g.reset();
    g.compute_shortest_paths(0).unwrap();
    let second: Vec<_> = (0..4).map(|v| g.travel_to(v, 80)).collect();
    let far2 = g.get_furthest_node();
    assert_eq!(first, second);
    assert_eq!(far1, far2);
}

#[test]
fn travel_time_with_cap() {
    // fastest route under a 130 km/h cap recomputes costs as milliseconds
    let data = "2\n1\n0 0 0\n1 0 0.01\n0 1 2600 200\n";
    let mut g = load(&[data]).unwrap();
    g.set_arc_costs_to_travel_time(130);
    g.reset();
    g.compute_shortest_paths(0).unwrap();
    let (dist, time_ms) = g.travel_to(1, 130).unwrap();
    assert_eq!(2600, dist);
    // 2600 m at 130 km/h: 72 seconds
    assert_eq!(72000, time_ms);
}

#[test]
fn polyline_of_path() {
    let data = "3\n2\n0 0 0\n1 0 0.01\n2 0 0.02\n0 1 1000 100\n1 2 2000 50\n";
    let mut g = load(&[data]).unwrap();
    g.reset();
    g.compute_shortest_paths(0).unwrap();
    let mut out = String::new();
    g.generate_mapbb(&mut out, 2);
    assert_eq!("0.0200,0.0000 0.0000,0.0000", out);
}

#[test]
fn polyline_rounds_to_four_decimals() {
    let data = "1\n0\n0 -12.34567 98.76549\n";
    let mut g = load(&[data]).unwrap();
    g.reset();
    g.compute_shortest_paths(0).unwrap();
    let mut out = String::new();
    g.generate_mapbb(&mut out, 0);
    assert_eq!("98.7655,-12.3457", out);
}

#[test]
fn furthest_node_breaks_ties_low() {
    // both ends sit at distance 10 from the source; node 1 wins the tie
    let data = "3\n2\n0 0 0\n1 0 0\n2 0 0\n0 1 10 50\n0 2 10 50\n";
    let mut g = load(&[data]).unwrap();
    g.reset();
    g.compute_shortest_paths(0).unwrap();
    assert_eq!((10, 1), g.get_furthest_node());
}
