use louvain::edge::Edge;
use louvain::read::{parse_line, pair_edges, read_slice, split_line, split_positions, to_sorted_edges};

fn key(from: u32, to: u32) -> u64 {
    ((from as u64) << 32) | to as u64
}

#[test]
fn edge_round_trip() {
    for &(a, b) in &[(0u32, 0u32), (1, 2), (2, 1), (u32::MAX, 0), (0, u32::MAX), (u32::MAX, u32::MAX), (123456, 654321)] {
        let packed = Edge(a, b).to_int();
        assert_eq!(packed, key(a, b));
        let back = Edge::from_int(packed);
        assert_eq!((back.0, back.1), (a, b));
    }
}

#[test]
fn edge_key_orders_by_source_then_target() {
    assert!(Edge(1, 9).to_int() < Edge(2, 0).to_int());
    assert!(Edge(2, 0).to_int() < Edge(2, 1).to_int());
}

#[test]
fn split_line_fields() {
    assert_eq!(split_line(b"1 2"), Some((&b"1"[..], &b"2"[..])));
    assert_eq!(split_line(b"1\t2\r"), Some((&b"1"[..], &b"2"[..])));
    assert_eq!(split_line(b"10  20"), Some((&b"10"[..], &b" 20"[..])));
    assert_eq!(split_line(b"12"), None);
    assert_eq!(split_line(b""), None);
    assert_eq!(split_line(b"\r"), None);
}

#[test]
fn pair_edges_both_orientations() {
    assert_eq!(pair_edges(1, 2), (key(2, 1), key(1, 2)));
    assert_eq!(pair_edges(7, 7), (key(7, 7), key(7, 7)));
}

#[test]
fn read_slice_parses_lines() {
    let r = read_slice(b"1 2\n3 4\n");
    assert_eq!(r, vec![key(2, 1), key(1, 2), key(4, 3), key(3, 4)]);
}

#[test]
fn read_slice_tolerates_carriage_returns_and_missing_final_newline() {
    let r = read_slice(b"1 2\r\n5 6");
    assert_eq!(r, vec![key(2, 1), key(1, 2), key(6, 5), key(5, 6)]);
}

#[test]
fn read_slice_skips_malformed_lines() {
    let r = read_slice(b"# comment\n\na b\n1\n4294967296 1\n4294967295 0\n");
    assert_eq!(r, vec![key(0, u32::MAX), key(u32::MAX, 0)]);
}

#[test]
fn read_slice_empty() {
    assert!(read_slice(b"").is_empty());
}

#[test]
fn split_positions_at_line_starts() {
    let text = b"1 2\n3 4\n5 6\n";
    assert_eq!(split_positions(text, 3), vec![0, 7, 11, 12]);
    assert_eq!(split_positions(text, 1), vec![0, 12]);
    assert_eq!(split_positions(b"", 4), vec![0, 0, 0, 0, 0]);
}

#[test]
fn sorted_edges_of_text() {
    let r = to_sorted_edges(b"3 1\n1 2\n", 2);
    assert_eq!(r, vec![key(1, 2), key(1, 3), key(2, 1), key(3, 1)]);
}

#[test]
fn loading_does_not_depend_on_worker_count() {
    let text = b"1 2\n2 3\n1 3\n4 5\n5 6\n4 6\n3 4\n1 2\n9 9\n";
    let one = to_sorted_edges(text, 1);
    for n in 2..9 {
        assert_eq!(to_sorted_edges(text, n), one);
    }
    assert_eq!(to_sorted_edges(text, 3), to_sorted_edges(text, 3));
    assert_eq!(one.len(), 18);
}

#[test]
fn loading_empty_text() {
    assert!(to_sorted_edges(b"", 4).is_empty());
}

#[test]
fn parse_line_pairs() {
    assert_eq!(parse_line(b"1 2"), Some((1, 2)));
    assert_eq!(parse_line(b"0007 4294967295\r"), Some((7, u32::MAX)));
    assert_eq!(parse_line(b"foo bar"), None);
    assert_eq!(parse_line(b"1 -2"), None);
    assert_eq!(parse_line(b"+1 2"), None);
    assert_eq!(parse_line(b"1 4294967296"), None);
    assert_eq!(parse_line(b"12"), None);
}
