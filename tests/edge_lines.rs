use bfs::edge_list::parse_edge_line;

#[test]
fn parses_plain_pair() {
    assert_eq!(parse_edge_line(b"0 1"), Some((0, 1)));
    assert_eq!(parse_edge_line(b"42 7"), Some((42, 7)));
}

#[test]
fn skips_surrounding_whitespace_and_extra_words() {
    assert_eq!(parse_edge_line(b"  12\t7 extra"), Some((12, 7)));
    assert_eq!(parse_edge_line(b"1 2\r"), Some((1, 2)));
    assert_eq!(parse_edge_line(b"\t5   6\n"), Some((5, 6)));
}

#[test]
fn accepts_leading_plus() {
    assert_eq!(parse_edge_line(b"+3 4"), Some((3, 4)));
    assert_eq!(parse_edge_line(b"+ 4"), None);
}

#[test]
fn rejects_short_or_malformed_lines() {
    assert_eq!(parse_edge_line(b""), None);
    assert_eq!(parse_edge_line(b"   "), None);
    assert_eq!(parse_edge_line(b"3"), None);
    assert_eq!(parse_edge_line(b"a 1"), None);
    assert_eq!(parse_edge_line(b"1 2x"), None);
    assert_eq!(parse_edge_line(b"-1 2"), None);
}

#[test]
fn largest_number_fits_and_one_more_does_not() {
    let max = format!("{} 0", usize::MAX);
    assert_eq!(parse_edge_line(max.as_bytes()), Some((usize::MAX, 0)));
    let over = format!("{}0 0", usize::MAX);
    assert_eq!(parse_edge_line(over.as_bytes()), None);
    let over_by_one = format!("0 {}", (usize::MAX as u128) + 1);
    assert_eq!(parse_edge_line(over_by_one.as_bytes()), None);
}

#[test]
fn agrees_with_std_on_sample_lines() {
    for line in ["7 8", "007 08", " 9\t10 11", "99999 1"] {
        let mut parts = line.split_whitespace();
        let a: usize = parts.next().unwrap().parse().unwrap();
        let b: usize = parts.next().unwrap().parse().unwrap();
        assert_eq!(parse_edge_line(line.as_bytes()), Some((a, b)));
    }
}
