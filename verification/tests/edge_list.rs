use graph_metrics::edge_list::parse_edge_line;

fn by_std(line: &str) -> Option<(usize, usize)> {
    let parts: Vec<usize> = line
        .split_whitespace()
        .filter_map(|s| s.parse().ok())
        .collect();
    if parts.len() >= 2 {
        Some((parts[0], parts[1]))
    } else {
        None
    }
}

#[test]
fn two_numbers_make_an_edge() {
    assert_eq!(parse_edge_line(b"1 2"), Some((1, 2)));
    assert_eq!(parse_edge_line(b"0 4038"), Some((0, 4038)));
    assert_eq!(parse_edge_line(b"  12\t34  "), Some((12, 34)));
    assert_eq!(parse_edge_line(b"7 7"), Some((7, 7)));
}

#[test]
fn the_first_two_numbers_are_taken() {
    assert_eq!(parse_edge_line(b"1 2 3"), Some((1, 2)));
    assert_eq!(parse_edge_line(b"a 5 b 7 c 9"), Some((5, 7)));
    assert_eq!(parse_edge_line(b"-1 2 3"), Some((2, 3)));
    assert_eq!(parse_edge_line(b"1.5 2 3"), Some((2, 3)));
    assert_eq!(parse_edge_line(b"12a 3 4"), Some((3, 4)));
}

#[test]
fn lines_with_fewer_than_two_numbers_are_skipped() {
    assert_eq!(parse_edge_line(b""), None);
    assert_eq!(parse_edge_line(b"   "), None);
    assert_eq!(parse_edge_line(b"5"), None);
    assert_eq!(parse_edge_line(b"5 x"), None);
    assert_eq!(parse_edge_line(b"# a comment"), None);
    assert_eq!(parse_edge_line(b"+ 1"), None);
    assert_eq!(parse_edge_line(b"1,2"), None);
}

#[test]
fn numbers_may_have_a_plus_sign_and_zeros_in_front() {
    assert_eq!(parse_edge_line(b"+5 6"), Some((5, 6)));
    assert_eq!(parse_edge_line(b"007 +008"), Some((7, 8)));
    assert_eq!(parse_edge_line(b"++5 6 7"), Some((6, 7)));
    assert_eq!(parse_edge_line(b"5+ 6 7"), Some((6, 7)));
    assert_eq!(parse_edge_line(b"000000000000000000000000000001 2"), Some((1, 2)));
}

#[test]
fn numbers_beyond_the_machine_word_are_no_numbers() {
    let most = format!("{} 0", usize::MAX);
    assert_eq!(parse_edge_line(most.as_bytes()), Some((usize::MAX, 0)));
    let more = format!("{}0 1 2", usize::MAX);
    assert_eq!(parse_edge_line(more.as_bytes()), Some((1, 2)));
    let next = format!("{} 1 2", usize::MAX as u128 + 1);
    assert_eq!(parse_edge_line(next.as_bytes()), Some((1, 2)));
    assert_eq!(parse_edge_line(b"99999999999999999999999999999999999 1 2"), Some((1, 2)));
}

#[test]
fn whitespace_beyond_ascii_splits_too() {
    assert_eq!(parse_edge_line("1\u{a0}2".as_bytes()), Some((1, 2)));
    assert_eq!(parse_edge_line("1\u{85}2".as_bytes()), Some((1, 2)));
    assert_eq!(parse_edge_line("1\u{1680}2".as_bytes()), Some((1, 2)));
    assert_eq!(parse_edge_line("1\u{2003}2".as_bytes()), Some((1, 2)));
    assert_eq!(parse_edge_line("1\u{2028}2\u{2029}3".as_bytes()), Some((1, 2)));
    assert_eq!(parse_edge_line("1\u{202f}2".as_bytes()), Some((1, 2)));
    assert_eq!(parse_edge_line("1\u{205f}2".as_bytes()), Some((1, 2)));
    assert_eq!(parse_edge_line("\u{3000}1\u{3000}2\u{3000}".as_bytes()), Some((1, 2)));
    assert_eq!(parse_edge_line(b"1\x0b2\x0c3"), Some((1, 2)));
    // U+200B is no whitespace: the token is no number.
    assert_eq!(parse_edge_line("1\u{200b}2 3 4".as_bytes()), Some((3, 4)));
}

#[test]
fn agrees_with_the_standard_library() {
    let lines = [
        "1 2",
        "",
        " ",
        "3",
        "10\t20\r",
        "x 1 y 2",
        "+1 -2 3",
        "1e3 4 5",
        "0x10 7 8",
        "１ 2 3",
        "1\u{a0}2",
        "1\u{2000}2\u{200a}3",
        "1\u{200b}2 3 4",
        "é 5 ü 6",
        "18446744073709551615 18446744073709551616 3",
        "4294967295 4294967296",
        "  42   ",
        "1 2 3 4 5",
        "+ + 1 2",
        "٣ 4 5",
    ];
    for line in lines {
        assert_eq!(parse_edge_line(line.as_bytes()), by_std(line), "line {:?}", line);
    }
}
