use mv_with::depth::{apply_order, order_by_depth};
use mv_with::text::{join_lines, scan_lines, slice_text, Span};

fn found(text: &str) -> Vec<(usize, usize)> {
    scan_lines(text.as_bytes()).iter().map(|span| (span.start, span.end)).collect()
}

#[test]
fn scan_lines_finds_the_non_empty_lines() {
    assert_eq!(found(""), vec![]);
    assert_eq!(found("\n"), vec![]);
    assert_eq!(found("a"), vec![(0, 1)]);
    assert_eq!(found("a\n"), vec![(0, 1)]);
    assert_eq!(found("\na"), vec![(1, 2)]);
    assert_eq!(found("ab\n\ncd"), vec![(0, 2), (4, 6)]);
}

#[test]
fn scan_lines_drops_one_carriage_return_before_a_line_feed() {
    assert_eq!(found("a\r\n"), vec![(0, 1)]);
    assert_eq!(found("a\r\r\n"), vec![(0, 2)]);
    assert_eq!(found("\r\n"), vec![]);
    assert_eq!(found("a\r"), vec![(0, 2)]);
    assert_eq!(found("\r"), vec![(0, 1)]);
    assert_eq!(found("\r\nb"), vec![(2, 3)]);
}

#[test]
fn slice_text_cuts_at_the_offsets() {
    assert_eq!(slice_text("héllo wörld", Span { start: 0, end: 6 }), "héllo");
    assert_eq!(slice_text("héllo wörld", Span { start: 7, end: 13 }), "wörld");
    assert_eq!(slice_text("abc", Span { start: 1, end: 1 }), "");
    assert_eq!(slice_text("abc", Span { start: 0, end: 3 }), "abc");
}

#[test]
fn join_lines_puts_a_line_feed_between_the_lines() {
    let lines: Vec<String> = ["a", "", "b"].iter().map(|s| s.to_string()).collect();
    assert_eq!(join_lines(&lines), "a\n\nb");
    assert_eq!(join_lines(&Vec::new()), "");
    assert_eq!(join_lines(&vec!["one".to_string()]), "one");
}

#[test]
fn order_by_depth_lists_deeper_indices_first() {
    assert_eq!(order_by_depth(&vec![1, 3, 2, 3]), vec![1, 3, 2, 0]);
    assert_eq!(order_by_depth(&Vec::new()), Vec::<usize>::new());
    assert_eq!(order_by_depth(&vec![5]), vec![0]);
    assert_eq!(order_by_depth(&vec![0, usize::MAX]), vec![1, 0]);
}

#[test]
fn order_by_depth_of_sorted_depths_moves_nothing() {
    assert_eq!(order_by_depth(&vec![9, 7, 7, 4, 4, 4, 0]), vec![0, 1, 2, 3, 4, 5, 6]);
}

#[test]
fn apply_order_rearranges() {
    assert_eq!(apply_order(&vec!['a', 'b', 'c'], &vec![2, 0, 1]), vec!['c', 'a', 'b']);
    assert_eq!(apply_order(&vec![1, 2, 3], &Vec::new()), Vec::<i32>::new());
}
