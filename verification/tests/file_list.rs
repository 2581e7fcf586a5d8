use mv_with::{FLParseError, FileList, Span};

fn list(text: &str) -> FileList {
    FileList::parse_reader(text).expect("the text names a file")
}

fn spans(list: &FileList) -> Vec<(usize, usize)> {
    (0..list.len())
        .map(|i| {
            let range = list.substring_range(i);
            (range.start, range.end)
        })
        .collect()
}

#[test]
fn parse_keeps_every_non_empty_line_in_order() {
    let files = list("a\nb/c\nd");
    assert_eq!(files.len(), 3);
    assert_eq!(files.entries(), vec!["a", "b/c", "d"]);
    assert_eq!(spans(&files), vec![(0, 1), (2, 5), (6, 7)]);
}

#[test]
fn parse_skips_empty_lines() {
    let files = list("\n\na\n\n\nb\n");
    assert_eq!(files.as_text(), "\n\na\n\n\nb");
    assert_eq!(files.entries(), vec!["a", "b"]);
    assert_eq!(spans(&files), vec![(2, 3), (6, 7)]);
}

#[test]
fn parse_drops_trailing_whitespace_of_the_text() {
    let files = list("a\nb  \n \t\n\u{a0}\n");
    assert_eq!(files.as_text(), "a\nb");
    assert_eq!(files.entries(), vec!["a", "b"]);
}

#[test]
fn parse_keeps_a_line_of_blanks_between_entries() {
    let files = list("a\n  \nb");
    assert_eq!(files.entries(), vec!["a", "  ", "b"]);
}

#[test]
fn parse_has_an_entry_for_every_non_empty_line_of_a_text_that_ends_in_line_feeds() {
    for (text, lines) in [("a\nb\n", 2), ("a\n\nb\r\n\n\n", 2), ("x", 1), ("\n\nx\ny\nz\n", 3)] {
        let in_text = text.split('\n').filter(|line| !line.trim_end_matches('\r').is_empty());
        assert_eq!(in_text.count(), lines);
        assert_eq!(list(text).len(), lines);
    }
}

#[test]
fn parse_makes_no_entry_of_a_line_of_blanks_at_the_end() {
    let files = list("a\n \n");
    assert_eq!(files.entries(), vec!["a"]);
    let files = list("a\nb\n\t\n  \n");
    assert_eq!(files.entries(), vec!["a", "b"]);
}

#[test]
fn parse_takes_a_carriage_return_before_a_line_feed_as_part_of_the_line_end() {
    let files = list("a\r\nb\r\n\r\nc");
    assert_eq!(files.entries(), vec!["a", "b", "c"]);
    assert_eq!(spans(&files), vec![(0, 1), (3, 4), (8, 9)]);
}

#[test]
fn parse_keeps_a_carriage_return_inside_a_line() {
    let files = list("a\rb\r\r\nc");
    assert_eq!(files.entries(), vec!["a\rb\r", "c"]);
}

#[test]
fn parse_counts_bytes_not_characters() {
    let files = list("é\n日本語/x\nz");
    assert_eq!(files.entries(), vec!["é", "日本語/x", "z"]);
    assert_eq!(spans(&files), vec![(0, 2), (3, 14), (15, 16)]);
}

#[test]
fn parse_of_no_text_is_empty_stdin() {
    let (buffer, error) = FileList::parse_reader("").unwrap_err();
    assert_eq!(buffer, "");
    assert!(matches!(error, FLParseError::EmptyStdIn));
}

#[test]
fn parse_of_blank_lines_is_empty_stdin() {
    for text in ["\n", "\n\n\n", "  \n\t\n", "\r\n\r\n", " \u{2003}\u{3000}\n"] {
        let (buffer, error) = FileList::parse_reader(text).unwrap_err();
        assert_eq!(buffer, "");
        assert!(matches!(error, FLParseError::EmptyStdIn));
    }
}

#[test]
fn parse_walker_joins_the_names() {
    let names = vec!["./a".to_string(), "./a/b".to_string(), "./c".to_string()];
    let files = FileList::parse_walker(&names).expect("three names");
    assert_eq!(files.as_text(), "./a\n./a/b\n./c");
    assert_eq!(files.entries(), vec!["./a", "./a/b", "./c"]);
}

#[test]
fn parse_walker_of_no_names_is_empty_directory() {
    let (buffer, error) = FileList::parse_walker(&Vec::new()).unwrap_err();
    assert_eq!(buffer, "");
    assert!(matches!(error, FLParseError::EmptyDirectory));
    let (_, error) = FileList::parse_walker(&vec![String::new(), " ".to_string()]).unwrap_err();
    assert!(matches!(error, FLParseError::EmptyDirectory));
}

#[test]
fn text_of_a_list_parses_to_the_same_text() {
    for text in ["a", "a\nb\n", "\n\nx/y\r\nz \n\n", "é\n\n日本語"] {
        let first = list(text);
        let second = list(first.as_text());
        assert_eq!(second.as_text(), first.as_text());
        assert_eq!(second.entries(), first.entries());
        assert_eq!(spans(&second), spans(&first));
    }
}

#[test]
fn as_string_writes_one_entry_on_each_line() {
    assert_eq!(list("a\n\nb/c\r\nd\n").as_string(), "a\nb/c\nd");
    assert_eq!(list("only").as_string(), "only");
}

#[test]
fn entry_is_the_slice_of_the_text() {
    let files = list("ab\ncd/ef\n");
    for i in 0..files.len() {
        let range = files.substring_range(i);
        assert_eq!(&files.as_text()[range], files.entry(i));
    }
    assert_eq!(files.entry(1), "cd/ef");
}

#[test]
fn substring_range_tells_equal_paths_apart() {
    let files = list("same\nsame\nsame");
    assert_eq!(spans(&files), vec![(0, 4), (5, 9), (10, 14)]);
}

#[test]
fn confirm_files_exist_hands_the_list_back_when_all_are_there() {
    let files = list("a\nb").confirm_files_exist(&vec![true, true]).expect("all there");
    assert_eq!(files.entries(), vec!["a", "b"]);
}

#[test]
fn confirm_files_exist_labels_every_missing_file() {
    let (buffer, error) =
        list("a\nbb\nccc\ndddd").confirm_files_exist(&vec![false, true, false, false]).unwrap_err();
    assert_eq!(buffer, "a\nbb\nccc\ndddd");
    match error {
        FLParseError::FileDoesNotExist(labels) => {
            let found: Vec<(Span, &str)> =
                labels.iter().map(|label| (label.span, label.message.as_str())).collect();
            assert_eq!(
                found,
                vec![
                    (Span { start: 0, end: 1 }, "File does not exist"),
                    (Span { start: 5, end: 8 }, "File does not exist"),
                    (Span { start: 9, end: 13 }, "File does not exist"),
                ]
            );
        }
        other => panic!("unexpected {:?}", other),
    }
}

#[test]
fn confirm_files_exist_takes_a_missing_answer_for_no() {
    let (_, error) = list("a\nb\nc").confirm_files_exist(&vec![true]).unwrap_err();
    match error {
        FLParseError::FileDoesNotExist(labels) => {
            let found: Vec<Span> = labels.iter().map(|label| label.span).collect();
            assert_eq!(found, vec![Span { start: 2, end: 3 }, Span { start: 4, end: 5 }]);
        }
        other => panic!("unexpected {:?}", other),
    }
}

#[test]
fn sort_by_depths_puts_deeper_entries_first() {
    let mut files = list("a\nb\nc\nd");
    files.sort_by_depths(&vec![1, 3, 2, 3]);
    assert_eq!(files.entries(), vec!["b", "d", "c", "a"]);
    assert_eq!(files.as_text(), "a\nb\nc\nd");
    assert_eq!(spans(&files), vec![(2, 3), (6, 7), (4, 5), (0, 1)]);
}

#[test]
fn sort_by_depths_keeps_the_order_of_equal_depths() {
    let mut files = list("a\nb\nc\nd\ne");
    files.sort_by_depths(&vec![2, 2, 2, 2, 2]);
    assert_eq!(files.entries(), vec!["a", "b", "c", "d", "e"]);
}

#[test]
fn sort_by_depths_twice_is_sorting_once() {
    let mut files = list("a\nb\nc\nd\ne\nf");
    let depths = vec![4, 1, 4, 2, 9, 1];
    files.sort_by_depths(&depths);
    let once: Vec<String> = files.entries().iter().map(|s| s.to_string()).collect();
    assert_eq!(once, vec!["e", "a", "c", "d", "b", "f"]);
    files.sort_by_depths(&vec![9, 4, 4, 2, 1, 1]);
    assert_eq!(files.entries(), once);
}

fn canonical(paths: &[&str]) -> Vec<Option<String>> {
    paths.iter().map(|s| Some(s.to_string())).collect()
}

#[test]
fn sort_by_file_depth_counts_the_components_of_the_canonical_paths() {
    let mut files = list("a\na/b\na/b/c\nd");
    let paths = canonical(&["/w/a", "/w/a/b", "/w/a/b/c", "/w/d"]);
    assert_eq!(files.depths(&paths).expect("all have a path"), vec![3, 4, 5, 3]);
    files.sort_by_file_depth(&paths).expect("all have a path");
    assert_eq!(files.entries(), vec!["a/b/c", "a/b", "a", "d"]);
}

#[test]
fn sort_by_file_depth_looks_at_components_not_at_length() {
    let mut files = list("x\ny");
    let paths = canonical(&["/a-very-long-name", "/a//b/./c/"]);
    assert_eq!(files.depths(&paths).expect("all have a path"), vec![2, 4]);
    files.sort_by_file_depth(&paths).expect("all have a path");
    assert_eq!(files.entries(), vec!["y", "x"]);
}

#[test]
fn sort_by_file_depth_twice_is_sorting_once() {
    let mut files = list("a\nb/c\nd\ne/f/g");
    files.sort_by_file_depth(&canonical(&["/a", "/b/c", "/d", "/e/f/g"])).expect("paths");
    assert_eq!(files.entries(), vec!["e/f/g", "b/c", "a", "d"]);
    files.sort_by_file_depth(&canonical(&["/e/f/g", "/b/c", "/a", "/d"])).expect("paths");
    assert_eq!(files.entries(), vec!["e/f/g", "b/c", "a", "d"]);
}

#[test]
fn sort_by_file_depth_names_the_first_file_that_went_away() {
    let mut files = list("a\nbb\nccc");
    let paths = vec![Some("/w/a".to_string()), None, None];
    let error = files.sort_by_file_depth(&paths).unwrap_err();
    assert_eq!(error.0.span, Span { start: 2, end: 4 });
    assert_eq!(error.0.message, "File does not exist");
    assert_eq!(files.entries(), vec!["a", "bb", "ccc"]);
}

#[test]
fn sort_by_file_depth_takes_a_missing_path_for_a_file_that_went_away() {
    let mut files = list("a\nbb\nccc");
    let error = files.sort_by_file_depth(&canonical(&["/w/a/b", "/w"])).unwrap_err();
    assert_eq!(error.0.span, Span { start: 5, end: 8 });
    assert_eq!(files.entries(), vec!["a", "bb", "ccc"]);
    let error = files.depths(&Vec::new()).unwrap_err();
    assert_eq!(error.0.span, Span { start: 0, end: 1 });
}

#[test]
fn sort_by_file_depth_looks_at_no_more_paths_than_entries() {
    let mut files = list("a\nb");
    files.sort_by_file_depth(&canonical(&["/a", "/b/c", "/d/e/f"])).expect("enough paths");
    assert_eq!(files.entries(), vec!["b", "a"]);
}

#[test]
fn parse_drops_just_the_characters_that_are_whitespace() {
    let whitespace = |c: char| {
        matches!(
            c as u32,
            0x09..=0x0D
                | 0x20
                | 0x85
                | 0xA0
                | 0x1680
                | 0x2000..=0x200A
                | 0x2028
                | 0x2029
                | 0x202F
                | 0x205F
                | 0x3000
        )
    };
    let mut text = String::new();
    for code in 0..=0x10FFFFu32 {
        if let Some(c) = char::from_u32(code) {
            text.clear();
            text.push('a');
            text.push(c);
            let expected = if whitespace(c) { "a" } else { text.as_str() };
            assert_eq!(list(&text).as_text(), expected, "U+{:04X}", code);
        }
    }
}

#[test]
fn as_string_follows_the_order_of_the_list() {
    let mut files = list("a\na/b");
    files.sort_by_depths(&vec![1, 2]);
    assert_eq!(files.as_string(), "a/b\na");
    assert_eq!(files.as_text(), "a\na/b");
}

#[test]
fn into_text_gives_the_text() {
    assert_eq!(list("a\nb\n\n").into_text(), "a\nb");
}
