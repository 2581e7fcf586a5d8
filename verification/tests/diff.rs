use mv_with::{Chunk, DiffRecord, FileList, RenameRequest};

fn pieces(record: &DiffRecord) -> Vec<(char, &str)> {
    record
        .chunks
        .iter()
        .map(|chunk| match chunk {
            Chunk::Equal(text) => ('=', text.as_str()),
            Chunk::Delete(text) => ('-', text.as_str()),
            Chunk::Insert(text) => ('+', text.as_str()),
        })
        .collect()
}

fn equal(text: &str) -> Chunk {
    Chunk::Equal(text.to_string())
}

fn delete(text: &str) -> Chunk {
    Chunk::Delete(text.to_string())
}

fn insert(text: &str) -> Chunk {
    Chunk::Insert(text.to_string())
}

#[test]
fn between_identical_paths_is_one_equal_piece_and_unchanged() {
    let record = DiffRecord::between("dir/file.txt", "dir/file.txt");
    assert_eq!(pieces(&record), vec![('=', "dir/file.txt")]);
    assert!(record.unchanged);
    assert_eq!(record.padding, 53);
}

#[test]
fn between_paths_with_nothing_in_common_deletes_one_and_inserts_the_other() {
    let record = DiffRecord::between("abc", "xyz");
    assert_eq!(pieces(&record), vec![('-', "abc"), ('+', "xyz")]);
    assert!(!record.unchanged);
    assert_eq!(record.padding, 59);
}

#[test]
fn between_keeps_what_the_paths_share() {
    let record = DiffRecord::between("src/old.rs", "src/new.rs");
    assert_eq!(pieces(&record), vec![('=', "src/"), ('-', "old"), ('+', "new"), ('=', ".rs")]);
    assert!(!record.unchanged);
    assert_eq!(record.padding, 65 - 13);
}

#[test]
fn between_covers_both_paths() {
    let pairs = [("a/b/c", "a/x/c"), ("photo.JPG", "photo.jpg"), ("x", "longer/x.txt")];
    for (origin, target) in pairs {
        let record = DiffRecord::between(origin, target);
        let old: String = pieces(&record).iter().filter(|p| p.0 != '+').map(|p| p.1).collect();
        let new: String = pieces(&record).iter().filter(|p| p.0 != '-').map(|p| p.1).collect();
        assert_eq!(old, origin);
        assert_eq!(new, target);
    }
}

#[test]
fn between_counts_grapheme_clusters_for_the_padding() {
    let record = DiffRecord::between("e\u{301}", "e\u{301}");
    assert_eq!(pieces(&record), vec![('=', "e\u{301}")]);
    assert_eq!(record.padding, 64);
    let record = DiffRecord::between("日本語", "日本語");
    assert_eq!(record.padding, 62);
}

#[test]
fn new_fills_up_to_the_remark_column() {
    let record = DiffRecord::new(vec![equal("abc"), insert("defg")], &vec![3, 4]);
    assert_eq!(record.padding, 58);
    assert_eq!(pieces(&record), vec![('=', "abc"), ('+', "defg")]);
    assert_eq!(DiffRecord::new(Vec::new(), &Vec::new()).padding, 65);
    assert_eq!(DiffRecord::new(vec![equal("a")], &vec![64]).padding, 1);
}

#[test]
fn new_pads_nothing_behind_a_long_line() {
    assert_eq!(DiffRecord::new(vec![equal("a")], &vec![65]).padding, 0);
    assert_eq!(DiffRecord::new(vec![equal("a"), equal("b")], &vec![40, 40]).padding, 0);
    assert_eq!(DiffRecord::new(vec![equal("a")], &vec![usize::MAX, usize::MAX]).padding, 0);
}

#[test]
fn new_marks_a_single_piece_that_stays_or_goes() {
    assert!(DiffRecord::new(vec![equal("a")], &vec![1]).unchanged);
    assert!(DiffRecord::new(vec![delete("a")], &vec![1]).unchanged);
    assert!(!DiffRecord::new(vec![insert("a")], &vec![1]).unchanged);
    assert!(!DiffRecord::new(vec![equal("a"), equal("b")], &vec![1, 1]).unchanged);
    assert!(!DiffRecord::new(vec![delete("a"), insert("b")], &vec![1, 1]).unchanged);
    assert!(!DiffRecord::new(Vec::new(), &Vec::new()).unchanged);
}

#[test]
fn chunk_text_is_the_text_of_the_piece() {
    assert_eq!(equal("a").text(), "a");
    assert_eq!(delete("bc").text(), "bc");
    assert_eq!(insert("").text(), "");
}

#[test]
fn diff_preview_has_a_record_for_every_pair() {
    let origin = FileList::parse_reader("keep\nold.txt\na/b").expect("three entries");
    let target = FileList::parse_reader("keep\nnew.txt\na/c").expect("three entries");
    let paired = RenameRequest::new(origin, target).expect("the lists pair");
    let records = paired.diff_preview();
    assert_eq!(records.len(), 3);
    assert_eq!(pieces(&records[0]), vec![('=', "keep")]);
    assert!(records[0].unchanged);
    assert_eq!(pieces(&records[1]), vec![('-', "old"), ('+', "new"), ('=', ".txt")]);
    assert!(!records[1].unchanged);
    assert_eq!(pieces(&records[2]), vec![('=', "a/"), ('-', "b"), ('+', "c")]);
    assert!(!records[2].unchanged);
    assert_eq!(paired.diff_preview().len(), 3);
}
