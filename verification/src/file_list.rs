//! A list of files: one text, and the byte ranges of the lines that name them.

use crate::depth::{
    apply_order, depth_order, lemma_depth_order_exists, lemma_depth_order_idempotent,
    lemma_order_is_one_to_one, order_by_depth, permuted,
};
use crate::diagnostic::{label_views, Label, LabelView};
use crate::errors::{FLParseError, FileVanished};
use crate::paths::{component_count, count_components};
use crate::text::{
    is_line, is_whitespace, join_lines, joined, lemma_line_boundaries, lemma_lines_from,
    lemma_lines_of_trimmed_text, lemma_next_newline, lemma_trim_end,
    lemma_trimmed_text_has_a_line, lines_behind, non_empty_lines, scan_lines, slice_text,
    span_text, string_views, trim_end, trim_trailing, Span,
};
use core::ops::Range;
use vstd::prelude::*;
use vstd::utf8::{encode_utf8, group_utf8_lib};

verus! {

/// The text that a list keeps of `source`: `source` without its trailing
/// whitespace.
pub open spec fn parsed_text(source: Seq<char>) -> Seq<char> {
    trim_end(source)
}

/// The entries that a list makes of `source`: the non-empty lines of the text
/// it keeps, in the order of the text.
pub open spec fn parsed_spans(source: Seq<char>) -> Seq<Span> {
    non_empty_lines(encode_utf8(parsed_text(source)))
}

/// Entry `i` was not found: the answer for it is missing, or is no.
pub open spec fn is_missing(exists: Seq<bool>, i: int) -> bool {
    i >= exists.len() || !exists[i]
}

/// One label for each of the first `upto` entries that was not found, in the
/// order of the list.
pub open spec fn missing_labels(spans: Seq<Span>, exists: Seq<bool>, upto: int) -> Seq<LabelView>
    decreases upto,
{
    if upto <= 0 {
        Seq::empty()
    } else {
        let before = missing_labels(spans, exists, upto - 1);
        if is_missing(exists, upto - 1) {
            before.push(LabelView { span: spans[upto - 1], message: "File does not exist"@ })
        } else {
            before
        }
    }
}

/// The depth of each path: the number of its components.
pub open spec fn depths_of(paths: Seq<Seq<char>>) -> Seq<usize> {
    Seq::new(paths.len(), |i: int| component_count(paths[i]))
}

/// There is a canonical path for entry `i`.
pub open spec fn has_canonical(canonical: Seq<Option<String>>, i: int) -> bool {
    0 <= i < canonical.len() && canonical[i] is Some
}

/// Entry `i` is the first of `n` entries for which there is no canonical
/// path.
pub open spec fn is_first_without_canonical(
    canonical: Seq<Option<String>>,
    n: nat,
    i: int,
) -> bool {
    &&& 0 <= i < n
    &&& !has_canonical(canonical, i)
    &&& forall|k: int| 0 <= k < i ==> has_canonical(canonical, k)
}

/// The canonical paths of the first `n` entries.
pub open spec fn canonical_paths(canonical: Seq<Option<String>>, n: nat) -> Seq<Seq<char>> {
    Seq::new(n, |i: int| canonical[i]->0@)
}

/// The label of a file that went away, on the entry at `span`.
pub open spec fn vanished_label(span: Span) -> LabelView {
    LabelView { span, message: "File does not exist"@ }
}

/// A text and the byte ranges of its non-empty lines, in some order. Each
/// range is one entry: the path of a file.
#[derive(Debug)]
pub struct FileList {
    buffer: String,
    entries: Vec<Span>,
}

impl FileList {
    /// The text of the list.
    pub closed spec fn text(&self) -> Seq<char> {
        self.buffer@
    }

    /// The text of the list as bytes. Offsets count these.
    pub open spec fn bytes(&self) -> Seq<u8> {
        encode_utf8(self.text())
    }

    /// The byte ranges of the entries, in the order of the list.
    pub closed spec fn spans(&self) -> Seq<Span> {
        self.entries@
    }

    /// The number of entries.
    pub open spec fn count(&self) -> nat {
        self.spans().len()
    }

    /// The path that entry `i` names.
    pub open spec fn path(&self, i: int) -> Seq<char> {
        span_text(self.bytes(), self.spans()[i])
    }

    /// The paths of all entries, in the order of the list.
    pub open spec fn paths(&self) -> Seq<Seq<char>> {
        Seq::new(self.count(), |i: int| self.path(i))
    }

    /// The entries stand in the order of their lines.
    pub open spec fn in_line_order(&self) -> bool {
        self.spans() == non_empty_lines(self.bytes())
    }

    /// What holds of every list: the text has no trailing whitespace; there
    /// is an entry; there are as many entries as non-empty lines; every entry
    /// is such a line, and no line is entered twice.
    pub open spec fn wf(&self) -> bool {
        &&& trim_end(self.text()) == self.text()
        &&& self.bytes().len() <= usize::MAX
        &&& self.count() > 0
        &&& self.count() == non_empty_lines(self.bytes()).len()
        &&& forall|i: int|
            0 <= i < self.count() ==> is_line(self.bytes(), #[trigger] self.spans()[i])
        &&& forall|i: int, j: int|
            0 <= i < j < self.count() ==> (#[trigger] self.spans()[i]).start != (
            #[trigger] self.spans()[j]).start
    }

    /// Makes a list of `text`, or hands back what is left of `text` where it
    /// names no file.
    fn parse_text(text: &str) -> (parsed: Result<FileList, String>)
        ensures
            match parsed {
                Ok(list) => {
                    &&& list.wf()
                    &&& list.in_line_order()
                    &&& list.text() == parsed_text(text@)
                    &&& list.spans() == parsed_spans(text@)
                    &&& parsed_spans(text@).len() > 0
                },
                Err(buffer) => buffer@ == parsed_text(text@) && parsed_spans(text@).len() == 0,
            },
            parsed is Err <==> parsed_text(text@).len() == 0,
    {
        let buffer = String::from_str(trim_trailing(text));
        let bytes = buffer.as_str().as_bytes();
        let entries = scan_lines(bytes);
        proof {
            lemma_trim_end(text@);
            if parsed_text(text@).len() > 0 {
                lemma_trimmed_text_has_a_line(parsed_text(text@));
            } else {
                assert(encode_utf8(parsed_text(text@)) =~= Seq::<u8>::empty());
            }
        }
        if entries.len() == 0 {
            Err(buffer)
        } else {
            proof {
                broadcast use vstd::slice::group_slice_axioms;

                assert(vstd::slice::spec_slice_len(bytes) == bytes@.len());
                lemma_lines_from(bytes@, 0);
            }
            Ok(FileList { buffer, entries })
        }
    }

    /// Makes a list of the text that was read: its non-empty lines, in their
    /// order, after the trailing whitespace of the text is dropped. A text
    /// that then names no file gives `EmptyStdIn`, together with what is left
    /// of the text.
    pub fn parse_reader(text: &str) -> (parsed: Result<FileList, (String, FLParseError)>)
        ensures
            match parsed {
                Ok(list) => {
                    &&& list.wf()
                    &&& list.in_line_order()
                    &&& list.text() == parsed_text(text@)
                    &&& list.spans() == parsed_spans(text@)
                    &&& parsed_spans(text@).len() > 0
                },
                Err((buffer, error)) => {
                    &&& buffer@ == parsed_text(text@)
                    &&& error is EmptyStdIn
                    &&& parsed_spans(text@).len() == 0
                },
            },
            parsed is Err <==> parsed_text(text@).len() == 0,
    {
        match FileList::parse_text(text) {
            Ok(list) => Ok(list),
            Err(buffer) => Err((buffer, FLParseError::EmptyStdIn)),
        }
    }

    /// Makes a list of the names that a walk of a directory gave, one line
    /// for each name. Names that make no entry give `EmptyDirectory`.
    pub fn parse_walker(names: &Vec<String>) -> (parsed: Result<FileList, (String, FLParseError)>)
        ensures
            match parsed {
                Ok(list) => {
                    &&& list.wf()
                    &&& list.in_line_order()
                    &&& list.text() == parsed_text(joined(string_views(names@)))
                    &&& list.spans() == parsed_spans(joined(string_views(names@)))
                    &&& parsed_spans(joined(string_views(names@))).len() > 0
                },
                Err((buffer, error)) => {
                    &&& buffer@ == parsed_text(joined(string_views(names@)))
                    &&& error is EmptyDirectory
                    &&& parsed_spans(joined(string_views(names@))).len() == 0
                },
            },
            parsed is Err <==> parsed_text(joined(string_views(names@))).len() == 0,
    {
        let text = join_lines(names);
        match FileList::parse_text(text.as_str()) {
            Ok(list) => Ok(list),
            Err(buffer) => Err((buffer, FLParseError::EmptyDirectory)),
        }
    }

    /// The text of the list, byte for byte.
    pub fn as_text(&self) -> (text: &str)
        ensures
            text@ == self.text(),
    {
        self.buffer.as_str()
    }

    /// The number of entries.
    pub fn len(&self) -> (count: usize)
        ensures
            count == self.count(),
    {
        self.entries.len()
    }

    /// The byte range of entry `entry` in the text of the list.
    pub fn substring_range(&self, entry: usize) -> (range: Range<usize>)
        requires
            entry < self.count(),
        ensures
            range.start == self.spans()[entry as int].start,
            range.end == self.spans()[entry as int].end,
    {
        let span = self.entries[entry];
        span.start..span.end
    }

    /// The path that entry `entry` names.
    pub fn entry(&self, entry: usize) -> (path: &str)
        requires
            self.wf(),
            entry < self.count(),
        ensures
            path@ == self.path(entry as int),
    {
        proof {
            broadcast use group_utf8_lib;

            lemma_line_boundaries(self.bytes(), self.spans()[entry as int]);
        }
        slice_text(self.buffer.as_str(), self.entries[entry])
    }

    /// The paths of all entries, in the order of the list.
    pub fn entries(&self) -> (paths: Vec<&str>)
        requires
            self.wf(),
        ensures
            paths@.len() == self.count(),
            forall|i: int| 0 <= i < self.count() ==> (#[trigger] paths@[i])@ == self.path(i),
    {
        let mut paths: Vec<&str> = Vec::new();
        let mut i: usize = 0;
        while i < self.entries.len()
            invariant
                self.wf(),
                i <= self.count(),
                paths@.len() == i,
                forall|k: int| 0 <= k < i ==> (#[trigger] paths@[k])@ == self.path(k),
            decreases self.count() - i,
        {
            paths.push(self.entry(i));
            i = i + 1;
        }
        paths
    }

    /// Holds the list against what a look at the file system found:
    /// `exists[i]` says whether the file of entry `i` is there. The list comes
    /// back where every file is; otherwise its text comes back, with a label
    /// on every entry whose file is not.
    pub fn confirm_files_exist(self, exists: &Vec<bool>) -> (confirmed: Result<
        FileList,
        (String, FLParseError),
    >)
        ensures
            match confirmed {
                Ok(list) => {
                    &&& list == self
                    &&& forall|i: int| 0 <= i < self.count() ==> !is_missing(exists@, i)
                },
                Err((buffer, error)) => {
                    &&& buffer@ == self.text()
                    &&& exists|i: int| 0 <= i < self.count() && is_missing(exists@, i)
                    &&& error matches FLParseError::FileDoesNotExist(labels)
                    &&& label_views(labels@) == missing_labels(
                        self.spans(),
                        exists@,
                        self.count() as int,
                    )
                },
            },
    {
        let mut labels: Vec<Label> = Vec::new();
        let mut i: usize = 0;
        while i < self.entries.len()
            invariant
                i <= self.count(),
                label_views(labels@) == missing_labels(self.spans(), exists@, i as int),
                labels@.len() == 0 <==> forall|k: int| 0 <= k < i ==> !is_missing(exists@, k),
            decreases self.count() - i,
        {
            let ghost before = labels@;
            if i >= exists.len() || !exists[i] {
                let label = Label::new(self.entries[i], "File does not exist");
                labels.push(label);
                assert(label_views(labels@) =~= label_views(before).push(label@));
                assert(is_missing(exists@, i as int));
            }
            i = i + 1;
        }
        if labels.len() == 0 {
            Ok(self)
        } else {
            let FileList { buffer, entries } = self;
            Err((buffer, FLParseError::FileDoesNotExist(labels)))
        }
    }

    /// Gives up the list for its text.
    pub fn into_text(self) -> (text: String)
        ensures
            text@ == self.text(),
    {
        self.buffer
    }

    /// Rearranges the entries: place `i` gets the entry that stood at
    /// `order[i]`.
    pub(crate) fn reorder(&mut self, order: &Vec<usize>)
        requires
            old(self).wf(),
            order@.len() == old(self).count(),
            forall|i: int| 0 <= i < order@.len() ==> #[trigger] order@[i] < old(self).count(),
            forall|i: int, j: int|
                0 <= i < j < order@.len() ==> #[trigger] order@[i] != #[trigger] order@[j],
        ensures
            final(self).wf(),
            final(self).text() == old(self).text(),
            final(self).spans() == permuted(old(self).spans(), order@),
    {
        let moved = apply_order(&self.entries, order);
        proof {
            let was = self.entries@;
            assert forall|i: int, j: int| 0 <= i < j < moved@.len() implies (
            #[trigger] moved@[i]).start != (#[trigger] moved@[j]).start by {
                assert(order@[i] != order@[j]);
                if order@[i] < order@[j] {
                    assert(was[order@[i] as int].start != was[order@[j] as int].start);
                } else {
                    assert(was[order@[j] as int].start != was[order@[i] as int].start);
                }
            }
        }
        self.entries = moved;
    }

    /// Puts the entries in the order of `depths`, where `depths[i]` is the
    /// depth of entry `i`: deeper entries first, entries of one depth in the
    /// order they had. The text stays as it is.
    pub fn sort_by_depths(&mut self, depths: &Vec<usize>)
        requires
            old(self).wf(),
            depths@.len() == old(self).count(),
        ensures
            final(self).wf(),
            final(self).text() == old(self).text(),
            final(self).spans() == permuted(old(self).spans(), depth_order(depths@)),
    {
        let order = order_by_depth(depths);
        proof {
            lemma_order_is_one_to_one(depths@, order@);
        }
        self.reorder(&order);
    }

    /// Puts the entries in the order in which they can be renamed: an entry
    /// that lies deeper in the file system comes before one that lies less
    /// deep, and entries of one depth keep their order. `canonical[i]` is
    /// the canonical path of entry `i`, if it has one; its number of
    /// components is the depth of the entry. The text stays as it is. Where
    /// an entry has no canonical path, its file went away since the list was
    /// checked: the list stays as it is, and the first such entry is named.
    pub fn sort_by_file_depth(&mut self, canonical: &Vec<Option<String>>) -> (sorted: Result<
        (),
        FileVanished,
    >)
        requires
            old(self).wf(),
        ensures
            final(self).wf(),
            final(self).text() == old(self).text(),
            match sorted {
                Ok(_) => {
                    &&& forall|i: int| 0 <= i < old(self).count() ==> has_canonical(canonical@, i)
                    &&& final(self).spans() == permuted(
                        old(self).spans(),
                        depth_order(depths_of(canonical_paths(canonical@, old(self).count()))),
                    )
                },
                Err(error) => {
                    &&& final(self).spans() == old(self).spans()
                    &&& exists|i: int|
                        is_first_without_canonical(canonical@, old(self).count(), i) && error.0@
                            == vanished_label(old(self).spans()[i])
                },
            },
    {
        match self.depths(canonical) {
            Ok(depths) => {
                self.sort_by_depths(&depths);
                Ok(())
            },
            Err(error) => Err(error),
        }
    }

    /// The depth of every entry: the number of components of its canonical
    /// path. Where an entry has no canonical path, the first such entry is
    /// named.
    pub fn depths(&self, canonical: &Vec<Option<String>>) -> (found: Result<
        Vec<usize>,
        FileVanished,
    >)
        ensures
            match found {
                Ok(depths) => {
                    &&& forall|i: int| 0 <= i < self.count() ==> has_canonical(canonical@, i)
                    &&& depths@ == depths_of(canonical_paths(canonical@, self.count()))
                },
                Err(error) => exists|i: int|
                    is_first_without_canonical(canonical@, self.count(), i) && error.0@
                        == vanished_label(self.spans()[i]),
            },
    {
        let mut depths: Vec<usize> = Vec::new();
        let mut i: usize = 0;
        while i < self.entries.len()
            invariant
                i <= self.count(),
                depths@.len() == i,
                forall|k: int| 0 <= k < i ==> has_canonical(canonical@, k),
                forall|k: int| 0 <= k < i ==> depths@[k] == component_count(canonical@[k]->0@),
            decreases self.count() - i,
        {
            if i >= canonical.len() {
                assert(is_first_without_canonical(canonical@, self.count(), i as int));
                return Err(FileVanished(Label::new(self.entries[i], "File does not exist")));
            }
            match &canonical[i] {
                Some(path) => {
                    depths.push(count_components(path.as_str()));
                },
                None => {
                    assert(is_first_without_canonical(canonical@, self.count(), i as int));
                    return Err(FileVanished(Label::new(self.entries[i], "File does not exist")));
                },
            }
            i = i + 1;
        }
        assert(depths@ =~= depths_of(canonical_paths(canonical@, self.count())));
        Ok(depths)
    }

    /// The paths of the entries in the order of the list, one on each line.
    pub fn as_string(&self) -> (text: String)
        requires
            self.wf(),
        ensures
            text@ == joined(self.paths()),
    {
        let ghost all = self.paths();
        let mut text = String::new();
        let mut i: usize = 0;
        while i < self.entries.len()
            invariant
                self.wf(),
                i <= self.count(),
                all == self.paths(),
                text@ == joined(all.take(i as int)),
            decreases self.count() - i,
        {
            proof {
                reveal_strlit("\n");
                let next = all.take(i + 1);
                assert(next.drop_last() =~= all.take(i as int));
                assert(next.last() == self.path(i as int));
                assert("\n"@ =~= seq!['\n']);
            }
            if i > 0 {
                text.append("\n");
            }
            text.append(self.entry(i));
            i = i + 1;
        }
        assert(all.take(i as int) =~= all);
        text
    }
}

/// A text that holds nothing but whitespace names no file: neither text nor
/// entry is left of it.
pub proof fn lemma_blank_text_names_no_file(source: Seq<char>)
    requires
        forall|i: int| 0 <= i < source.len() ==> is_whitespace(#[trigger] source[i]),
    ensures
        parsed_text(source).len() == 0,
        parsed_spans(source).len() == 0,
    decreases source.len(),
{
    if source.len() > 0 {
        assert(is_whitespace(source[source.len() - 1]));
        lemma_blank_text_names_no_file(source.drop_last());
    }
    assert(parsed_text(source) =~= Seq::<char>::empty());
    assert(encode_utf8(Seq::<char>::empty()) =~= Seq::<u8>::empty());
}

/// A text that holds a character other than whitespace names a file: text
/// and an entry are left of it.
pub proof fn lemma_text_with_a_name_has_an_entry(source: Seq<char>)
    requires
        exists|i: int| 0 <= i < source.len() && !is_whitespace(#[trigger] source[i]),
    ensures
        parsed_text(source).len() > 0,
        parsed_spans(source).len() > 0,
    decreases source.len(),
{
    let i = choose|i: int| 0 <= i < source.len() && !is_whitespace(#[trigger] source[i]);
    if is_whitespace(source.last()) {
        assert(source.drop_last()[i] == source[i]);
        lemma_text_with_a_name_has_an_entry(source.drop_last());
    } else {
        lemma_trimmed_text_has_a_line(source);
    }
}

/// The non-empty lines of `source` that lie in its trailing whitespace, and so
/// make no entry.
pub open spec fn lost_lines(source: Seq<char>) -> Seq<Span> {
    lines_behind(encode_utf8(source), encode_utf8(parsed_text(source)).len() as int)
}

/// Every entry of a list begins where a non-empty line of its source begins,
/// in the order of the source. The source has a non-empty line for every
/// entry, and has no more but the ones that lie in its trailing whitespace.
pub proof fn lemma_one_entry_for_each_line_of_the_source(source: Seq<char>)
    ensures
        non_empty_lines(encode_utf8(source)).len() == parsed_spans(source).len() + lost_lines(
            source,
        ).len(),
        forall|i: int|
            0 <= i < parsed_spans(source).len() ==> (#[trigger] parsed_spans(source)[i]).start
                == non_empty_lines(encode_utf8(source))[i].start,
{
    lemma_lines_of_trimmed_text(source);
}

/// A text without trailing whitespace is kept as it is, and its entries are
/// its own non-empty lines.
pub proof fn lemma_trimmed_text_is_kept(source: Seq<char>)
    requires
        source.len() == 0 || !is_whitespace(source.last()),
    ensures
        parsed_text(source) == source,
        parsed_spans(source) == non_empty_lines(encode_utf8(source)),
{
    lemma_trim_end(source);
}

/// The text of a list makes a list again, with the same text. Its entries
/// are those of the list where the list stands in the order of its lines.
pub proof fn lemma_text_of_a_list_parses_to_itself(list: FileList)
    requires
        list.wf(),
    ensures
        parsed_text(list.text()) == list.text(),
        parsed_spans(list.text()).len() == list.count(),
        parsed_spans(list.text()).len() > 0,
        list.in_line_order() ==> parsed_spans(list.text()) == list.spans(),
{
}

/// The entries of a list do not overlap: of two entries one ends before the
/// other starts.
pub proof fn lemma_entries_are_disjoint(list: FileList, i: int, j: int)
    requires
        list.wf(),
        0 <= i < list.count(),
        0 <= j < list.count(),
        i != j,
    ensures
        list.spans()[i].end < list.spans()[j].start || list.spans()[j].end < list.spans()[i].start,
{
    let a = list.spans()[i];
    let b = list.spans()[j];
    assert(a.start != b.start) by {
        if i < j {
            assert(list.spans()[i].start != list.spans()[j].start);
        } else {
            assert(list.spans()[j].start != list.spans()[i].start);
        }
    }
    lemma_next_newline(list.bytes(), a.start as int);
    lemma_next_newline(list.bytes(), b.start as int);
}

/// Sorting by depth is idempotent: once a list stands in the order of the
/// depths of its files, sorting it again, by the canonical paths in the order
/// the list now has, leaves every entry in its place.
pub proof fn lemma_sort_by_file_depth_is_idempotent(spans: Seq<Span>, canonical: Seq<Seq<char>>)
    requires
        spans.len() == canonical.len(),
        canonical.len() <= usize::MAX,
    ensures
        ({
            let first = depth_order(depths_of(canonical));
            permuted(permuted(spans, first), depth_order(depths_of(permuted(canonical, first))))
                == permuted(spans, first)
        }),
{
    let depths = depths_of(canonical);
    let first = depth_order(depths);
    lemma_depth_order_exists(depths);
    lemma_depth_order_idempotent(spans, depths);
    assert(depths_of(permuted(canonical, first)) =~= permuted(depths, first));
}

} // verus!
