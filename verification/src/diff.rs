//! How one path differs from another: the pieces that stay, go and come.

use unicode_segmentation::UnicodeSegmentation;
use vstd::prelude::*;

verus! {

/// A piece of a difference between an old and a new text.
#[derive(Debug)]
pub enum Chunk {
    /// Text that both have.
    Equal(String),
    /// Text that only the old one has.
    Delete(String),
    /// Text that only the new one has.
    Insert(String),
}

/// What a [`Chunk`] holds.
pub enum ChunkView {
    Equal(Seq<char>),
    Delete(Seq<char>),
    Insert(Seq<char>),
}

impl ChunkView {
    /// The text of the piece.
    pub open spec fn text(self) -> Seq<char> {
        match self {
            ChunkView::Equal(text) => text,
            ChunkView::Delete(text) => text,
            ChunkView::Insert(text) => text,
        }
    }
}

impl View for Chunk {
    type V = ChunkView;

    open spec fn view(&self) -> ChunkView {
        match self {
            Chunk::Equal(text) => ChunkView::Equal(text@),
            Chunk::Delete(text) => ChunkView::Delete(text@),
            Chunk::Insert(text) => ChunkView::Insert(text@),
        }
    }
}

impl Chunk {
    /// The text of the piece.
    pub fn text(&self) -> (text: &str)
        ensures
            text@ == self@.text(),
    {
        match self {
            Chunk::Equal(text) => text.as_str(),
            Chunk::Delete(text) => text.as_str(),
            Chunk::Insert(text) => text.as_str(),
        }
    }
}

/// The views of `chunks`, place by place.
pub open spec fn chunk_views(chunks: Seq<Chunk>) -> Seq<ChunkView> {
    Seq::new(chunks.len(), |i: int| chunks[i]@)
}

/// The pieces that `dissimilar` finds between `origin` and `target`.
pub uninterp spec fn difference(origin: Seq<char>, target: Seq<char>) -> Seq<ChunkView>;

/// The number of extended grapheme clusters that `unicode-segmentation` finds
/// in `text`.
pub uninterp spec fn grapheme_count(text: Seq<char>) -> usize;

/// Calls `dissimilar::diff` and copies each piece it returns. What the pieces
/// are depends on the two texts alone; nothing more is claimed of them.
#[verifier::external_body]
pub(crate) fn diff_chunks(origin: &str, target: &str) -> (chunks: Vec<Chunk>)
    ensures
        chunk_views(chunks@) == difference(origin@, target@),
{
    dissimilar::diff(origin, target).into_iter().map(
        |chunk| match chunk {
            dissimilar::Chunk::Equal(text) => Chunk::Equal(text.to_string()),
            dissimilar::Chunk::Delete(text) => Chunk::Delete(text.to_string()),
            dissimilar::Chunk::Insert(text) => Chunk::Insert(text.to_string()),
        },
    ).collect()
}

/// Counts what `UnicodeSegmentation::graphemes` yields for `text`, with
/// extended clusters. The count depends on the text alone.
#[verifier::external_body]
pub(crate) fn count_graphemes(text: &str) -> (count: usize)
    ensures
        count == grapheme_count(text@),
{
    text.graphemes(true).count()
}

/// The column at which the remark behind a difference starts.
pub const REMARK_COLUMN: usize = 65;

/// The sum of the first `upto` of `widths`.
pub open spec fn total_width(widths: Seq<usize>, upto: int) -> int
    decreases upto,
{
    if upto <= 0 {
        0
    } else {
        total_width(widths, upto - 1) + widths[upto - 1]
    }
}

/// The blanks that fill a line of the given widths up to the remark column.
pub open spec fn padding_for(widths: Seq<usize>) -> int {
    let total = total_width(widths, widths.len() as int);
    if total >= REMARK_COLUMN {
        0
    } else {
        REMARK_COLUMN - total
    }
}

/// The pair needs no rename: all of its difference is one piece that stays,
/// or one piece that goes.
pub open spec fn is_unchanged(chunks: Seq<ChunkView>) -> bool {
    chunks.len() == 1 && (chunks[0] is Equal || chunks[0] is Delete)
}

/// The width of each piece in grapheme clusters.
pub open spec fn widths_of(chunks: Seq<ChunkView>) -> Seq<usize> {
    Seq::new(chunks.len(), |i: int| grapheme_count(chunks[i].text()))
}

/// The difference between the two paths of a pair, ready to be shown.
#[derive(Debug)]
pub struct DiffRecord {
    /// The pieces, in the order of the text.
    pub chunks: Vec<Chunk>,
    /// The blanks to put between the pieces and the remark.
    pub padding: usize,
    /// Whether the pair needs no rename.
    pub unchanged: bool,
}

/// What a [`DiffRecord`] holds.
pub struct DiffRecordView {
    pub chunks: Seq<ChunkView>,
    pub padding: int,
    pub unchanged: bool,
}

impl View for DiffRecord {
    type V = DiffRecordView;

    open spec fn view(&self) -> DiffRecordView {
        DiffRecordView {
            chunks: chunk_views(self.chunks@),
            padding: self.padding as int,
            unchanged: self.unchanged,
        }
    }
}

/// The record of the difference between `origin` and `target`.
pub open spec fn record_of(origin: Seq<char>, target: Seq<char>) -> DiffRecordView {
    let chunks = difference(origin, target);
    DiffRecordView {
        chunks,
        padding: padding_for(widths_of(chunks)),
        unchanged: is_unchanged(chunks),
    }
}

impl DiffRecord {
    /// The record of the pieces `chunks`, where `widths` holds the width of
    /// each piece as it is shown.
    pub fn new(chunks: Vec<Chunk>, widths: &Vec<usize>) -> (record: DiffRecord)
        ensures
            record@ == (DiffRecordView {
                chunks: chunk_views(chunks@),
                padding: padding_for(widths@),
                unchanged: is_unchanged(chunk_views(chunks@)),
            }),
    {
        let mut padding: usize = REMARK_COLUMN;
        let mut i: usize = 0;
        while i < widths.len()
            invariant
                i <= widths@.len(),
                padding <= REMARK_COLUMN,
                total_width(widths@, i as int) >= 0,
                padding == if total_width(widths@, i as int) >= REMARK_COLUMN {
                    0
                } else {
                    REMARK_COLUMN - total_width(widths@, i as int)
                },
            decreases widths@.len() - i,
        {
            padding = if widths[i] >= padding {
                0
            } else {
                padding - widths[i]
            };
            i = i + 1;
        }
        let unchanged = chunks.len() == 1 && match &chunks[0] {
            Chunk::Equal(_) => true,
            Chunk::Delete(_) => true,
            Chunk::Insert(_) => false,
        };
        DiffRecord { chunks, padding, unchanged }
    }

    /// The difference between the paths `origin` and `target`.
    pub fn between(origin: &str, target: &str) -> (record: DiffRecord)
        ensures
            record@ == record_of(origin@, target@),
    {
        let chunks = diff_chunks(origin, target);
        let mut widths: Vec<usize> = Vec::new();
        let mut i: usize = 0;
        while i < chunks.len()
            invariant
                i <= chunks@.len(),
                widths@.len() == i,
                forall|k: int| 0 <= k < i ==> widths@[k] == grapheme_count(chunks@[k]@.text()),
            decreases chunks@.len() - i,
        {
            widths.push(count_graphemes(chunks[i].text()));
            i = i + 1;
        }
        assert(widths@ =~= widths_of(chunk_views(chunks@)));
        DiffRecord::new(chunks, &widths)
    }
}

} // verus!
