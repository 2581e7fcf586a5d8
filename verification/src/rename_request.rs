//! Two lists of files, paired entry by entry: what is, and what shall be.

use crate::depth::{
    depth_order, lemma_depth_order_exists, lemma_depth_order_idempotent,
    lemma_order_is_one_to_one, order_by_depth, permuted,
};
use crate::diff::{record_of, DiffRecord};
use crate::errors::{CannotRenameFile, FileVanished, RRParseError};
use crate::file_list::{
    canonical_paths, depths_of, has_canonical, is_first_without_canonical, vanished_label, FileList,
};
use crate::paths::{paths_equal, same_path};
use crate::text::{is_line, lemma_lines_from};
use vstd::prelude::*;

verus! {

/// What is found when an edited list is held against the list it came from.
pub enum Verdict {
    /// As many entries, and at least one pair differs: the lists are paired.
    Paired,
    /// Fewer entries; the offset is the end of the edited text.
    TooFewLines(int),
    /// More entries; the offsets bound what is too much of the edited text.
    TooManyLines(int, int),
    /// As many entries, and no pair differs.
    FileUnchanged,
}

/// No entry of `target` names another path than the entry of `origin` at the
/// same place.
pub open spec fn unchanged(origin: FileList, target: FileList) -> bool {
    forall|i: int| 0 <= i < origin.count() ==> same_path(#[trigger] origin.path(i), target.path(i))
}

/// Where the entries that `target` has too many begin: one byte behind entry
/// `kept - 1`, but never behind the end of the text.
pub open spec fn extra_start(target: FileList, kept: int) -> int {
    let end = target.spans()[kept - 1].end;
    if end < target.bytes().len() {
        end + 1
    } else {
        target.bytes().len() as int
    }
}

/// What holding `target` against `origin` finds.
pub open spec fn verdict(origin: FileList, target: FileList) -> Verdict {
    if target.count() < origin.count() {
        Verdict::TooFewLines(target.bytes().len() as int)
    } else if target.count() > origin.count() {
        Verdict::TooManyLines(
            extra_start(target, origin.count() as int),
            target.bytes().len() as int,
        )
    } else if unchanged(origin, target) {
        Verdict::FileUnchanged
    } else {
        Verdict::Paired
    }
}

/// Whether two lists are paired is a matter of their numbers of entries and
/// of whether anything was changed: with as many entries they are paired or
/// found unchanged, with fewer or more they are refused for that.
pub proof fn lemma_verdict_goes_by_count(origin: FileList, target: FileList)
    ensures
        target.count() == origin.count() <==> (verdict(origin, target) is Paired || verdict(
            origin,
            target,
        ) is FileUnchanged),
        target.count() < origin.count() <==> verdict(origin, target) is TooFewLines,
        target.count() > origin.count() <==> verdict(origin, target) is TooManyLines,
        verdict(origin, target) is Paired ==> !unchanged(origin, target),
{
}

/// What is reported of too few lines is the end of the edited text.
pub proof fn lemma_too_few_lines_end_the_text(origin: FileList, target: FileList)
    requires
        target.count() < origin.count(),
    ensures
        verdict(origin, target) == Verdict::TooFewLines(target.bytes().len() as int),
{
}

/// What is reported of too many lines covers just the lines that are too
/// many: where the edited list stands in the order of its lines, the range
/// starts one byte behind the last entry that has a partner, lies in the
/// text, and holds every entry without a partner and no entry with one.
pub proof fn lemma_too_many_lines_cover_the_rest(origin: FileList, target: FileList)
    requires
        origin.wf(),
        target.wf(),
        target.in_line_order(),
        target.count() > origin.count(),
    ensures
        verdict(origin, target) matches Verdict::TooManyLines(start, end) && {
            &&& start == target.spans()[origin.count() - 1].end + 1
            &&& start <= end == target.bytes().len()
            &&& forall|j: int|
                origin.count() <= j < target.count() ==> start <= (
                #[trigger] target.spans()[j]).start && target.spans()[j].end <= end
            &&& forall|j: int|
                0 <= j < origin.count() ==> (#[trigger] target.spans()[j]).end < start
        },
{
    let kept = origin.count() as int;
    lemma_lines_from(target.bytes(), 0);
    assert(target.spans()[kept - 1].end < target.spans()[kept].start);
    assert(is_line(target.bytes(), target.spans()[kept]));
    let start = extra_start(target, kept);
    assert forall|j: int| kept <= j < target.count() implies start <= (
    #[trigger] target.spans()[j]).start && target.spans()[j].end <= target.bytes().len() by {
        assert(is_line(target.bytes(), target.spans()[j]));
        if j > kept {
            assert(target.spans()[kept].end < target.spans()[j].start);
        }
    }
    assert forall|j: int| 0 <= j < kept implies (#[trigger] target.spans()[j]).end < start by {
        if j < kept - 1 {
            assert(target.spans()[j].end < target.spans()[kept - 1].start);
            assert(is_line(target.bytes(), target.spans()[kept - 1]));
        }
    }
}

/// Where every entry of the edited list reads as the entry it is paired
/// with, the list is found unchanged.
pub proof fn lemma_same_entries_are_unchanged(origin: FileList, target: FileList)
    requires
        origin.count() == target.count(),
        forall|i: int| 0 <= i < origin.count() ==> origin.path(i) == target.path(i),
    ensures
        verdict(origin, target) == Verdict::FileUnchanged,
{
}

/// Ordering by depth is idempotent: once the pairs stand in the order of the
/// depths of their origins, ordering them again, by the canonical paths in
/// the order the pairs now have, leaves every pair in its place.
pub proof fn lemma_order_by_depth_is_idempotent(
    pairs: Seq<(Seq<char>, Seq<char>)>,
    canonical: Seq<Seq<char>>,
)
    requires
        pairs.len() == canonical.len(),
        canonical.len() <= usize::MAX,
    ensures
        ({
            let first = depth_order(depths_of(canonical));
            permuted(permuted(pairs, first), depth_order(depths_of(permuted(canonical, first))))
                == permuted(pairs, first)
        }),
{
    let depths = depths_of(canonical);
    let first = depth_order(depths);
    lemma_depth_order_exists(depths);
    lemma_depth_order_idempotent(pairs, depths);
    assert(depths_of(permuted(canonical, first)) =~= permuted(depths, first));
}

/// Two lists of as many entries: entry `i` of the first is to be renamed to
/// entry `i` of the second.
#[derive(Debug)]
pub struct RenameRequest {
    origin: FileList,
    target: FileList,
}

impl RenameRequest {
    /// The files as they are.
    pub closed spec fn origin(&self) -> FileList {
        self.origin
    }

    /// The files as they shall be.
    pub closed spec fn target(&self) -> FileList {
        self.target
    }

    /// The number of pairs.
    pub open spec fn count(&self) -> nat {
        self.origin().count()
    }

    /// The pairs of paths, origin first, in the order of the request.
    pub open spec fn pairs(&self) -> Seq<(Seq<char>, Seq<char>)> {
        Seq::new(self.count(), |i: int| (self.origin().path(i), self.target().path(i)))
    }

    /// What holds of every request: both lists are lists, of as many
    /// entries.
    pub open spec fn wf(&self) -> bool {
        &&& self.origin().wf()
        &&& self.target().wf()
        &&& self.origin().count() == self.target().count()
    }

    /// Pairs `origin` with the edited list `target`. Where the pairing fails,
    /// the text of `target` comes back with the reason: fewer entries, more
    /// entries, or as many entries of which none differs.
    pub fn new(origin: FileList, target: FileList) -> (paired: Result<
        RenameRequest,
        (String, RRParseError),
    >)
        requires
            origin.wf(),
            target.wf(),
        ensures
            match verdict(origin, target) {
                Verdict::Paired => {
                    &&& paired matches Ok(request)
                    &&& request.wf()
                    &&& request.origin() == origin
                    &&& request.target() == target
                },
                Verdict::TooFewLines(end) => {
                    &&& paired matches Err((buffer, RRParseError::TooFewLines(offset)))
                    &&& buffer@ == target.text()
                    &&& offset == end
                },
                Verdict::TooManyLines(start, end) => {
                    &&& paired matches Err((buffer, RRParseError::TooManyLines(range)))
                    &&& buffer@ == target.text()
                    &&& range.start == start
                    &&& range.end == end
                },
                Verdict::FileUnchanged => {
                    &&& paired matches Err((buffer, RRParseError::FileUnchanged))
                    &&& buffer@ == target.text()
                },
            },
    {
        let origin_len = origin.len();
        let target_len = target.len();
        if target_len < origin_len {
            let end = target.as_text().len();
            Err((target.into_text(), RRParseError::TooFewLines(end)))
        } else if target_len > origin_len {
            let last = target.substring_range(origin_len - 1).end;
            let end = target.as_text().len();
            let start = if last < end {
                last + 1
            } else {
                end
            };
            Err((target.into_text(), RRParseError::TooManyLines(start..end)))
        } else {
            let mut differs = false;
            let mut i: usize = 0;
            while i < origin_len && !differs
                invariant
                    origin.wf(),
                    target.wf(),
                    origin_len == origin.count(),
                    origin_len == target.count(),
                    i <= origin_len,
                    forall|k: int|
                        0 <= k < i ==> same_path(#[trigger] origin.path(k), target.path(k)),
                    differs ==> !unchanged(origin, target),
                decreases origin_len - i + if differs { 0int } else { 1int },
            {
                if paths_equal(origin.entry(i), target.entry(i)) {
                    i = i + 1;
                } else {
                    differs = true;
                    assert(!same_path(origin.path(i as int), target.path(i as int)));
                }
            }
            if differs {
                Ok(RenameRequest { origin, target })
            } else {
                Err((target.into_text(), RRParseError::FileUnchanged))
            }
        }
    }

    /// The number of pairs.
    pub fn len(&self) -> (count: usize)
        ensures
            count == self.count(),
    {
        self.origin.len()
    }

    /// The list of the files as they are.
    pub fn origin_list(&self) -> (list: &FileList)
        ensures
            *list == self.origin(),
    {
        &self.origin
    }

    /// The list of the files as they shall be.
    pub fn target_list(&self) -> (list: &FileList)
        ensures
            *list == self.target(),
    {
        &self.target
    }

    /// Puts the pairs in the order of `depths`, where `depths[i]` is the depth
    /// of the origin of pair `i`: deeper origins first, pairs of one depth in
    /// the order they had. Both lists are rearranged in the same way, so
    /// every origin keeps its target.
    pub fn order_by_depths(&mut self, depths: &Vec<usize>)
        requires
            old(self).wf(),
            depths@.len() == old(self).count(),
        ensures
            final(self).wf(),
            final(self).origin().text() == old(self).origin().text(),
            final(self).target().text() == old(self).target().text(),
            final(self).origin().spans() == permuted(
                old(self).origin().spans(),
                depth_order(depths@),
            ),
            final(self).target().spans() == permuted(
                old(self).target().spans(),
                depth_order(depths@),
            ),
            final(self).pairs() == permuted(old(self).pairs(), depth_order(depths@)),
    {
        let order = order_by_depth(depths);
        proof {
            lemma_order_is_one_to_one(depths@, order@);
        }
        self.origin.reorder(&order);
        self.target.reorder(&order);
        assert(self.pairs() =~= permuted(old(self).pairs(), order@));
    }

    /// Puts the pairs in the order in which they can be renamed: a file that
    /// lies deeper is renamed before one that lies less deep, so that no
    /// directory is renamed while a path through it is still to be used.
    /// `canonical[i]` is the canonical path of the origin of pair `i`, if it
    /// has one; its number of components is the depth of the pair. Where an
    /// origin has no canonical path, its file went away since the list was
    /// checked: the request stays as it is, and the first such origin is
    /// named.
    pub fn order_by_depth(&mut self, canonical: &Vec<Option<String>>) -> (ordered: Result<
        (),
        FileVanished,
    >)
        requires
            old(self).wf(),
        ensures
            final(self).wf(),
            final(self).origin().text() == old(self).origin().text(),
            final(self).target().text() == old(self).target().text(),
            match ordered {
                Ok(_) => {
                    let order = depth_order(
                        depths_of(canonical_paths(canonical@, old(self).count())),
                    );
                    &&& forall|i: int| 0 <= i < old(self).count() ==> has_canonical(canonical@, i)
                    &&& final(self).origin().spans() == permuted(old(self).origin().spans(), order)
                    &&& final(self).target().spans() == permuted(old(self).target().spans(), order)
                    &&& final(self).pairs() == permuted(old(self).pairs(), order)
                },
                Err(error) => {
                    &&& final(self).origin().spans() == old(self).origin().spans()
                    &&& final(self).target().spans() == old(self).target().spans()
                    &&& exists|i: int|
                        is_first_without_canonical(canonical@, old(self).count(), i) && error.0@
                            == vanished_label(old(self).origin().spans()[i])
                },
            },
    {
        match self.origin.depths(canonical) {
            Ok(depths) => {
                self.order_by_depths(&depths);
                Ok(())
            },
            Err(error) => {
                proof {
                    let i = choose|i: int|
                        is_first_without_canonical(canonical@, self.origin().count(), i)
                            && error.0@ == vanished_label(self.origin().spans()[i]);
                    assert(is_first_without_canonical(canonical@, self.count(), i));
                }
                Err(error)
            },
        }
    }

    /// Starts the renaming: no pair is renamed yet, and the first one is due.
    pub fn rename(self) -> (run: RenameRun)
        requires
            self.wf(),
        ensures
            run.wf(),
            run.request() == self,
            run.committed() == 0,
            run.state() == RenameState::Pending,
    {
        RenameRun { request: self, committed: 0, failed: false }
    }

    /// The difference between origin and target of every pair, in the order
    /// of the request.
    pub fn diff_preview(&self) -> (records: Vec<DiffRecord>)
        requires
            self.wf(),
        ensures
            records@.len() == self.count(),
            forall|i: int|
                0 <= i < self.count() ==> (#[trigger] records@[i])@ == record_of(
                    self.origin().path(i),
                    self.target().path(i),
                ),
    {
        let mut records: Vec<DiffRecord> = Vec::new();
        let mut i: usize = 0;
        while i < self.origin.len()
            invariant
                self.wf(),
                i <= self.count(),
                records@.len() == i,
                forall|k: int|
                    0 <= k < i ==> (#[trigger] records@[k])@ == record_of(
                        self.origin().path(k),
                        self.target().path(k),
                    ),
            decreases self.count() - i,
        {
            records.push(DiffRecord::between(self.origin.entry(i), self.target.entry(i)));
            i = i + 1;
        }
        records
    }
}

/// How far a renaming has come.
#[derive(Clone, Copy, Debug, PartialEq, Eq, Structural)]
pub enum RenameState {
    /// A pair is due to be renamed.
    Pending,
    /// Every pair was renamed.
    Applied,
    /// A rename failed; the pairs behind it are left alone.
    Failed,
}

/// A renaming under way: the pairs of a request are renamed one by one, in
/// the order of the request, until all are done or one fails. The run names
/// the pair that is due and takes note of how its rename went; the rename
/// itself is done by whoever drives the run.
#[derive(Debug)]
pub struct RenameRun {
    request: RenameRequest,
    committed: usize,
    failed: bool,
}

impl RenameRun {
    /// The request that is carried out.
    pub closed spec fn request(&self) -> RenameRequest {
        self.request
    }

    /// The number of pairs that were renamed.
    pub closed spec fn committed(&self) -> nat {
        self.committed as nat
    }

    /// Whether a rename failed.
    pub closed spec fn failed(&self) -> bool {
        self.failed
    }

    /// What holds of every run: the request is a request, no more pairs were
    /// renamed than it has, and a rename can only have failed while one was
    /// due.
    pub open spec fn wf(&self) -> bool {
        &&& self.request().wf()
        &&& self.committed() <= self.request().count()
        &&& self.failed() ==> self.committed() < self.request().count()
    }

    /// How far the run has come.
    pub open spec fn state(&self) -> RenameState {
        if self.failed() {
            RenameState::Failed
        } else if self.committed() == self.request().count() {
            RenameState::Applied
        } else {
            RenameState::Pending
        }
    }

    /// How far the run has come.
    pub fn current(&self) -> (state: RenameState)
        ensures
            state == self.state(),
    {
        if self.failed {
            RenameState::Failed
        } else if self.committed == self.request.len() {
            RenameState::Applied
        } else {
            RenameState::Pending
        }
    }

    /// The number of pairs that were renamed.
    pub fn renamed(&self) -> (count: usize)
        ensures
            count == self.committed(),
    {
        self.committed
    }

    /// The pair that is due, origin first: the first pair that was not
    /// renamed yet. None is due once all are renamed or one has failed.
    pub fn pending(&self) -> (pair: Option<(String, String)>)
        requires
            self.wf(),
        ensures
            match pair {
                Some((origin, target)) => {
                    &&& self.state() == RenameState::Pending
                    &&& origin@ == self.request().origin().path(self.committed() as int)
                    &&& target@ == self.request().target().path(self.committed() as int)
                },
                None => self.state() != RenameState::Pending,
            },
    {
        if self.failed || self.committed == self.request.len() {
            None
        } else {
            let origin = String::from_str(self.request.origin.entry(self.committed));
            let target = String::from_str(self.request.target.entry(self.committed));
            Some((origin, target))
        }
    }

    /// Takes note of how the rename of the pair that is due went. After a
    /// success the next pair is due. After a failure, given with the
    /// system's message, no pair is due any more, and the failure comes back
    /// with the pair and the message. Where no pair is due, nothing changes.
    pub fn record(&mut self, outcome: Result<(), String>) -> (failure: Option<CannotRenameFile>)
        requires
            old(self).wf(),
        ensures
            final(self).wf(),
            final(self).request() == old(self).request(),
            match (old(self).state(), outcome) {
                (RenameState::Pending, Ok(_)) => {
                    &&& final(self).committed() == old(self).committed() + 1
                    &&& !final(self).failed()
                    &&& failure is None
                },
                (RenameState::Pending, Err(message)) => {
                    &&& final(self).committed() == old(self).committed()
                    &&& final(self).failed()
                    &&& failure matches Some(error)
                    &&& error.0.0@ == old(self).request().origin().path(
                        old(self).committed() as int,
                    )
                    &&& error.0.1@ == old(self).request().target().path(
                        old(self).committed() as int,
                    )
                    &&& error.1@ == message@
                },
                _ => {
                    &&& final(self).committed() == old(self).committed()
                    &&& final(self).failed() == old(self).failed()
                    &&& failure is None
                },
            },
    {
        let pairs = self.request.len();
        match self.pending() {
            None => None,
            Some(pair) => match outcome {
                Ok(_) => {
                    assert(self.committed < pairs);
                    self.committed = self.committed + 1;
                    None
                },
                Err(message) => {
                    self.failed = true;
                    Some(CannotRenameFile(pair, message))
                },
            },
        }
    }
}

} // verus!
