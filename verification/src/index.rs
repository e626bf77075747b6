//! An in-memory index over a contiguous list of files, built once from their
//! headers and used for repeated random-access reads.
use vstd::prelude::*;
use crate::error::YcdError;
use crate::files::{
    collect_file_infos, infos_wf, placement, plan_for, plan_over, spec_collect, FileInfo, ReadPlan,
    spec_read_check, lemma_collect_len, lemma_plan_reads_payloads, payloads_hold, segment_blocks, set_digits,
    lemma_read_touches_only_needed_files, lemma_collect_keeps_each_file, planned_segments, segment_within, segment_begun, block_taken, ReadSegment,
};
use crate::header::YcdMetadata;
use std::path::PathBuf;

verus! {

/// `std::path::PathBuf`: index entries carry a file's path without looking inside it.
#[verifier::external_type_specification]
#[verifier::external_body]
pub struct ExPathBuf(std::path::PathBuf);

/// `Clone::clone` on `std::path::PathBuf`: a copy of the path. The contract
/// claims what std's impl does, copying the path's contents: the copy is the
/// same path.
pub assume_specification[ <std::path::PathBuf as std::clone::Clone>::clone ](p: &std::path::PathBuf) -> (r: std::path::PathBuf)
    ensures
        r == *p,
;

/// A point in time as the file system reports a file's last modification:
/// its distance from the Unix epoch, to the nanosecond, and on which side of
/// the epoch it lies. Two instants are equal exactly when these are.
#[derive(Debug, Clone, Copy, PartialEq, Eq, Structural)]
pub struct FileTime {
    /// Whether the instant lies before the epoch (never at it).
    pub before_epoch: bool,
    /// Whole seconds between the instant and the epoch.
    pub secs: u64,
    /// The nanoseconds beyond `secs`.
    pub nanos: u32,
}

/// What the file system says of a file when it is indexed.
#[derive(Debug)]
pub struct FileSnapshot {
    /// The file's absolute path.
    pub path: PathBuf,
    /// The file's size in bytes.
    pub file_size: u64,
    /// The file's last-modified time.
    pub modified: FileTime,
}

/// One entry of a [`YcdIndex`]: one file of the list.
///
/// `file_size` and `modified` are recorded when the index is built and
/// compared with the file system whenever the file is read again.
#[derive(Debug)]
pub struct YcdIndexEntry {
    /// Absolute path to the file.
    pub path: PathBuf,
    /// Byte offset at which the compressed 8-byte blocks start.
    pub data_offset: u64,
    /// 1-based absolute digit position of the file's first digit.
    pub file_start: usize,
    /// Number of digits the file holds.
    pub file_length: usize,
    /// File size in bytes when the index was built.
    pub file_size: u64,
    /// Last-modified time when the index was built.
    pub modified: FileTime,
}

impl YcdIndexEntry {
    /// Where the entry's file sits in the list.
    pub open spec fn spec_info(self) -> FileInfo {
        FileInfo { data_offset: self.data_offset, file_start: self.file_start, file_length: self.file_length }
    }

    /// Compare the file system's current view of the entry's file with the
    /// one recorded when the index was built: a different size, then a
    /// different last-modified time, makes the index stale.
    pub fn check_fresh(&self, file_size: u64, modified: FileTime) -> (res: Result<(), YcdError>)
        ensures
            file_size != self.file_size ==> res == Err::<(), YcdError>(
                YcdError::StaleFileSize { expected: self.file_size, found: file_size },
            ),
            file_size == self.file_size && modified != self.modified ==> res == Err::<(), YcdError>(
                YcdError::StaleModified,
            ),
            file_size == self.file_size && modified == self.modified ==> res is Ok,
    {
        if file_size != self.file_size {
            return Err(YcdError::StaleFileSize { expected: self.file_size, found: file_size });
        }
        if modified != self.modified {
            return Err(YcdError::StaleModified);
        }
        Ok(())
    }
}

impl Clone for YcdIndexEntry {
    /// A copy of the entry; the path is copied with `PathBuf::clone`.
    fn clone(&self) -> (r: Self)
        ensures
            r == *self,
    {
        YcdIndexEntry {
            path: self.path.clone(),
            data_offset: self.data_offset,
            file_start: self.file_start,
            file_length: self.file_length,
            file_size: self.file_size,
            modified: self.modified,
        }
    }
}

/// An index over a contiguous list of files.
#[derive(Debug)]
pub struct YcdIndex {
    entries: Vec<YcdIndexEntry>,
    infos: Vec<FileInfo>,
}

impl Clone for YcdIndex {
    /// A copy of the index: the same files, in the same order, with the
    /// same records.
    fn clone(&self) -> (r: Self)
        ensures
            r@ == self@,
    {
        proof {
            use_type_invariant(self);
        }
        let n = self.entries.len();
        let mut entries: Vec<YcdIndexEntry> = Vec::new();
        let mut infos: Vec<FileInfo> = Vec::new();
        let mut i: usize = 0;
        while i < n
            invariant
                i <= n == self.entries@.len() == self.infos@.len(),
                entries@.len() == i,
                infos@.len() == i,
                forall|j: int| 0 <= j < i ==> #[trigger] entries@[j] == self.entries@[j],
                forall|j: int| 0 <= j < i ==> #[trigger] infos@[j] == self.infos@[j],
            decreases n - i,
        {
            entries.push(self.entries[i].clone());
            infos.push(self.infos[i]);
            i = i + 1;
        }
        proof {
            assert(infos@ =~= self.infos@);
            assert(entries@ =~= self.entries@);
        }
        YcdIndex { entries, infos }
    }
}

/// The entry built from a file's place in the list and its snapshot.
pub open spec fn entry_of(fi: FileInfo, snap: FileSnapshot) -> YcdIndexEntry {
    YcdIndexEntry {
        path: snap.path,
        data_offset: fi.data_offset,
        file_start: fi.file_start,
        file_length: fi.file_length,
        file_size: snap.file_size,
        modified: snap.modified,
    }
}

impl View for YcdIndex {
    type V = Seq<YcdIndexEntry>;

    closed spec fn view(&self) -> Seq<YcdIndexEntry> {
        self.entries@
    }
}

impl YcdIndex {
    #[verifier::type_invariant]
    spec fn inv(self) -> bool {
        &&& self.entries@.len() > 0
        &&& self.infos@.len() == self.entries@.len()
        &&& forall|i: int| 0 <= i < self.infos@.len() ==> #[trigger] self.infos@[i] == self.entries@[i].spec_info()
        &&& infos_wf(self.infos@)
    }

    /// Where each indexed file sits in the list, in digit order.
    pub open spec fn spec_infos(self) -> Seq<FileInfo> {
        self@.map_values(|e: YcdIndexEntry| e.spec_info())
    }

    /// Build an index from the files of a list, each given by its metadata
    /// and by what the file system says of it, in digit order.
    ///
    /// Refused for an empty list, and for a list whose files do not continue
    /// each other (the first such file's error).
    pub fn build(files: Vec<(YcdMetadata, FileSnapshot)>) -> (res: Result<Self, YcdError>)
        ensures
            files@.len() == 0 ==> res == Err::<Self, YcdError>(YcdError::NoFiles),
            files@.len() > 0 ==> match spec_collect(files@.map_values(|f: (YcdMetadata, FileSnapshot)| placement(f.0))) {
                Err(e) => res == Err::<Self, YcdError>(e),
                Ok(s) => res matches Ok(ix) && ix@.len() == files@.len() && forall|i: int|
                    0 <= i < files@.len() ==> #[trigger] ix@[i] == entry_of(s[i], files@[i].1),
            },
            res matches Ok(ix) ==> infos_wf(ix.spec_infos()),
            res matches Ok(ix) ==> forall|i: int|
                0 <= i < files@.len() ==> {
                    &&& (#[trigger] ix@[i]).data_offset == files@[i].0.spec_data_offset()
                    &&& ix@[i].file_start == files@[i].0.spec_digit_start()
                    &&& ix@[i].file_length == files@[i].0.spec_digit_length()
                },
    {
        let n = files.len();
        if n == 0 {
            return Err(YcdError::NoFiles);
        }
        let ghost parts = files@.map_values(|f: (YcdMetadata, FileSnapshot)| placement(f.0));
        proof {
            lemma_collect_keeps_each_file(parts);
        }
        let mut metas: Vec<YcdMetadata> = Vec::new();
        let mut snaps: Vec<FileSnapshot> = Vec::new();
        let mut rest = files;
        let mut stack: Vec<(YcdMetadata, FileSnapshot)> = Vec::new();
        while rest.len() > 0
            invariant
                stack@.len() + rest@.len() == n == files@.len(),
                forall|i: int| 0 <= i < rest@.len() ==> #[trigger] rest@[i] == files@[i],
                forall|i: int| 0 <= i < stack@.len() ==> #[trigger] stack@[i] == files@[n - 1 - i],
            decreases rest@.len(),
        {
            let f = rest.pop().unwrap();
            stack.push(f);
        }
        while stack.len() > 0
            invariant
                stack@.len() + metas@.len() == n == files@.len(),
                metas@.len() == snaps@.len(),
                forall|i: int| 0 <= i < stack@.len() ==> #[trigger] stack@[i] == files@[n - 1 - i],
                forall|i: int| 0 <= i < metas@.len() ==> #[trigger] metas@[i] == files@[i].0,
                forall|i: int| 0 <= i < snaps@.len() ==> #[trigger] snaps@[i] == files@[i].1,
            decreases stack@.len(),
        {
            let (m, s) = stack.pop().unwrap();
            metas.push(m);
            snaps.push(s);
        }
        proof {
            assert(metas@.map_values(|m: YcdMetadata| placement(m)) =~= parts);
        }
        let list = collect_file_infos(metas.as_slice())?;
        let infos = list.infos().clone();
        proof {
            lemma_collect_len(parts);
        }
        let mut entries: Vec<YcdIndexEntry> = Vec::new();
        let mut snaps = snaps;
        let mut snap_stack: Vec<FileSnapshot> = Vec::new();
        while snaps.len() > 0
            invariant
                snap_stack@.len() + snaps@.len() == n,
                forall|i: int| 0 <= i < snaps@.len() ==> #[trigger] snaps@[i] == files@[i].1,
                forall|i: int| 0 <= i < snap_stack@.len() ==> #[trigger] snap_stack@[i] == files@[n - 1 - i].1,
            decreases snaps@.len(),
        {
            let s = snaps.pop().unwrap();
            snap_stack.push(s);
        }
        let mut i: usize = 0;
        while i < n
            invariant
                i <= n == infos@.len() == files@.len(),
                snap_stack@.len() + i == n,
                infos@ == list@,
                forall|j: int| 0 <= j < snap_stack@.len() ==> #[trigger] snap_stack@[j] == files@[n - 1 - j].1,
                entries@.len() == i,
                forall|j: int| 0 <= j < i ==> #[trigger] entries@[j] == entry_of(infos@[j], files@[j].1),
            decreases n - i,
        {
            let s = snap_stack.pop().unwrap();
            let fi = infos[i];
            entries.push(
                YcdIndexEntry {
                    path: s.path,
                    data_offset: fi.data_offset,
                    file_start: fi.file_start,
                    file_length: fi.file_length,
                    file_size: s.file_size,
                    modified: s.modified,
                },
            );
            i = i + 1;
        }
        proof {
            assert forall|j: int| 0 <= j < infos@.len() implies #[trigger] infos@[j] == entries@[j].spec_info() by {
                assert(entries@[j] == entry_of(infos@[j], files@[j].1));
            }
        }
        let ix = YcdIndex { entries, infos };
        proof {
            assert(ix.spec_infos() =~= list@);
        }
        Ok(ix)
    }
}


impl YcdIndex {
    /// Replace the index with a freshly built one. When the build failed,
    /// the index is left unchanged and the build's error is returned.
    pub fn rebuild(&mut self, built: Result<YcdIndex, YcdError>) -> (res: Result<(), YcdError>)
        ensures
            match built {
                Ok(ix) => res is Ok && *final(self) == ix,
                Err(e) => res == Err::<(), YcdError>(e) && *final(self) == *old(self),
            },
    {
        match built {
            Ok(ix) => {
                *self = ix;
                Ok(())
            },
            Err(e) => Err(e),
        }
    }

    /// The number of indexed files.
    pub fn len(&self) -> (n: usize)
        ensures
            n == self@.len(),
    {
        self.entries.len()
    }

    /// Whether the index holds no file.
    pub fn is_empty(&self) -> (b: bool)
        ensures
            b == (self@.len() == 0),
    {
        self.entries.len() == 0
    }

    /// All entries, in digit order; their files form a well-formed list.
    pub fn entries(&self) -> (r: &[YcdIndexEntry])
        ensures
            r@ == self@,
            r@.len() > 0,
            infos_wf(self.spec_infos()),
    {
        proof {
            use_type_invariant(self);
            assert(self.spec_infos() =~= self.infos@);
        }
        self.entries.as_slice()
    }

    /// Validate a read of `length` digits from the 1-based position `start`
    /// and plan it over the indexed files, with the recorded size and
    /// last-modified time of each file against which the read checks a file
    /// before it reads from it.
    ///
    /// Refused when the index is empty, `start` is 0, `length` is 0, the last
    /// position overflows, `start` lies outside the indexed range, or the
    /// range ends after it (see [`spec_read_check`]).
    pub fn plan_read(&self, start: usize, length: usize) -> (res: Result<IndexRead, YcdError>)
        ensures
            match spec_read_check(self.spec_infos(), start as int, length as int, YcdError::IndexEmpty) {
                Err(e) => res == Err::<IndexRead, YcdError>(e),
                Ok(_) => res matches Ok(r) && {
                    &&& r.wf()
                    &&& plan_for(r.spec_plan(), self.spec_infos(), start as int, length as int)
                    &&& r.spec_plan().spec_begun() == 0
                    &&& r.spec_plan().spec_digits() == Seq::<char>::empty()
                    &&& r.spec_snapshots() == self@.map_values(|e: YcdIndexEntry| record_of(e))
                    &&& r.spec_checked() == Seq::<(u64, FileTime)>::empty()
                },
            },
    {
        proof {
            use_type_invariant(self);
            assert(self.spec_infos() =~= self.infos@);
        }
        let plan = plan_over(&self.infos, start, length, YcdError::IndexEmpty)?;
        let n = self.entries.len();
        let mut snapshots: Vec<(u64, FileTime)> = Vec::new();
        let mut i: usize = 0;
        while i < n
            invariant
                i <= n == self.entries@.len(),
                snapshots@.len() == i,
                forall|j: int| 0 <= j < i ==> #[trigger] snapshots@[j] == record_of(self.entries@[j]),
            decreases n - i,
        {
            snapshots.push((self.entries[i].file_size, self.entries[i].modified));
            i = i + 1;
        }
        proof {
            assert(snapshots@ =~= self@.map_values(|e: YcdIndexEntry| record_of(e)));
            lemma_read_touches_only_needed_files(self.infos@, start as int, length as int);
            let planned = planned_segments(self.infos@, start as int, length as int);
            assert forall|k: int| 0 <= k < plan.spec_segments().len() implies (#[trigger] plan.spec_segments()[k]).file_index
                < snapshots@.len() by {
                assert(plan.spec_segments()[k] == planned[k]);
                assert(segment_within(self.infos@, planned[k], start as int, length as int));
            }
            if plan.spec_failure() is Some {
                let m = plan.spec_segments().len() as int;
                assert(segment_within(self.infos@, planned[m], start as int, length as int));
            }
        }
        Ok(IndexRead { plan, snapshots, checked: Ghost(Seq::empty()) })
    }
}

/// The size and last-modified time an entry records.
pub open spec fn record_of(e: YcdIndexEntry) -> (u64, FileTime) {
    (e.file_size, e.modified)
}

/// Why a file recorded as `rec` (size, last-modified time) is stale when
/// the file system now reports `size` and `modified`, if it is: a changed
/// size, then a changed time.
pub open spec fn staleness(rec: (u64, FileTime), size: u64, modified: FileTime) -> Option<YcdError> {
    if size != rec.0 {
        Some(YcdError::StaleFileSize { expected: rec.0, found: size })
    } else if modified != rec.1 {
        Some(YcdError::StaleModified)
    } else {
        None
    }
}

/// A read through an index: a read plan over the indexed files that starts
/// a segment of a file only once the caller has reported the file's current
/// size and last-modified time and they match the index's record.
///
/// The caller asks [`IndexRead::next_file`] which file comes next, reports
/// that file's state to [`IndexRead::next_segment`], and then reads blocks
/// from it while [`IndexRead::wants_block`] says so.
pub struct IndexRead {
    plan: ReadPlan,
    snapshots: Vec<(u64, FileTime)>,
    checked: Ghost<Seq<(u64, FileTime)>>,
}

impl IndexRead {
    /// The underlying read plan.
    pub closed spec fn spec_plan(self) -> ReadPlan {
        self.plan
    }

    /// The recorded size and last-modified time of each indexed file.
    pub closed spec fn spec_snapshots(self) -> Seq<(u64, FileTime)> {
        self.snapshots@
    }

    /// For each segment started, the file state reported before it started.
    pub closed spec fn spec_checked(self) -> Seq<(u64, FileTime)> {
        self.checked@
    }

    /// The read's consistency: every file it can name has a record, and
    /// every segment started was started on a report matching its file's
    /// record.
    pub closed spec fn wf(self) -> bool {
        &&& self.plan.wf()
        &&& forall|k: int| 0 <= k < self.plan.spec_segments().len()
            ==> (#[trigger] self.plan.spec_segments()[k]).file_index < self.snapshots@.len()
        &&& self.plan.spec_failure() is Some ==> self.plan.spec_failure_file() < self.snapshots@.len()
        &&& self.checked@.len() == self.plan.spec_begun()
        &&& forall|k: int| 0 <= k < self.checked@.len()
            ==> #[trigger] self.checked@[k] == self.snapshots@[self.plan.spec_segments()[k].file_index as int]
    }

    /// The file the next call of [`IndexRead::next_segment`] concerns.
    pub fn next_file(&self) -> (f: Option<usize>)
        requires
            self.wf(),
        ensures
            f == self.spec_plan().spec_next_file(),
            f matches Some(i) ==> i < self.spec_snapshots().len(),
    {
        self.plan.next_file()
    }

    /// Check the file that comes next against the index's record, given its
    /// current size and last-modified time, and then start its segment as
    /// [`ReadPlan::next_segment`] does. A stale file is refused, and the read
    /// is left as it was: none of its blocks can join the digits.
    pub fn next_segment(&mut self, file_size: u64, modified: FileTime) -> (r: Option<Result<ReadSegment, YcdError>>)
        requires
            old(self).wf(),
        ensures
            final(self).wf(),
            final(self).spec_snapshots() == old(self).spec_snapshots(),
            match old(self).spec_plan().spec_next_file() {
                None => r is None && *final(self) == *old(self),
                Some(f) => match staleness(old(self).spec_snapshots()[f as int], file_size, modified) {
                    Some(e) => r == Some(Err::<ReadSegment, YcdError>(e)) && *final(self) == *old(self),
                    None => {
                        &&& segment_begun(old(self).spec_plan(), final(self).spec_plan(), r)
                        &&& final(self).spec_checked() == if old(self).spec_plan().spec_begun()
                            < old(self).spec_plan().spec_segments().len() {
                            old(self).spec_checked().push((file_size, modified))
                        } else {
                            old(self).spec_checked()
                        }
                    },
                },
            },
    {
        let f = match self.plan.next_file() {
            None => {
                return None;
            },
            Some(f) => f,
        };
        let rec = self.snapshots[f];
        if file_size != rec.0 {
            return Some(Err(YcdError::StaleFileSize { expected: rec.0, found: file_size }));
        }
        if modified != rec.1 {
            return Some(Err(YcdError::StaleModified));
        }
        let ghost old_checked = self.checked@;
        let ghost began = self.plan.spec_begun() < self.plan.spec_segments().len();
        let r = self.plan.next_segment();
        self.checked = Ghost(
            if began {
                old_checked.push((file_size, modified))
            } else {
                old_checked
            },
        );
        proof {
            assert forall|k: int| 0 <= k < self.checked@.len() implies #[trigger] self.checked@[k]
                == self.snapshots@[self.plan.spec_segments()[k].file_index as int] by {
                if k < old_checked.len() {
                    assert(self.checked@[k] == old_checked[k]);
                }
            }
        }
        r
    }

    /// Whether the current segment still needs a block.
    pub fn wants_block(&self) -> (b: bool)
        requires
            self.wf(),
        ensures
            b == self.spec_plan().spec_wants_block(),
    {
        self.plan.wants_block()
    }

    /// Hand over the next block of the current segment's file, as
    /// [`ReadPlan::push_block`] takes it.
    pub fn push_block(&mut self, block: &[u8; 8]) -> (r: Result<(), YcdError>)
        requires
            old(self).wf(),
        ensures
            final(self).wf(),
            final(self).spec_snapshots() == old(self).spec_snapshots(),
            final(self).spec_checked() == old(self).spec_checked(),
            block_taken(old(self).spec_plan(), final(self).spec_plan(), block@, r),
    {
        self.plan.push_block(block)
    }

    /// The digits read.
    pub fn into_string(self) -> (s: String)
        requires
            self.wf(),
        ensures
            s@ == self.spec_plan().spec_digits(),
    {
        self.plan.into_string()
    }
}

/// An index read takes digits only from files it has checked: every segment
/// started so far (and so every block whose digits joined the result) was
/// started on a report of its file's current size and last-modified time
/// that equals the index's record of that file.
pub proof fn lemma_index_read_checks_each_file(r: IndexRead)
    requires
        r.wf(),
    ensures
        r.spec_checked().len() == r.spec_plan().spec_begun(),
        forall|k: int|
            0 <= k < r.spec_plan().spec_begun() ==> #[trigger] r.spec_checked()[k] == r.spec_snapshots()[r.spec_plan().spec_segments()[k].file_index as int],
        r.spec_plan().spec_digits() == crate::files::concat_segments(
            r.spec_plan().spec_segments().take(r.spec_plan().spec_begun()),
            r.spec_plan().spec_fed(),
        ),
{
    r.plan.lemma_digits();
}

/// Reading through an index returns exactly the requested digits: the plan
/// of a read made by [`YcdIndex::plan_read`] (its `spec_plan`), walked to
/// its end, each segment
/// handed the blocks of its own file from its block index on, holds the
/// digits at positions `start .. start + length` of the indexed files'
/// digits laid end to end, and exactly `length` of them.
pub proof fn lemma_index_reads_digits(
    ix: YcdIndex,
    p: ReadPlan,
    payloads: Seq<Seq<u8>>,
    start: int,
    length: int,
)
    requires
        ix@.len() <= usize::MAX,
        infos_wf(ix.spec_infos()),
        spec_read_check(ix.spec_infos(), start, length, YcdError::IndexEmpty) is Ok,
        0 <= start,
        0 <= length,
        p.wf(),
        plan_for(p, ix.spec_infos(), start, length),
        p.spec_failure() is None,
        p.spec_begun() == p.spec_segments().len(),
        payloads_hold(payloads, ix.spec_infos()),
        forall|i: int|
            0 <= i < p.spec_begun() ==> #[trigger] p.spec_fed()[i] == segment_blocks(
                payloads,
                p.spec_segments()[i],
            ),
    ensures
        p.spec_digits() == set_digits(payloads, ix.spec_infos(), 0).subrange(
            start - ix.spec_infos()[0].file_start,
            start - ix.spec_infos()[0].file_start + length,
        ),
        p.spec_digits().len() == length,
{
    lemma_plan_reads_payloads(p, ix.spec_infos(), payloads, start, length);
}


/// A read through an index and a one-off read over the list the index was
/// built from agree: they accept and refuse the same requests, with the same
/// errors, and plan the same segments, so (by the read laws) they return the
/// same digits.
pub proof fn lemma_index_and_list_reads_agree(ix: YcdIndex, list: Seq<FileInfo>, start: int, length: int)
    requires
        ix@.len() > 0,
        ix.spec_infos() == list,
    ensures
        spec_read_check(ix.spec_infos(), start, length, YcdError::IndexEmpty) == spec_read_check(
            list,
            start,
            length,
            YcdError::NoFiles,
        ),
        planned_segments(ix.spec_infos(), start, length) == planned_segments(list, start, length),
{
}

} // verus!
