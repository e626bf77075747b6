//! Contiguous lists of files and the planning of random-access reads over them.
use vstd::prelude::*;
use crate::digits::{blocks_for, compute_seek_params, decode_block, block_fits, block_digits, blocks_digits, lemma_blocks_digits_len, lemma_blocks_digits_concat, lemma_decimal_digits_len, block_value, payload_blocks, file_digits};
use crate::error::YcdError;
use crate::header::YcdMetadata;

verus! {

/// Where one file of a contiguous list sits.
#[derive(Debug, Clone, Copy, PartialEq, Eq, Structural)]
pub struct FileInfo {
    /// Byte offset at which the file's compressed 8-byte blocks start.
    pub data_offset: u64,
    /// 1-based absolute digit position of the file's first digit.
    pub file_start: usize,
    /// Number of digits the file holds.
    pub file_length: usize,
}

/// One past the last digit position a file covers.
pub open spec fn file_end(fi: FileInfo) -> int {
    fi.file_start + fi.file_length
}

/// A list of files is well formed when each starts at position 1 or later,
/// holds at least one digit, and starts right after its predecessor.
#[verifier::opaque]
pub open spec fn infos_wf(s: Seq<FileInfo>) -> bool {
    &&& forall|i: int| 0 <= i < s.len() ==> #[trigger] s[i].file_start >= 1 && s[i].file_length >= 1
    &&& forall|i: int| 0 < i < s.len() ==> #[trigger] s[i].file_start == file_end(s[i - 1])
}

/// Later files start no earlier than the end of earlier ones.
pub proof fn lemma_infos_ordered(s: Seq<FileInfo>, i: int, j: int)
    requires
        infos_wf(s),
        0 <= i < j < s.len(),
    ensures
        file_end(s[i]) <= s[j].file_start,
        file_end(s[i]) < file_end(s[j]),
    decreases j - i,
{
    reveal(infos_wf);
    assert(s[j].file_start == file_end(s[j - 1]));
    if i < j - 1 {
        lemma_infos_ordered(s, i, j - 1);
    }
}

/// What a well-formed list says of file `i` and of the file before it.
pub proof fn lemma_infos_at(s: Seq<FileInfo>, i: int)
    requires
        infos_wf(s),
        0 <= i < s.len(),
    ensures
        s[i].file_start >= 1,
        s[i].file_length >= 1,
        i > 0 ==> s[i].file_start == file_end(s[i - 1]),
{
    reveal(infos_wf);
}

/// What adding a file with the given metadata to the list `prev` yields:
/// its entry, or why it does not continue the list.
pub open spec fn spec_next_info(prev: Seq<FileInfo>, data_offset: u64, start: int, length: int) -> Result<
    FileInfo,
    YcdError,
> {
    if start < 0 || start > usize::MAX {
        Err(YcdError::PositionTooLarge)
    } else if length < 0 || length > usize::MAX {
        Err(YcdError::LengthOutOfRange)
    } else if prev.len() > 0 && file_end(prev.last()) > usize::MAX {
        Err(YcdError::DigitPositionOverflow)
    } else if prev.len() > 0 && start != file_end(prev.last()) {
        Err(YcdError::NotContiguous { expected: file_end(prev.last()) as i128, found: start as i128 })
    } else {
        Ok(FileInfo { data_offset, file_start: start as usize, file_length: length as usize })
    }
}

/// An ordered, contiguous list of files.
pub struct YcdFileList {
    infos: Vec<FileInfo>,
}

impl View for YcdFileList {
    type V = Seq<FileInfo>;

    closed spec fn view(&self) -> Seq<FileInfo> {
        self.infos@
    }
}

impl YcdFileList {
    #[verifier::type_invariant]
    spec fn inv(self) -> bool {
        infos_wf(self.infos@)
    }

    /// An empty list.
    pub fn new() -> (r: Self)
        ensures
            r@ == Seq::<FileInfo>::empty(),
    {
        proof {
            reveal(infos_wf);
        }
        YcdFileList { infos: Vec::new() }
    }

    /// The number of files.
    pub fn len(&self) -> (n: usize)
        ensures
            n == self@.len(),
    {
        self.infos.len()
    }

    /// The files, in digit order; the list is always well formed.
    pub fn infos(&self) -> (r: &Vec<FileInfo>)
        ensures
            r@ == self@,
            infos_wf(self@),
    {
        proof {
            use_type_invariant(self);
        }
        &self.infos
    }

    /// Append the file described by `meta`, checking that it continues the list.
    /// On error the list is unchanged.
    pub fn push_metadata(&mut self, meta: &YcdMetadata) -> (res: Result<(), YcdError>)
        ensures
            match spec_next_info(
                old(self)@,
                meta.spec_data_offset(),
                meta.spec_digit_start() as int,
                meta.spec_digit_length() as int,
            ) {
                Ok(fi) => res is Ok && final(self)@ == old(self)@.push(fi),
                Err(e) => res == Err::<(), YcdError>(e) && final(self)@ == old(self)@,
            },
            res is Ok ==> final(self)@.last().data_offset == meta.spec_data_offset()
                && final(self)@.last().file_start == meta.spec_digit_start()
                && final(self)@.last().file_length == meta.spec_digit_length(),
    {
        proof {
            use_type_invariant(&*self);
            reveal(infos_wf);
        }
        let start = meta.digit_start();
        let length = meta.digit_length();
        if start < 0 || start as u64 > usize::MAX as u64 {
            return Err(YcdError::PositionTooLarge);
        }
        if length < 0 || length as u64 > usize::MAX as u64 {
            return Err(YcdError::LengthOutOfRange);
        }
        let file_start = start as usize;
        let file_length = length as usize;
        let n = self.infos.len();
        if n > 0 {
            let prev = self.infos[n - 1];
            if prev.file_start > usize::MAX - prev.file_length {
                return Err(YcdError::DigitPositionOverflow);
            }
            let expected = prev.file_start + prev.file_length;
            if file_start != expected {
                return Err(YcdError::NotContiguous { expected: expected as i128, found: file_start as i128 });
            }
        }
        let fi = FileInfo { data_offset: meta.data_offset(), file_start, file_length };
        let ghost old_infos = self.infos@;
        let mut infos: Vec<FileInfo> = Vec::new();
        std::mem::swap(&mut infos, &mut self.infos);
        infos.push(fi);
        proof {
            assert(infos@ == old_infos.push(fi));
            assert forall|i: int| 0 < i < infos@.len() implies #[trigger] infos@[i].file_start
                == file_end(infos@[i - 1]) by {
                if i < old_infos.len() {
                    assert(infos@[i] == old_infos[i]);
                    assert(infos@[i - 1] == old_infos[i - 1]);
                }
            }
        }
        proof {
            reveal(infos_wf);
        }
        self.infos = infos;
        proof {
            assert forall|i: int| 0 < i < self.infos@.len() implies #[trigger] self.infos@[i].file_start
                == file_end(self.infos@[i - 1]) by {
                if i < old_infos.len() {
                    assert(self.infos@[i] == old_infos[i]);
                    assert(self.infos@[i - 1] == old_infos[i - 1]);
                }
            }
        }
        Ok(())
    }
}

/// The parts of a file's metadata that place it in a list:
/// `(data_offset, digit_start, digit_length)`.
pub open spec fn placement(m: YcdMetadata) -> (u64, int, int) {
    (m.spec_data_offset(), m.spec_digit_start() as int, m.spec_digit_length() as int)
}

/// The list built from files placed as `parts`, in order, or the first
/// reason a file does not continue it.
pub open spec fn spec_collect(parts: Seq<(u64, int, int)>) -> Result<Seq<FileInfo>, YcdError>
    decreases parts.len(),
{
    if parts.len() == 0 {
        Ok(Seq::empty())
    } else {
        match spec_collect(parts.drop_last()) {
            Err(e) => Err(e),
            Ok(prev) => match spec_next_info(prev, parts.last().0, parts.last().1, parts.last().2) {
                Ok(fi) => Ok(prev.push(fi)),
                Err(e) => Err(e),
            },
        }
    }
}

/// Collect the list of files described by `metas`, in order, stopping at
/// the first file that does not continue the list.
pub fn collect_file_infos(metas: &[YcdMetadata]) -> (res: Result<YcdFileList, YcdError>)
    ensures
        match spec_collect(metas@.map_values(|m: YcdMetadata| placement(m))) {
            Ok(s) => res matches Ok(l) && l@ == s,
            Err(e) => res matches Err(e2) && e2 == e,
        },
        res matches Ok(l) ==> l@.len() == metas@.len() && forall|i: int|
            0 <= i < metas@.len() ==> {
                &&& (#[trigger] l@[i]).data_offset == metas@[i].spec_data_offset()
                &&& l@[i].file_start == metas@[i].spec_digit_start()
                &&& l@[i].file_length == metas@[i].spec_digit_length()
            },
{
    let ghost parts = metas@.map_values(|m: YcdMetadata| placement(m));
    proof {
        lemma_collect_keeps_each_file(parts);
    }
    let mut list = YcdFileList::new();
    let mut i: usize = 0;
    proof {
        assert(parts.take(0) =~= Seq::<(u64, int, int)>::empty());
    }
    while i < metas.len()
        invariant
            i <= metas@.len(),
            parts == metas@.map_values(|m: YcdMetadata| placement(m)),
            spec_collect(parts.take(i as int)) == Ok::<Seq<FileInfo>, YcdError>(list@),
        decreases metas@.len() - i,
    {
        proof {
            assert(parts.take(i + 1).drop_last() =~= parts.take(i as int));
            assert(parts.take(i + 1).last() == placement(metas@[i as int]));
        }
        match list.push_metadata(&metas[i]) {
            Ok(()) => {},
            Err(e) => {
                proof {
                    lemma_collect_error_sticks(parts, i as int + 1);
                }
                return Err(e);
            },
        }
        i = i + 1;
    }
    proof {
        assert(parts.take(metas@.len() as int) =~= parts);
    }
    Ok(list)
}

/// Once a file fails to continue the list, the whole collection fails with
/// the same error.
pub proof fn lemma_collect_error_sticks(parts: Seq<(u64, int, int)>, k: int)
    requires
        0 <= k <= parts.len(),
        spec_collect(parts.take(k)) is Err,
    ensures
        spec_collect(parts) == spec_collect(parts.take(k)),
    decreases parts.len() - k,
{
    if k < parts.len() {
        assert(parts.take(k + 1).drop_last() =~= parts.take(k));
        lemma_collect_error_sticks(parts, k + 1);
    } else {
        assert(parts.take(k) =~= parts);
    }
}

/// A collected list has one entry per file.
pub proof fn lemma_collect_len(parts: Seq<(u64, int, int)>)
    ensures
        spec_collect(parts) matches Ok(s) ==> s.len() == parts.len(),
    decreases parts.len(),
{
    if parts.len() > 0 {
        lemma_collect_len(parts.drop_last());
    }
}

/// The smaller of two integers.
pub open spec fn min_int(a: int, b: int) -> int {
    if a <= b {
        a
    } else {
        b
    }
}

/// Why a read of `length` digits from 1-based position `start` over the list
/// `s` is refused, if it is; `empty_error` is the answer for an empty list.
pub open spec fn spec_read_check(s: Seq<FileInfo>, start: int, length: int, empty_error: YcdError) -> Result<
    (),
    YcdError,
> {
    if s.len() == 0 {
        Err(empty_error)
    } else if start == 0 {
        Err(YcdError::StartPositionZero)
    } else if length == 0 {
        Err(YcdError::LengthZero)
    } else if file_end(s.last()) > usize::MAX {
        Err(YcdError::DigitRangeEndOverflow)
    } else if start < s[0].file_start || start > file_end(s.last()) - 1 {
        Err(
            YcdError::StartOutOfRange {
                position: start as u64,
                list_start: s[0].file_start as u64,
                list_end: (file_end(s.last()) - 1) as u64,
            },
        )
    } else if start + length > usize::MAX {
        Err(YcdError::EndPositionOverflow)
    } else if start + length - 1 > file_end(s.last()) - 1 {
        Err(
            YcdError::EndOutOfRange {
                end: (start + length - 1) as u64,
                list_end: (file_end(s.last()) - 1) as u64,
            },
        )
    } else {
        Ok(())
    }
}

/// Index of the first file of `s` (from `i` on) whose last digit is at or
/// after `pos`, or `s.len()` when there is none.
pub open spec fn first_reaching(s: Seq<FileInfo>, pos: int, i: int) -> int
    decreases s.len() - i,
{
    if i < 0 || i >= s.len() {
        s.len() as int
    } else if file_end(s[i]) - 1 < pos {
        first_reaching(s, pos, i + 1)
    } else {
        i
    }
}

proof fn lemma_first_reaching(s: Seq<FileInfo>, pos: int, i: int, k: int)
    requires
        0 <= i <= k <= s.len(),
        forall|j: int| i <= j < k ==> file_end(#[trigger] s[j]) - 1 < pos,
        k < s.len() ==> file_end(s[k]) - 1 >= pos,
    ensures
        first_reaching(s, pos, i) == k,
    decreases k - i,
{
    if i < k {
        lemma_first_reaching(s, pos, i + 1, k);
    }
}

/// The part of a read that falls in one file.
#[derive(Debug, Clone, Copy, PartialEq, Eq, Structural)]
pub struct ReadSegment {
    /// Index of the file in the list.
    pub file_index: usize,
    /// 0-based digit offset within the file where the segment starts.
    pub local_start: usize,
    /// Number of digits taken from this file.
    pub to_take: usize,
    /// 0-based index of the first 8-byte block to read.
    pub block_index: usize,
    /// Digits to skip at the start of the first decoded block.
    pub offset_in_block: usize,
    /// Number of blocks that cover the segment.
    pub blocks_to_read: usize,
    /// Byte offset in the file of the first block to read.
    pub seek_pos: u64,
}

/// The segment that takes `take` digits from file `file` (described by `fi`)
/// starting at its 0-based digit offset `local`.
pub open spec fn make_segment(fi: FileInfo, file: int, local: int, take: int) -> ReadSegment {
    ReadSegment {
        file_index: file as usize,
        local_start: local as usize,
        to_take: take as usize,
        block_index: (local / 19) as usize,
        offset_in_block: (local % 19) as usize,
        blocks_to_read: blocks_for(local % 19 + take) as usize,
        seek_pos: (fi.data_offset + (local / 19) * 8) as u64,
    }
}

/// Whether the byte offset of a segment's first block overflows `u64`.
pub open spec fn seek_overflows(s: Seq<FileInfo>, seg: ReadSegment) -> bool {
    s[seg.file_index as int].data_offset + seg.block_index * 8 > u64::MAX
}

/// The segments that read `remaining` digits from absolute position `pos`
/// on, starting in file `f`.
pub open spec fn spec_segments(s: Seq<FileInfo>, f: int, pos: int, remaining: int) -> Seq<ReadSegment>
    decreases s.len() - f,
{
    if remaining <= 0 || f < 0 || f >= s.len() {
        Seq::empty()
    } else {
        let local = pos - s[f].file_start;
        let take = min_int(s[f].file_length - local, remaining);
        seq![make_segment(s[f], f, local, take)] + spec_segments(s, f + 1, pos + take, remaining - take)
    }
}

/// The segments of a read of `length` digits from position `start`.
pub open spec fn planned_segments(s: Seq<FileInfo>, start: int, length: int) -> Seq<ReadSegment> {
    spec_segments(s, first_reaching(s, start, 0), start, length)
}

/// Binary search for the first file whose last digit is at or after `pos`.
pub(crate) fn first_file_reaching(s: &Vec<FileInfo>, pos: usize) -> (k: usize)
    requires
        infos_wf(s@),
        s@.len() > 0,
        file_end(s@.last()) <= usize::MAX,
    ensures
        k == first_reaching(s@, pos as int, 0),
        k <= s@.len(),
        forall|j: int| 0 <= j < k ==> file_end(#[trigger] s@[j]) - 1 < pos,
        k < s@.len() ==> file_end(s@[k as int]) - 1 >= pos,
{
    let n = s.len();
    let mut lo: usize = 0;
    let mut hi: usize = n;
    while lo < hi
        invariant
            0 <= lo <= hi <= n == s@.len(),
            infos_wf(s@),
            file_end(s@.last()) <= usize::MAX,
            forall|j: int| 0 <= j < lo ==> file_end(#[trigger] s@[j]) - 1 < pos,
            forall|j: int| hi <= j < n ==> file_end(#[trigger] s@[j]) - 1 >= pos,
        decreases hi - lo,
    {
        let mid = lo + (hi - lo) / 2;
        let fi = s[mid];
        proof {
            lemma_infos_at(s@, mid as int);
            if mid + 1 < n {
                lemma_infos_ordered(s@, mid as int, n - 1);
            }
        }
        if fi.file_start + fi.file_length - 1 < pos {
            proof {
                assert forall|j: int| 0 <= j < mid + 1 implies file_end(#[trigger] s@[j]) - 1 < pos by {
                    if j < mid {
                        lemma_infos_ordered(s@, j, mid as int);
                    }
                }
            }
            lo = mid + 1;
        } else {
            proof {
                assert forall|j: int| mid <= j < n implies file_end(#[trigger] s@[j]) - 1 >= pos by {
                    if j > mid {
                        lemma_infos_ordered(s@, mid as int, j);
                    }
                }
            }
            hi = mid;
        }
    }
    proof {
        lemma_first_reaching(s@, pos as int, 0, lo as int);
    }
    lo
}

/// Compute the segments of an accepted read; stops early (with the error)
/// at the first segment whose seek offset overflows.
fn plan_segments(s: &Vec<FileInfo>, start: usize, length: usize, Ghost(empty_error): Ghost<YcdError>) -> (r: (Vec<ReadSegment>, Option<YcdError>, usize))
    requires
        infos_wf(s@),
        spec_read_check(s@, start as int, length as int, empty_error) is Ok,
    ensures
        r.0@.len() <= planned_segments(s@, start as int, length as int).len(),
        r.0@ == planned_segments(s@, start as int, length as int).take(r.0@.len() as int),
        forall|i: int| 0 <= i < r.0@.len() ==> !seek_overflows(s@, #[trigger] r.0@[i]),
        r.1 is None ==> r.0@ == planned_segments(s@, start as int, length as int),
        r.1 is Some ==> r.1 == Some(YcdError::SeekOffsetOverflow) && r.0@.len() < planned_segments(
            s@,
            start as int,
            length as int,
        ).len() && seek_overflows(s@, planned_segments(s@, start as int, length as int)[r.0@.len() as int]),
        forall|i: int| 0 <= i < r.0@.len() ==> segment_ok(#[trigger] r.0@[i]),
        r.1 is Some ==> r.2 == planned_segments(s@, start as int, length as int)[r.0@.len() as int].file_index,
{
    let n = s.len();
    let ghost planned = planned_segments(s@, start as int, length as int);
    let first = first_file_reaching(s, start);
    proof {
        if first > 0 {
            lemma_infos_at(s@, first as int);
        }
        assert(planned == Seq::<ReadSegment>::empty() + spec_segments(s@, first as int, start as int, length as int));
    }
    let mut segments: Vec<ReadSegment> = Vec::new();
    let mut f = first;
    let mut pos = start;
    let mut remaining = length;
    while f < n && remaining > 0
        invariant
            planned == planned_segments(s@, start as int, length as int),
            infos_wf(s@),
            n == s@.len(),
            n > 0,
            file_end(s@.last()) <= usize::MAX,
            pos + remaining == start + length,
            pos + remaining <= file_end(s@.last()),
            remaining > 0 ==> f < n && s@[f as int].file_start <= pos < file_end(s@[f as int]),
            planned == segments@ + spec_segments(s@, f as int, pos as int, remaining as int),
            forall|i: int| 0 <= i < segments@.len() ==> !seek_overflows(s@, #[trigger] segments@[i]),
            forall|i: int| 0 <= i < segments@.len() ==> segment_ok(#[trigger] segments@[i]),
        decreases n - f,
    {
        let fi = s[f];
        proof {
            lemma_infos_at(s@, f as int);
        }
        let local_start = pos - fi.file_start;
        let available = fi.file_length - local_start;
        let to_take = if available < remaining {
            available
        } else {
            remaining
        };
        proof {
            assert(fi.file_start + fi.file_length <= usize::MAX) by {
                if f + 1 < n {
                    lemma_infos_ordered(s@, f as int, n - 1);
                }
            }
        }
        let (block_index, offset_in_block, blocks_to_read) = compute_seek_params(local_start, to_take);
        let step = block_index as u64 * 8;
        if fi.data_offset > u64::MAX - step {
            proof {
                assert(spec_segments(s@, f as int, pos as int, remaining as int)[0] == make_segment(fi, f as int, local_start as int, to_take as int));
                assert(planned[segments@.len() as int] == spec_segments(s@, f as int, pos as int, remaining as int)[0]);
                assert(planned.len() == segments@.len() + spec_segments(s@, f as int, pos as int, remaining as int).len());
                assert(planned.take(segments@.len() as int) =~= segments@);
            }
            return (segments, Some(YcdError::SeekOffsetOverflow), f);
        }
        let seg = ReadSegment {
            file_index: f,
            local_start,
            to_take,
            block_index,
            offset_in_block,
            blocks_to_read,
            seek_pos: fi.data_offset + step,
        };
        let ghost old_segments = segments@;
        proof {
            assert(seg == make_segment(fi, f as int, local_start as int, to_take as int));
            assert(spec_segments(s@, f as int, pos as int, remaining as int) == seq![seg] + spec_segments(s@, f + 1, pos + to_take, remaining - to_take));
        }
        segments.push(seg);
        proof {
            assert(planned == segments@ + spec_segments(s@, f + 1, pos + to_take, remaining - to_take));
            if to_take < remaining {
                if f + 1 == n {
                    assert(pos + to_take == file_end(s@.last()));
                }
                lemma_infos_at(s@, f + 1);
            }
        }
        pos = pos + to_take;
        remaining = remaining - to_take;
        f = f + 1;
    }
    proof {
        assert(spec_segments(s@, f as int, pos as int, remaining as int) == Seq::<ReadSegment>::empty());
        assert(planned =~= segments@);
        assert(planned.take(segments@.len() as int) =~= segments@);
    }
    (segments, None, 0)
}

/// The shape every planned segment has: it starts inside its first block,
/// takes at least one digit, and reads just the blocks that cover it.
pub open spec fn segment_ok(seg: ReadSegment) -> bool {
    &&& seg.offset_in_block < 19
    &&& seg.to_take >= 1
    &&& seg.blocks_to_read == blocks_for(seg.offset_in_block + seg.to_take)
}

/// The digits a segment yields from the blocks read for it: past its offset
/// in the first block, at most `to_take` of them.
pub open spec fn segment_digits(seg: ReadSegment, blocks: Seq<Seq<u8>>) -> Seq<char> {
    let all = blocks_digits(blocks);
    if all.len() <= seg.offset_in_block {
        Seq::empty()
    } else {
        all.subrange(
            seg.offset_in_block as int,
            min_int(seg.offset_in_block + seg.to_take, all.len() as int),
        )
    }
}

/// The digits of a sequence of segments, each with the blocks read for it.
pub open spec fn concat_segments(segs: Seq<ReadSegment>, fed: Seq<Seq<Seq<u8>>>) -> Seq<char>
    decreases segs.len(),
{
    if segs.len() == 0 {
        Seq::empty()
    } else {
        segment_digits(segs[0], fed[0]) + concat_segments(segs.drop_first(), fed.drop_first())
    }
}

/// Adding a segment with its blocks adds that segment's digits at the end.
pub proof fn lemma_concat_segments_push(
    segs: Seq<ReadSegment>,
    fed: Seq<Seq<Seq<u8>>>,
    seg: ReadSegment,
    blocks: Seq<Seq<u8>>,
)
    requires
        segs.len() == fed.len(),
    ensures
        concat_segments(segs.push(seg), fed.push(blocks)) == concat_segments(segs, fed) + segment_digits(
            seg,
            blocks,
        ),
    decreases segs.len(),
{
    if segs.len() == 0 {
        reveal_with_fuel(concat_segments, 2);
        assert(segs.push(seg).drop_first() =~= Seq::<ReadSegment>::empty());
        assert(fed.push(blocks).drop_first() =~= Seq::<Seq<Seq<u8>>>::empty());
        assert(segs.push(seg)[0] == seg);
        assert(fed.push(blocks)[0] == blocks);
        assert(concat_segments(segs.push(seg), fed.push(blocks)) =~= segment_digits(seg, blocks));
    } else {
        assert(segs.push(seg).drop_first() =~= segs.drop_first().push(seg));
        assert(fed.push(blocks).drop_first() =~= fed.drop_first().push(blocks));
        lemma_concat_segments_push(segs.drop_first(), fed.drop_first(), seg, blocks);
        assert(concat_segments(segs.push(seg), fed.push(blocks)) =~= concat_segments(segs, fed)
            + segment_digits(seg, blocks));
    }
}

/// What starting the next segment of plan `p` does, with `q` the plan after
/// and `r` the answer: the next segment is started and returned, with no
/// block read for it yet; after the last segment, the planning error comes
/// back if there was one, and nothing otherwise. The digits do not change.
pub open spec fn segment_begun(p: ReadPlan, q: ReadPlan, r: Option<Result<ReadSegment, YcdError>>) -> bool {
    &&& q.spec_segments() == p.spec_segments()
    &&& q.spec_failure() == p.spec_failure()
    &&& q.spec_failure_file() == p.spec_failure_file()
    &&& q.spec_digits() == p.spec_digits()
    &&& p.spec_begun() < p.spec_segments().len() ==> {
        &&& r == Some(Ok::<ReadSegment, YcdError>(p.spec_segments()[p.spec_begun()]))
        &&& q.spec_begun() == p.spec_begun() + 1
        &&& q.spec_fed() == p.spec_fed().push(Seq::empty())
        &&& q.spec_wants_block()
    }
    &&& p.spec_begun() >= p.spec_segments().len() ==> {
        &&& r == match p.spec_failure() {
            Some(e) => Some(Err::<ReadSegment, YcdError>(e)),
            None => None,
        }
        &&& q.spec_begun() == p.spec_begun()
        &&& q.spec_fed() == p.spec_fed()
        &&& !q.spec_wants_block()
    }
}

/// What handing `block` to plan `p` does, with `q` the plan after and `r`
/// the answer: a block the current segment does not want is ignored; one of
/// 20 digits is refused; otherwise it joins the current segment's blocks.
pub open spec fn block_taken(p: ReadPlan, q: ReadPlan, block: Seq<u8>, r: Result<(), YcdError>) -> bool {
    &&& q.spec_segments() == p.spec_segments()
    &&& q.spec_failure() == p.spec_failure()
    &&& q.spec_failure_file() == p.spec_failure_file()
    &&& q.spec_begun() == p.spec_begun()
    &&& !p.spec_wants_block() ==> r is Ok && q.spec_fed() == p.spec_fed()
    &&& p.spec_wants_block() && block_fits(block) ==> r is Ok && q.spec_fed() == p.spec_fed().update(
        p.spec_begun() - 1,
        p.spec_fed()[p.spec_begun() - 1].push(block),
    )
    &&& p.spec_wants_block() && !block_fits(block) ==> r == Err::<(), YcdError>(YcdError::BlockTooLarge)
        && q.spec_fed() == p.spec_fed()
}

/// A planned read over a contiguous list of files, together with the digits
/// assembled so far from the blocks handed to it.
///
/// The caller walks the segments with [`ReadPlan::next_segment`], and for
/// each one reads blocks from the segment's file, starting at its seek
/// position, while [`ReadPlan::wants_block`] says so.
pub struct ReadPlan {
    segments: Vec<ReadSegment>,
    failure: Option<YcdError>,
    failure_file: usize,
    begun: usize,
    active: bool,
    skip: usize,
    taken: usize,
    blocks_done: usize,
    digits: Vec<char>,
    fed: Ghost<Seq<Seq<Seq<u8>>>>,
}

impl ReadPlan {
    /// The segments the read consists of.
    pub closed spec fn spec_segments(self) -> Seq<ReadSegment> {
        self.segments@
    }

    /// The error met while planning, reported after the last segment.
    pub closed spec fn spec_failure(self) -> Option<YcdError> {
        self.failure
    }

    /// The file whose segment met the planning error.
    pub closed spec fn spec_failure_file(self) -> usize {
        self.failure_file
    }

    /// The file the next call of [`ReadPlan::next_segment`] concerns: that of
    /// the next segment, or after the last one that of the segment that met
    /// the planning error; none when the plan is done.
    pub open spec fn spec_next_file(self) -> Option<usize> {
        if self.spec_begun() < self.spec_segments().len() {
            Some(self.spec_segments()[self.spec_begun()].file_index)
        } else if self.spec_failure() is Some {
            Some(self.spec_failure_file())
        } else {
            None
        }
    }

    /// How many segments have been started.
    pub closed spec fn spec_begun(self) -> int {
        self.begun as int
    }

    /// The blocks handed over for each started segment.
    pub closed spec fn spec_fed(self) -> Seq<Seq<Seq<u8>>> {
        self.fed@
    }

    /// The digits assembled so far.
    pub closed spec fn spec_digits(self) -> Seq<char> {
        self.digits@
    }

    /// Whether the current segment still needs a block.
    pub closed spec fn spec_wants_block(self) -> bool {
        &&& self.active
        &&& self.blocks_done < self.segments@[self.begun - 1].blocks_to_read
        &&& self.taken < self.segments@[self.begun - 1].to_take
    }

    /// The plan's internal consistency.
    pub closed spec fn wf(self) -> bool {
        &&& self.begun <= self.segments@.len()
        &&& self.fed@.len() == self.begun
        &&& forall|i: int| 0 <= i < self.segments@.len() ==> segment_ok(#[trigger] self.segments@[i])
        &&& self.digits@ == concat_segments(self.segments@.take(self.begun as int), self.fed@)
        &&& self.active ==> {
            let i = self.begun - 1;
            let seg = self.segments@[i];
            let blocks = self.fed@[i];
            &&& self.begun > 0
            &&& self.blocks_done == blocks.len()
            &&& self.blocks_done <= seg.blocks_to_read
            &&& self.taken == segment_digits(seg, blocks).len()
            &&& self.taken <= seg.to_take
            &&& self.skip == (if self.blocks_done == 0 {
                seg.offset_in_block
            } else {
                0
            })
            &&& self.blocks_done > 0 ==> self.taken == min_int(
                19 * self.blocks_done - seg.offset_in_block,
                seg.to_take as int,
            )
        }
    }

    /// What the plan's state says of its digits.
    pub proof fn lemma_digits(self)
        requires
            self.wf(),
        ensures
            self.spec_begun() <= self.spec_segments().len(),
            self.spec_fed().len() == self.spec_begun(),
            self.spec_digits() == concat_segments(
                self.spec_segments().take(self.spec_begun()),
                self.spec_fed(),
            ),
            forall|i: int|
                0 <= i < self.spec_segments().len() ==> segment_ok(#[trigger] self.spec_segments()[i]),
    {
    }

    fn from_segments(segments: Vec<ReadSegment>, failure: Option<YcdError>, failure_file: usize) -> (p: Self)
        requires
            forall|i: int| 0 <= i < segments@.len() ==> segment_ok(#[trigger] segments@[i]),
        ensures
            p.wf(),
            p.spec_segments() == segments@,
            p.spec_failure() == failure,
            p.spec_failure_file() == failure_file,
            p.spec_begun() == 0,
            p.spec_digits() == Seq::<char>::empty(),
    {
        let p = ReadPlan {
            segments,
            failure,
            failure_file,
            begun: 0,
            active: false,
            skip: 0,
            taken: 0,
            blocks_done: 0,
            digits: Vec::new(),
            fed: Ghost(Seq::empty()),
        };
        assert(p.segments@.take(0) =~= Seq::<ReadSegment>::empty());
        p
    }

    /// Start the next segment and return it; after the last segment, return
    /// the planning error if there was one, and `None` otherwise.
    pub fn next_segment(&mut self) -> (r: Option<Result<ReadSegment, YcdError>>)
        requires
            old(self).wf(),
        ensures
            final(self).wf(),
            segment_begun(*old(self), *final(self), r),
    {
        self.active = false;
        if self.begun < self.segments.len() {
            let seg = self.segments[self.begun];
            let ghost old_segs = self.segments@.take(self.begun as int);
            let ghost old_fed = self.fed@;
            proof {
                assert(segment_ok(self.segments@[self.begun as int]));
                lemma_concat_segments_push(old_segs, old_fed, seg, Seq::empty());
                assert(self.segments@.take(self.begun + 1) =~= old_segs.push(seg));
                assert(blocks_digits(Seq::<Seq<u8>>::empty()) =~= Seq::<char>::empty());
            }
            self.begun = self.begun + 1;
            self.active = true;
            self.skip = seg.offset_in_block;
            self.taken = 0;
            self.blocks_done = 0;
            self.fed = Ghost(old_fed.push(Seq::empty()));
            Some(Ok(seg))
        } else {
            match self.failure {
                Some(e) => Some(Err(e)),
                None => None,
            }
        }
    }

    /// The file the next call of [`ReadPlan::next_segment`] concerns.
    pub fn next_file(&self) -> (f: Option<usize>)
        ensures
            f == self.spec_next_file(),
    {
        if self.begun < self.segments.len() {
            Some(self.segments[self.begun].file_index)
        } else if self.failure.is_some() {
            Some(self.failure_file)
        } else {
            None
        }
    }

    /// Whether the current segment still needs a block.
    pub fn wants_block(&self) -> (b: bool)
        requires
            self.wf(),
        ensures
            b == self.spec_wants_block(),
    {
        self.active && self.blocks_done < self.segments[self.begun - 1].blocks_to_read && self.taken
            < self.segments[self.begun - 1].to_take
    }

    /// Hand over the next block of the current segment's file and add the
    /// digits it contributes. A block that decodes to more than 19 digits is
    /// refused and leaves the plan unchanged; so is a block the segment does
    /// not need.
    pub fn push_block(&mut self, block: &[u8; 8]) -> (r: Result<(), YcdError>)
        requires
            old(self).wf(),
        ensures
            final(self).wf(),
            block_taken(*old(self), *final(self), block@, r),
    {
        if !self.wants_block() {
            return Ok(());
        }
        let d = decode_block(block)?;
        let i = self.begun - 1;
        let seg = self.segments[i];
        let ghost blocks = self.fed@[i as int];
        let ghost new_blocks = blocks.push(block@);
        let skip = self.skip;
        let want = seg.to_take - self.taken;
        let can_take = if 19 - skip < want {
            19 - skip
        } else {
            want
        };
        proof {
            lemma_decimal_digits_len(block_value(block@) as nat, 19);
        }
        crate::text::append_range(&mut self.digits, d.as_slice(), skip, skip + can_take);
        proof {
            lemma_blocks_digits_len(blocks);
            lemma_blocks_digits_len(new_blocks);
            assert(new_blocks.drop_last() =~= blocks);
            assert(blocks_digits(new_blocks) == blocks_digits(blocks) + d@);
            let off = seg.offset_in_block as int;
            let all = blocks_digits(blocks);
            let all2 = blocks_digits(new_blocks);
            if blocks.len() == 0 {
                assert(all2 =~= d@);
                assert(segment_digits(seg, new_blocks) =~= d@.subrange(skip as int, (skip + can_take) as int));
            } else {
                assert(segment_digits(seg, blocks) =~= all.subrange(off, 19 * blocks.len() as int));
                assert(segment_digits(seg, new_blocks) =~= segment_digits(seg, blocks) + d@.subrange(
                    0,
                    can_take as int,
                ));
            }
            let segs = self.segments@.take(self.begun as int);
            let fed0 = self.fed@;
            assert(segs =~= segs.drop_last().push(seg));
            assert(fed0 =~= fed0.drop_last().push(blocks));
            lemma_concat_segments_push(segs.drop_last(), fed0.drop_last(), seg, blocks);
            lemma_concat_segments_push(segs.drop_last(), fed0.drop_last(), seg, new_blocks);
            assert(fed0.update(i as int, new_blocks) =~= fed0.drop_last().push(new_blocks));
        }
        self.taken = self.taken + can_take;
        self.blocks_done = self.blocks_done + 1;
        self.skip = 0;
        self.fed = Ghost(self.fed@.update(i as int, new_blocks));
        proof {
            assert(self.fed@.len() == self.begun);
            assert(self.fed@[i as int] == new_blocks);
            assert(self.digits@ == concat_segments(self.segments@.take(self.begun as int), self.fed@));
            assert(self.blocks_done == new_blocks.len());
            assert(self.taken == segment_digits(seg, new_blocks).len());
            assert(self.taken <= seg.to_take);
            assert(self.blocks_done <= seg.blocks_to_read);
            assert(self.taken == min_int(19 * self.blocks_done - seg.offset_in_block, seg.to_take as int));
        }
        Ok(())
    }

    /// The assembled digits.
    pub fn into_string(self) -> (s: String)
        requires
            self.wf(),
        ensures
            s@ == self.spec_digits(),
    {
        crate::text::string_from_chars(self.digits.as_slice())
    }
}

/// A plan built for reading `length` digits from `start` over the list `s`:
/// its segments are the planned ones, up to the first whose seek offset
/// overflows, which is then its failure.
pub open spec fn plan_for(p: ReadPlan, s: Seq<FileInfo>, start: int, length: int) -> bool {
    let planned = planned_segments(s, start, length);
    let n = p.spec_segments().len();
    &&& n <= planned.len()
    &&& p.spec_segments() == planned.take(n as int)
    &&& forall|i: int| 0 <= i < n ==> !seek_overflows(s, #[trigger] p.spec_segments()[i])
    &&& p.spec_failure() is None ==> p.spec_segments() == planned
    &&& p.spec_failure() is Some ==> {
        &&& p.spec_failure() == Some(YcdError::SeekOffsetOverflow)
        &&& p.spec_failure_file() == planned[n as int].file_index
        &&& n < planned.len()
        &&& seek_overflows(s, planned[n as int])
    }
}

/// Check a read request before any file is looked at: a non-empty list, a
/// start position of at least 1, and at least one digit.
pub fn check_read_request(file_count: usize, start: usize, length: usize) -> (res: Result<(), YcdError>)
    ensures
        file_count == 0 ==> res == Err::<(), YcdError>(YcdError::NoFiles),
        file_count > 0 && start == 0 ==> res == Err::<(), YcdError>(YcdError::StartPositionZero),
        file_count > 0 && start > 0 && length == 0 ==> res == Err::<(), YcdError>(YcdError::LengthZero),
        file_count > 0 && start > 0 && length > 0 ==> res is Ok,
{
    if file_count == 0 {
        return Err(YcdError::NoFiles);
    }
    if start == 0 {
        return Err(YcdError::StartPositionZero);
    }
    if length == 0 {
        return Err(YcdError::LengthZero);
    }
    Ok(())
}

/// Validate a read over a well-formed list and plan it.
pub(crate) fn plan_over(s: &Vec<FileInfo>, start: usize, length: usize, empty_error: YcdError) -> (res: Result<ReadPlan, YcdError>)
    requires
        infos_wf(s@),
    ensures
        match spec_read_check(s@, start as int, length as int, empty_error) {
            Err(e) => res == Err::<ReadPlan, YcdError>(e),
            Ok(_) => res matches Ok(p) && p.wf() && plan_for(p, s@, start as int, length as int)
                && p.spec_begun() == 0 && p.spec_digits() == Seq::<char>::empty(),
        },
{
    let n = s.len();
    if n == 0 {
        return Err(empty_error);
    }
    if start == 0 {
        return Err(YcdError::StartPositionZero);
    }
    if length == 0 {
        return Err(YcdError::LengthZero);
    }
    let list_start = s[0].file_start;
    let last = s[n - 1];
    if last.file_start > usize::MAX - last.file_length {
        return Err(YcdError::DigitRangeEndOverflow);
    }
    proof {
        lemma_infos_at(s@, n - 1);
    }
    let list_end = last.file_start + last.file_length - 1;
    if start < list_start || start > list_end {
        return Err(
            YcdError::StartOutOfRange {
                position: start as u64,
                list_start: list_start as u64,
                list_end: list_end as u64,
            },
        );
    }
    if start > usize::MAX - length {
        return Err(YcdError::EndPositionOverflow);
    }
    let end_position = start + length - 1;
    if end_position > list_end {
        return Err(YcdError::EndOutOfRange { end: end_position as u64, list_end: list_end as u64 });
    }
    let (segments, failure, failure_file) = plan_segments(s, start, length, Ghost(empty_error));
    let p = ReadPlan::from_segments(segments, failure, failure_file);
    Ok(p)
}

impl YcdFileList {
    /// Validate a read of `length` digits from 1-based position `start` and plan it.
    ///
    /// Refused when the list is empty, `start` is 0, `length` is 0, the last
    /// position overflows, `start` lies outside the list's range, or the range
    /// ends after it (see [`spec_read_check`]).
    pub fn plan_read(&self, start: usize, length: usize) -> (res: Result<ReadPlan, YcdError>)
        ensures
            match spec_read_check(self@, start as int, length as int, YcdError::NoFiles) {
                Err(e) => res == Err::<ReadPlan, YcdError>(e),
                Ok(_) => res matches Ok(p) && p.wf() && plan_for(p, self@, start as int, length as int)
                    && p.spec_begun() == 0 && p.spec_digits() == Seq::<char>::empty(),
            },
    {
        let infos = self.infos();
        plan_over(infos, start, length, YcdError::NoFiles)
    }
}

/// The digits of the files of `s` from file `f` on, each with its payload.
pub open spec fn set_digits(payloads: Seq<Seq<u8>>, s: Seq<FileInfo>, f: int) -> Seq<char>
    decreases s.len() - f,
{
    if f < 0 || f >= s.len() {
        Seq::empty()
    } else {
        file_digits(payloads[f], s[f].file_length as int) + set_digits(payloads, s, f + 1)
    }
}

/// Whether a payload holds all the blocks a file of `length` digits needs.
pub open spec fn payload_holds(payload: Seq<u8>, length: int) -> bool {
    payload.len() >= 8 * blocks_for(length)
}

/// Whether every file of `s` has its payload in `payloads`, complete.
pub open spec fn payloads_hold(payloads: Seq<Seq<u8>>, s: Seq<FileInfo>) -> bool {
    &&& payloads.len() == s.len()
    &&& forall|g: int| 0 <= g < s.len() ==> payload_holds(#[trigger] payloads[g], s[g].file_length as int)
}

/// The blocks a segment reads from its file's payload.
pub open spec fn segment_blocks(payloads: Seq<Seq<u8>>, seg: ReadSegment) -> Seq<Seq<u8>> {
    payload_blocks(payloads[seg.file_index as int], seg.block_index as int, seg.blocks_to_read as int)
}

proof fn lemma_file_digits_len(payload: Seq<u8>, length: int)
    requires
        length >= 0,
    ensures
        file_digits(payload, length).len() == length,
{
    lemma_blocks_digits_len(payload_blocks(payload, 0, blocks_for(length)));
    assert(19 * blocks_for(length) >= length) by (nonlinear_arith)
        requires
            length >= 0,
    ;
}

proof fn lemma_set_digits_len(payloads: Seq<Seq<u8>>, s: Seq<FileInfo>, f: int)
    requires
        infos_wf(s),
        0 <= f < s.len(),
    ensures
        set_digits(payloads, s, f).len() == file_end(s.last()) - s[f].file_start,
    decreases s.len() - f,
{
    lemma_infos_at(s, f);
    lemma_file_digits_len(payloads[f], s[f].file_length as int);
    let fd = file_digits(payloads[f], s[f].file_length as int);
    assert(set_digits(payloads, s, f) == fd + set_digits(payloads, s, f + 1));
    if f + 1 < s.len() {
        lemma_infos_at(s, f + 1);
        lemma_set_digits_len(payloads, s, f + 1);
    } else {
        assert(set_digits(payloads, s, f + 1) == Seq::<char>::empty());
        assert(s.last() == s[f]);
    }
}

/// Reading a segment's blocks from a complete payload yields exactly the
/// file's digits at the segment's offsets.
proof fn lemma_segment_matches(fi: FileInfo, f: int, payload: Seq<u8>, local: int, take: int)
    requires
        0 <= local,
        take >= 1,
        local + take <= fi.file_length,
        payload_holds(payload, fi.file_length as int),
    ensures
        segment_digits(
            make_segment(fi, f, local, take),
            payload_blocks(payload, local / 19, blocks_for(local % 19 + take)),
        ) == file_digits(payload, fi.file_length as int).subrange(local, local + take),
{
    let length = fi.file_length as int;
    let bi = local / 19;
    let off = local % 19;
    let btr = blocks_for(off + take);
    let nb = blocks_for(length);
    assert(local == 19 * bi + off && 0 <= off < 19) by (nonlinear_arith)
        requires
            local >= 0,
            bi == local / 19,
            off == local % 19,
    ;
    assert(btr >= 1 && 19 * btr >= off + take && bi + btr <= nb) by (nonlinear_arith)
        requires
            btr == (off + take + 18) / 19,
            nb == (length + 18) / 19,
            local == 19 * bi + off,
            0 <= off < 19,
            take >= 1,
            local + take <= length,
            bi >= 0,
    ;
    let all = payload_blocks(payload, 0, nb);
    let a = payload_blocks(payload, 0, bi);
    let b = payload_blocks(payload, bi, btr);
    let c = payload_blocks(payload, bi + btr, nb - bi - btr);
    assert(all =~= a + b + c);
    lemma_blocks_digits_concat(a + b, c);
    lemma_blocks_digits_concat(a, b);
    lemma_blocks_digits_len(a);
    lemma_blocks_digits_len(b);
    lemma_blocks_digits_len(c);
    let da = blocks_digits(a);
    let db = blocks_digits(b);
    let dc = blocks_digits(c);
    assert(blocks_digits(all) == da + db + dc);
    assert(blocks_digits(all).take(length).subrange(local, local + take) =~= db.subrange(off, off + take));
    let seg = make_segment(fi, f, local, take);
    assert(seg.offset_in_block == off);
    assert(seg.to_take == take);
    assert(segment_digits(seg, b) =~= db.subrange(off, off + take));
}

#[verifier::spinoff_prover]
#[verifier::rlimit(50)]
proof fn lemma_segments_read(
    s: Seq<FileInfo>,
    payloads: Seq<Seq<u8>>,
    f: int,
    pos: int,
    remaining: int,
    fed: Seq<Seq<Seq<u8>>>,
)
    requires
        infos_wf(s),
        payloads_hold(payloads, s),
        remaining >= 1,
        s.len() <= usize::MAX,
        0 <= f < s.len(),
        s[f].file_start <= pos < file_end(s[f]),
        pos + remaining <= file_end(s.last()),
        fed.len() == spec_segments(s, f, pos, remaining).len(),
        forall|i: int|
            0 <= i < fed.len() ==> #[trigger] fed[i] == segment_blocks(
                payloads,
                spec_segments(s, f, pos, remaining)[i],
            ),
    ensures
        concat_segments(spec_segments(s, f, pos, remaining), fed) == set_digits(payloads, s, f).subrange(
            pos - s[f].file_start,
            pos - s[f].file_start + remaining,
        ),
    decreases s.len() - f,
{
    let segs = spec_segments(s, f, pos, remaining);
    let fi = s[f];
    let local = pos - fi.file_start;
    let take = min_int(fi.file_length - local, remaining);
    let seg = make_segment(fi, f, local, take);
    let rest = spec_segments(s, f + 1, pos + take, remaining - take);
    assert(segs == seq![seg] + rest);
    assert(segs[0] == seg);
    assert(segs.drop_first() =~= rest);
    lemma_infos_at(s, f);
    assert(fed[0] == segment_blocks(payloads, seg));
    assert(payload_holds(payloads[f], fi.file_length as int));
    assert(0 <= take <= fi.file_length);
    assert(0 <= local / 19 <= local);
    assert(blocks_for(local % 19 + take) <= local % 19 + take + 1);
    assert(seg.file_index as int == f);
    assert(seg.block_index as int == local / 19);
    assert(seg.blocks_to_read as int == blocks_for(local % 19 + take));
    assert(seg.to_take as int == take);
    assert(segment_blocks(payloads, seg) == payload_blocks(payloads[f], local / 19, blocks_for(local % 19 + take)));
    lemma_segment_matches(fi, f, payloads[f], local, take);
    let fd = file_digits(payloads[f], fi.file_length as int);
    lemma_file_digits_len(payloads[f], fi.file_length as int);
    let sd = set_digits(payloads, s, f);
    lemma_set_digits_len(payloads, s, f);
    assert(concat_segments(segs, fed) == segment_digits(seg, fed[0]) + concat_segments(rest, fed.drop_first()));
    if take == remaining {
        assert(rest == Seq::<ReadSegment>::empty());
        assert(concat_segments(rest, fed.drop_first()) == Seq::<char>::empty());
        assert(concat_segments(segs, fed) =~= segment_digits(seg, fed[0]));
        assert(sd.subrange(local, local + remaining) =~= fd.subrange(local, local + take));
    } else {
        assert(take == fi.file_length - local);
        if f + 1 == s.len() {
            assert(pos + take == file_end(s.last()));
        }
        lemma_infos_at(s, f + 1);
        assert(s[f + 1].file_start == pos + take);
        assert forall|i: int| 0 <= i < fed.drop_first().len() implies #[trigger] fed.drop_first()[i]
            == segment_blocks(payloads, rest[i]) by {
            assert(fed.drop_first()[i] == fed[i + 1]);
            assert(rest[i] == segs[i + 1]);
        }
        lemma_segments_read(s, payloads, f + 1, pos + take, remaining - take, fed.drop_first());
        let sd2 = set_digits(payloads, s, f + 1);
        lemma_set_digits_len(payloads, s, f + 1);
        assert(sd == fd + sd2);
        assert(sd.subrange(local, local + remaining) =~= fd.subrange(local, local + take) + sd2.subrange(
            0,
            remaining - take,
        ));
    }
}

proof fn lemma_first_reaching_props(s: Seq<FileInfo>, pos: int, i: int)
    requires
        0 <= i <= s.len(),
    ensures
        i <= first_reaching(s, pos, i) <= s.len(),
        forall|j: int| i <= j < first_reaching(s, pos, i) ==> file_end(#[trigger] s[j]) - 1 < pos,
        first_reaching(s, pos, i) < s.len() ==> file_end(s[first_reaching(s, pos, i)]) - 1 >= pos,
    decreases s.len() - i,
{
    if i < s.len() && file_end(s[i]) - 1 < pos {
        lemma_first_reaching_props(s, pos, i + 1);
    }
}

/// Reading digits through a plan returns exactly the requested digits.
///
/// For every accepted request of `length` digits from 1-based position
/// `start` over a contiguous list of files `s`, where `payloads` are the
/// complete payloads of the files: when each planned segment is handed the
/// blocks of its own file from its block index on, the digits assembled are
/// the digits at positions `start .. start + length` of the files' digits
/// laid end to end (the first file's first digit being at `s[0].file_start`),
/// and there are exactly `length` of them.
pub proof fn lemma_read_digits_correct(
    s: Seq<FileInfo>,
    payloads: Seq<Seq<u8>>,
    start: int,
    length: int,
    fed: Seq<Seq<Seq<u8>>>,
)
    requires
        infos_wf(s),
        payloads_hold(payloads, s),
        0 <= start,
        0 <= length,
        s.len() <= usize::MAX,
        spec_read_check(s, start, length, YcdError::NoFiles) is Ok,
        fed.len() == planned_segments(s, start, length).len(),
        forall|i: int|
            0 <= i < fed.len() ==> #[trigger] fed[i] == segment_blocks(
                payloads,
                planned_segments(s, start, length)[i],
            ),
    ensures
        concat_segments(planned_segments(s, start, length), fed) == set_digits(payloads, s, 0).subrange(
            start - s[0].file_start,
            start - s[0].file_start + length,
        ),
        concat_segments(planned_segments(s, start, length), fed).len() == length,
{
    lemma_first_reaching_props(s, start, 0);
    let f = first_reaching(s, start, 0);
    lemma_infos_at(s, 0);
    if f == s.len() {
        assert(file_end(s[s.len() - 1]) - 1 < start);
    }
    lemma_infos_at(s, f);
    if f > 0 {
        assert(file_end(s[f - 1]) - 1 < start);
    }
    lemma_segments_read(s, payloads, f, start, length, fed);
    lemma_set_digits_len(payloads, s, 0);
    lemma_set_digits_len(payloads, s, f);
    if f > 0 {
        lemma_set_digits_prefix(payloads, s, 0, f);
        lemma_infos_ordered(s, 0, f);
        let sd0 = set_digits(payloads, s, 0);
        let k = s[f].file_start - s[0].file_start;
        assert(0 <= k <= sd0.len());
        assert(sd0.skip(k).len() == sd0.len() - k);
        assert(start - s[f].file_start + length <= sd0.len() - k);
        assert(set_digits(payloads, s, f).subrange(start - s[f].file_start, start - s[f].file_start + length)
            =~= set_digits(payloads, s, 0).subrange(start - s[0].file_start, start - s[0].file_start + length));
    } else {
        assert(set_digits(payloads, s, f).subrange(start - s[f].file_start, start - s[f].file_start + length)
            == set_digits(payloads, s, 0).subrange(start - s[0].file_start, start - s[0].file_start + length));
    }
}

/// The digits from file `f` on are those from file `g` on, past the files in between.
proof fn lemma_set_digits_prefix(payloads: Seq<Seq<u8>>, s: Seq<FileInfo>, g: int, f: int)
    requires
        infos_wf(s),
        0 <= g <= f < s.len(),
    ensures
        set_digits(payloads, s, f) == set_digits(payloads, s, g).skip(s[f].file_start - s[g].file_start),
    decreases f - g,
{
    lemma_set_digits_len(payloads, s, g);
    if g == f {
        assert(set_digits(payloads, s, g).skip(0) =~= set_digits(payloads, s, g));
    } else {
        lemma_set_digits_prefix(payloads, s, g + 1, f);
        lemma_infos_at(s, g);
        lemma_infos_at(s, g + 1);
        lemma_file_digits_len(payloads[g], s[g].file_length as int);
        lemma_set_digits_len(payloads, s, g + 1);
        assert(set_digits(payloads, s, g) == file_digits(payloads[g], s[g].file_length as int) + set_digits(payloads, s, g + 1));
        if g + 1 < f {
            lemma_infos_ordered(s, g + 1, f);
        }
        lemma_set_digits_len(payloads, s, f);
        lemma_infos_at(s, f);
        assert(s[f].file_start >= s[g + 1].file_start);
        assert(set_digits(payloads, s, g).skip(s[f].file_start - s[g].file_start) =~= set_digits(
            payloads,
            s,
            g + 1,
        ).skip(s[f].file_start - s[g + 1].file_start));
    }
}

/// A plan that has been walked to its end, with each segment handed the
/// blocks of its file, holds the requested digits.
pub proof fn lemma_plan_reads_payloads(
    p: ReadPlan,
    s: Seq<FileInfo>,
    payloads: Seq<Seq<u8>>,
    start: int,
    length: int,
)
    requires
        p.wf(),
        infos_wf(s),
        plan_for(p, s, start, length),
        0 <= start,
        0 <= length,
        s.len() <= usize::MAX,
        spec_read_check(s, start, length, YcdError::NoFiles) is Ok,
        payloads_hold(payloads, s),
        p.spec_failure() is None,
        p.spec_begun() == p.spec_segments().len(),
        forall|i: int|
            0 <= i < p.spec_begun() ==> #[trigger] p.spec_fed()[i] == segment_blocks(
                payloads,
                p.spec_segments()[i],
            ),
    ensures
        p.spec_digits() == set_digits(payloads, s, 0).subrange(
            start - s[0].file_start,
            start - s[0].file_start + length,
        ),
        p.spec_digits().len() == length,
{
    p.lemma_digits();
    assert(p.spec_segments().take(p.spec_begun()) =~= p.spec_segments());
    lemma_read_digits_correct(s, payloads, start, length, p.spec_fed());
}


/// Whether segment `seg` of a read over the list `s` takes only digits of the
/// range `pos .. pos + n`, all of them inside its own file.
pub open spec fn segment_within(s: Seq<FileInfo>, seg: ReadSegment, pos: int, n: int) -> bool {
    let f = seg.file_index as int;
    let abs = s[f].file_start + seg.local_start;
    &&& 0 <= f < s.len()
    &&& pos <= abs
    &&& abs + seg.to_take <= pos + n
    &&& seg.local_start + seg.to_take <= s[f].file_length
}

proof fn lemma_segments_placed(s: Seq<FileInfo>, f: int, pos: int, remaining: int)
    requires
        infos_wf(s),
        s.len() <= usize::MAX,
        0 <= f < s.len(),
        s[f].file_start <= pos < file_end(s[f]),
        remaining >= 1,
        pos + remaining <= file_end(s.last()),
    ensures
        forall|i: int|
            0 <= i < spec_segments(s, f, pos, remaining).len() ==> {
                &&& segment_within(s, #[trigger] spec_segments(s, f, pos, remaining)[i], pos, remaining)
                &&& spec_segments(s, f, pos, remaining)[i].file_index == f + i
            },
    decreases s.len() - f,
{
    let segs = spec_segments(s, f, pos, remaining);
    let fi = s[f];
    let local = pos - fi.file_start;
    let take = min_int(fi.file_length - local, remaining);
    let seg = make_segment(fi, f, local, take);
    let rest = spec_segments(s, f + 1, pos + take, remaining - take);
    assert(segs == seq![seg] + rest);
    lemma_infos_at(s, f);
    if take < remaining {
        assert(take == fi.file_length - local);
        if f + 1 == s.len() {
            assert(pos + take == file_end(s.last()));
        }
        lemma_infos_at(s, f + 1);
        lemma_segments_placed(s, f + 1, pos + take, remaining - take);
    } else {
        assert(rest == Seq::<ReadSegment>::empty());
    }
    assert forall|i: int| 0 <= i < segs.len() implies {
        &&& segment_within(s, #[trigger] segs[i], pos, remaining)
        &&& segs[i].file_index == f + i
    } by {
        if i == 0 {
            assert(segs[0] == seg);
        } else {
            assert(segs[i] == rest[i - 1]);
            assert(segment_within(s, rest[i - 1], pos + take, remaining - take));
        }
    }
}

/// A read touches only the files that hold requested digits: every planned
/// segment takes digits of the requested range only, from inside its own
/// file, and the segments' files are consecutive, from the first file that
/// reaches the start position on. (With each segment taking at least one
/// digit, no file outside the range is ever read.)
pub proof fn lemma_read_touches_only_needed_files(s: Seq<FileInfo>, start: int, length: int)
    requires
        infos_wf(s),
        s.len() <= usize::MAX,
        0 <= start,
        0 <= length,
        spec_read_check(s, start, length, YcdError::NoFiles) is Ok,
    ensures
        forall|i: int|
            0 <= i < planned_segments(s, start, length).len() ==> {
                &&& segment_within(s, #[trigger] planned_segments(s, start, length)[i], start, length)
                &&& planned_segments(s, start, length)[i].file_index == first_reaching(s, start, 0) + i
            },
{
    lemma_first_reaching_props(s, start, 0);
    let f = first_reaching(s, start, 0);
    lemma_infos_at(s, 0);
    if f == s.len() {
        assert(file_end(s[s.len() - 1]) - 1 < start);
    }
    lemma_infos_at(s, f);
    if f > 0 {
        assert(file_end(s[f - 1]) - 1 < start);
    }
    lemma_segments_placed(s, f, start, length);
}


/// A read depends only on the files it touches: two sets of payloads that
/// agree on every file a planned segment reads give the same digits.
pub proof fn lemma_read_depends_only_on_touched_files(
    s: Seq<FileInfo>,
    p1: Seq<Seq<u8>>,
    p2: Seq<Seq<u8>>,
    start: int,
    length: int,
)
    requires
        infos_wf(s),
        s.len() <= usize::MAX,
        0 <= start,
        0 <= length,
        spec_read_check(s, start, length, YcdError::NoFiles) is Ok,
        payloads_hold(p1, s),
        payloads_hold(p2, s),
        forall|i: int|
            0 <= i < planned_segments(s, start, length).len() ==> p1[(#[trigger] planned_segments(
                s,
                start,
                length,
            )[i]).file_index as int] == p2[planned_segments(s, start, length)[i].file_index as int],
    ensures
        set_digits(p1, s, 0).subrange(start - s[0].file_start, start - s[0].file_start + length) == set_digits(
            p2,
            s,
            0,
        ).subrange(start - s[0].file_start, start - s[0].file_start + length),
{
    let planned = planned_segments(s, start, length);
    let fed = Seq::new(planned.len(), |i: int| segment_blocks(p1, planned[i]));
    assert forall|i: int| 0 <= i < fed.len() implies #[trigger] fed[i] == segment_blocks(p2, planned[i]) by {
        assert(p1[planned[i].file_index as int] == p2[planned[i].file_index as int]);
    }
    lemma_read_digits_correct(s, p1, start, length, fed);
    lemma_read_digits_correct(s, p2, start, length, fed);
}

/// Where the boundaries between files fall does not matter: two lists that
/// cover the same positions with the same digits laid end to end accept and
/// refuse the same reads, and give the same digits for each.
pub proof fn lemma_read_ignores_file_boundaries(
    s1: Seq<FileInfo>,
    p1: Seq<Seq<u8>>,
    s2: Seq<FileInfo>,
    p2: Seq<Seq<u8>>,
    start: int,
    length: int,
    empty_error: YcdError,
)
    requires
        s1.len() > 0,
        s2.len() > 0,
        s1[0].file_start == s2[0].file_start,
        file_end(s1.last()) == file_end(s2.last()),
        set_digits(p1, s1, 0) == set_digits(p2, s2, 0),
    ensures
        spec_read_check(s1, start, length, empty_error) == spec_read_check(s2, start, length, empty_error),
        set_digits(p1, s1, 0).subrange(start - s1[0].file_start, start - s1[0].file_start + length)
            == set_digits(p2, s2, 0).subrange(start - s2[0].file_start, start - s2[0].file_start + length),
{
}

/// A read splits in two: when `a + b` digits from `start` can be read, so
/// can `a` digits from `start` and `b` digits from `start + a`, and the
/// digits of the whole are those of the first part followed by those of the
/// second.
pub proof fn lemma_read_splits(s: Seq<FileInfo>, payloads: Seq<Seq<u8>>, start: int, a: int, b: int)
    requires
        infos_wf(s),
        0 <= start,
        a >= 1,
        b >= 1,
        spec_read_check(s, start, a + b, YcdError::NoFiles) is Ok,
    ensures
        spec_read_check(s, start, a, YcdError::NoFiles) is Ok,
        spec_read_check(s, start + a, b, YcdError::NoFiles) is Ok,
        ({
            let d = set_digits(payloads, s, 0);
            let x = start - s[0].file_start;
            d.subrange(x, x + a + b) == d.subrange(x, x + a) + d.subrange(x + a, x + a + b)
        }),
{
    lemma_set_digits_len(payloads, s, 0);
    let d = set_digits(payloads, s, 0);
    let x = start - s[0].file_start;
    assert(d.subrange(x, x + a + b) =~= d.subrange(x, x + a) + d.subrange(x + a, x + a + b));
}


/// Collecting a list keeps each file's own place: entry `i` of a collected
/// list records the data offset, first digit position and digit length of
/// file `i`, and of no other file.
pub proof fn lemma_collect_keeps_each_file(parts: Seq<(u64, int, int)>)
    ensures
        spec_collect(parts) matches Ok(s) ==> {
            &&& s.len() == parts.len()
            &&& forall|i: int|
                0 <= i < parts.len() ==> {
                    &&& (#[trigger] s[i]).data_offset == parts[i].0
                    &&& s[i].file_start == parts[i].1
                    &&& s[i].file_length == parts[i].2
                }
        },
    decreases parts.len(),
{
    if parts.len() > 0 {
        lemma_collect_keeps_each_file(parts.drop_last());
        if let Ok(s) = spec_collect(parts) {
            let prev = spec_collect(parts.drop_last())->Ok_0;
            let fi = spec_next_info(prev, parts.last().0, parts.last().1, parts.last().2)->Ok_0;
            assert(s == prev.push(fi));
            assert forall|i: int| 0 <= i < parts.len() implies {
                &&& (#[trigger] s[i]).data_offset == parts[i].0
                &&& s[i].file_start == parts[i].1
                &&& s[i].file_length == parts[i].2
            } by {
                if i < parts.len() - 1 {
                    assert(s[i] == prev[i]);
                    assert(parts[i] == parts.drop_last()[i]);
                } else {
                    assert(s[i] == fi);
                }
            }
        }
    }
}

/// Every segment whose seek offset fits reads its own file's payload: it
/// seeks to that file's data offset plus 8 bytes for each block before the
/// one holding its first digit.
pub proof fn lemma_segments_seek_their_own_file(s: Seq<FileInfo>, start: int, length: int)
    requires
        infos_wf(s),
        s.len() <= usize::MAX,
        0 <= start,
        0 <= length,
        spec_read_check(s, start, length, YcdError::NoFiles) is Ok,
    ensures
        forall|i: int|
            0 <= i < planned_segments(s, start, length).len() && !seek_overflows(
                s,
                #[trigger] planned_segments(s, start, length)[i],
            ) ==> {
                let seg = planned_segments(s, start, length)[i];
                &&& seg.seek_pos == s[seg.file_index as int].data_offset + 8 * seg.block_index
                &&& seg.block_index == seg.local_start / 19
                &&& seg.offset_in_block == seg.local_start % 19
            },
{
    lemma_read_touches_only_needed_files(s, start, length);
    lemma_first_reaching_props(s, start, 0);
    let f = first_reaching(s, start, 0);
    lemma_infos_at(s, 0);
    if f == s.len() {
        assert(file_end(s[s.len() - 1]) - 1 < start);
    }
    lemma_infos_at(s, f);
    if f > 0 {
        assert(file_end(s[f - 1]) - 1 < start);
    }
    lemma_segments_shape(s, f, start, length);
}

proof fn lemma_segments_shape(s: Seq<FileInfo>, f: int, pos: int, remaining: int)
    requires
        infos_wf(s),
        s.len() <= usize::MAX,
        0 <= f < s.len(),
        s[f].file_start <= pos < file_end(s[f]),
        remaining >= 1,
        pos + remaining <= file_end(s.last()),
    ensures
        forall|i: int|
            0 <= i < spec_segments(s, f, pos, remaining).len() && !seek_overflows(
                s,
                #[trigger] spec_segments(s, f, pos, remaining)[i],
            ) ==> {
                let seg = spec_segments(s, f, pos, remaining)[i];
                &&& seg.seek_pos == s[seg.file_index as int].data_offset + 8 * seg.block_index
                &&& seg.block_index == seg.local_start / 19
                &&& seg.offset_in_block == seg.local_start % 19
            },
    decreases s.len() - f,
{
    let segs = spec_segments(s, f, pos, remaining);
    let fi = s[f];
    let local = pos - fi.file_start;
    let take = min_int(fi.file_length - local, remaining);
    let seg = make_segment(fi, f, local, take);
    let rest = spec_segments(s, f + 1, pos + take, remaining - take);
    assert(segs == seq![seg] + rest);
    lemma_infos_at(s, f);
    if take < remaining {
        if f + 1 == s.len() {
            assert(pos + take == file_end(s.last()));
        }
        lemma_infos_at(s, f + 1);
        lemma_segments_shape(s, f + 1, pos + take, remaining - take);
    } else {
        assert(rest == Seq::<ReadSegment>::empty());
    }
    assert forall|i: int|
        0 <= i < segs.len() && !seek_overflows(s, #[trigger] segs[i]) implies {
            &&& segs[i].seek_pos == s[segs[i].file_index as int].data_offset + 8 * segs[i].block_index
            &&& segs[i].block_index == segs[i].local_start / 19
            &&& segs[i].offset_in_block == segs[i].local_start % 19
        } by {
        if i == 0 {
            assert(segs[0] == seg);
            assert(0 <= local <= fi.file_length);
            assert(local <= usize::MAX) by {
                if f + 1 < s.len() {
                    lemma_infos_ordered(s, f, s.len() - 1);
                }
            }
        } else {
            assert(segs[i] == rest[i - 1]);
        }
    }
}

} // verus!
