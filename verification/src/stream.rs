//! Sequential reading: the state machines behind the single-file and the
//! multi-file digit streams.
//!
//! The caller owns the files. It asks a state what to do next with `step`,
//! and answers a request for a block with the next 8 bytes of the file that
//! the state names.
use vstd::prelude::*;
use crate::digits::{
    block_fits, block_digits, block_value, blocks_digits, blocks_for, decode_block, lemma_blocks_digits_len,
    lemma_blocks_digits_concat, lemma_decimal_digits_len, payload_blocks, file_digits, validate_unit_size,
};
use crate::error::YcdError;
use crate::header::YcdMetadata;
use crate::files::{
    collect_file_infos, file_end, first_file_reaching, first_reaching, lemma_collect_len, lemma_infos_at, placement,
    spec_collect,
};
use crate::text::string_from_chars;

verus! {

/// One unit of digits yielded by a stream.
///
/// All units of a stream except possibly the last hold exactly the stream's
/// unit size of digits.
#[derive(Debug, Clone, PartialEq, Eq)]
pub struct YcdProcessUnit {
    /// 1-based sequence number of this unit within its stream.
    pub process_no: i64,
    /// 1-based absolute digit position of the first digit in `value`.
    pub start_digit: i64,
    /// The decoded digits as an ASCII decimal string.
    pub value: String,
}

impl YcdProcessUnit {
    /// Create a unit from its parts.
    pub fn new(process_no: i64, start_digit: i64, value: String) -> (u: Self)
        ensures
            u.process_no == process_no,
            u.start_digit == start_digit,
            u.value == value,
    {
        YcdProcessUnit { process_no, start_digit, value }
    }
}

/// What a stream asks of its caller.
#[derive(Debug)]
pub enum SeqStep {
    /// Hand over the next 8-byte block of the file (with `push_block`).
    NeedBlock,
    /// The next unit is ready.
    Unit(YcdProcessUnit),
}

/// Where a stream that starts at an arbitrary digit position begins reading.
#[derive(Debug, Clone, Copy)]
pub struct SeqStart {
    digit_length: i64,
    digit_start: i64,
    start_position: i64,
    block_index: usize,
    offset_in_block: usize,
    seek_pos: u64,
}

impl SeqStart {
    #[verifier::type_invariant]
    spec fn inv(self) -> bool {
        &&& self.digit_start >= 1
        &&& self.digit_length >= 1
        &&& self.digit_start <= self.start_position
        &&& self.start_position <= self.digit_start + self.digit_length - 1
        &&& self.start_position - self.digit_start == 19 * self.block_index + self.offset_in_block
        &&& self.offset_in_block < 19
        &&& self.start_position - self.digit_start <= usize::MAX
    }

    pub closed spec fn spec_digit_length(self) -> i64 {
        self.digit_length
    }

    pub closed spec fn spec_digit_start(self) -> i64 {
        self.digit_start
    }

    pub closed spec fn spec_start_position(self) -> i64 {
        self.start_position
    }

    pub closed spec fn spec_block_index(self) -> usize {
        self.block_index
    }

    pub closed spec fn spec_offset_in_block(self) -> usize {
        self.offset_in_block
    }

    pub closed spec fn spec_seek_pos(self) -> u64 {
        self.seek_pos
    }

    /// Byte offset in the file at which reading starts.
    pub fn seek_pos(&self) -> (r: u64)
        ensures
            r == self.spec_seek_pos(),
    {
        self.seek_pos
    }

    /// Whether the start lies inside a block, whose 8 bytes must then be
    /// handed to [`YcdSeqBlockState::new_from`].
    pub fn needs_first_block(&self) -> (b: bool)
        ensures
            b == (self.spec_offset_in_block() > 0),
    {
        self.offset_in_block > 0
    }
}

/// Why a stream over the file described by `meta` cannot start at the
/// 1-based digit position `pos`, if it cannot: the file's last position
/// overflows, `pos` lies outside the file, or the offset of `pos` in the file
/// does not fit in `usize` or leads to a byte offset beyond `u64`.
pub open spec fn start_refusal(meta: YcdMetadata, pos: int) -> Option<YcdError> {
    let start = meta.spec_digit_start() as int;
    let length = meta.spec_digit_length() as int;
    let local = pos - start;
    if start + length > i64::MAX {
        Some(YcdError::DigitPositionOverflow)
    } else if pos < start || pos > start + length - 1 {
        Some(
            YcdError::StartOutsideFile {
                requested: pos as i64,
                range_start: start as i64,
                range_end: (start + length - 1) as i64,
            },
        )
    } else if local > usize::MAX {
        Some(YcdError::PositionTooLarge)
    } else if meta.spec_data_offset() + (local / 19) * 8 > u64::MAX {
        Some(YcdError::SeekOffsetOverflow)
    } else {
        None
    }
}

/// Whether `p` starts a stream over the file described by `meta` at `pos`:
/// at the block holding `pos`, after the digits of that block before it.
pub open spec fn starts_at(p: SeqStart, meta: YcdMetadata, pos: int) -> bool {
    let local = pos - meta.spec_digit_start();
    &&& p.spec_digit_length() == meta.spec_digit_length()
    &&& p.spec_digit_start() == meta.spec_digit_start()
    &&& p.spec_start_position() == pos
    &&& p.spec_block_index() == local / 19
    &&& p.spec_offset_in_block() == local % 19
    &&& p.spec_seek_pos() == meta.spec_data_offset() + (local / 19) * 8
}

/// The state of a sequential reader over one file.
pub struct YcdSeqBlockState {
    unit_size: usize,
    digit_length: i64,
    digit_start: i64,
    decoded_digits: i64,
    next_process_no: i64,
    next_start_digit: i64,
    surplus: Vec<char>,
    first_block: Ghost<int>,
    skip: Ghost<int>,
    fed: Ghost<Seq<Seq<u8>>>,
    taken: Ghost<Seq<char>>,
}

impl YcdSeqBlockState {
    pub closed spec fn spec_unit_size(self) -> usize {
        self.unit_size
    }

    pub closed spec fn spec_digit_length(self) -> i64 {
        self.digit_length
    }

    pub closed spec fn spec_digit_start(self) -> i64 {
        self.digit_start
    }

    /// Digits of the file decoded so far, counted from the file's first digit.
    pub closed spec fn spec_decoded(self) -> i64 {
        self.decoded_digits
    }

    pub closed spec fn spec_next_process_no(self) -> i64 {
        self.next_process_no
    }

    pub closed spec fn spec_next_start_digit(self) -> i64 {
        self.next_start_digit
    }

    /// Decoded digits not delivered yet.
    pub closed spec fn spec_surplus(self) -> Seq<char> {
        self.surplus@
    }

    /// Index of the first block read.
    pub closed spec fn spec_first_block(self) -> int {
        self.first_block@
    }

    /// Digits of the first block read that lie before the start position.
    pub closed spec fn spec_skip(self) -> int {
        self.skip@
    }

    /// The blocks handed over, in order, from the first block on.
    pub closed spec fn spec_fed(self) -> Seq<Seq<u8>> {
        self.fed@
    }

    /// The digits delivered so far.
    pub closed spec fn spec_taken(self) -> Seq<char> {
        self.taken@
    }

    /// Whether undelivered digits remain.
    pub open spec fn spec_has_next(self) -> bool {
        self.spec_decoded() < self.spec_digit_length() || self.spec_surplus().len() > 0
    }

    /// Whether gathering `maximum` digits needs another block.
    pub open spec fn spec_needs_block(self, maximum: int) -> bool {
        self.spec_surplus().len() < maximum && self.spec_decoded() < self.spec_digit_length()
    }

    /// The 0-based offset in the file of the first digit the stream delivers.
    pub open spec fn spec_local_start(self) -> int {
        19 * self.spec_first_block() + self.spec_skip()
    }

    /// The state's consistency: the digits delivered followed by those held
    /// back are the digits of the blocks handed over, from the start position
    /// up to the decoded count.
    pub closed spec fn wf(self) -> bool {
        &&& self.unit_size >= 19
        &&& self.unit_size <= i32::MAX
        &&& self.digit_start >= 1
        &&& self.digit_length != 0
        &&& self.first_block@ >= 0
        &&& 0 <= self.skip@ < 19
        &&& self.digit_length < 0 ==> self.decoded_digits == 0 && self.fed@.len() == 0 && self.skip@ == 0
            && self.first_block@ == 0
        &&& self.digit_length > 0 ==> {
            &&& 19 * self.first_block@ + self.skip@ < self.digit_length
            &&& self.decoded_digits == crate::files::min_int(
                19 * (self.first_block@ + self.fed@.len()),
                self.digit_length as int,
            )
        }
        &&& self.skip@ > 0 ==> self.fed@.len() > 0
        &&& self.fed@.len() > 0 ==> 19 * (self.first_block@ + self.fed@.len() - 1) < self.digit_length
        &&& self.taken@ + self.surplus@ == blocks_digits(self.fed@).subrange(
            self.skip@,
            self.decoded_digits - 19 * self.first_block@,
        )
    }

    /// A stream over the file described by `meta`, from its first digit.
    /// Refuses a unit size below 19.
    pub fn new(meta: &YcdMetadata, unit_size: i32) -> (res: Result<Self, YcdError>)
        ensures
            unit_size < 19 ==> res == Err::<Self, YcdError>(YcdError::UnitSizeTooSmall),
            unit_size >= 19 ==> (res matches Ok(s) && {
                &&& s.wf()
                &&& s.spec_unit_size() == unit_size
                &&& s.spec_digit_length() == meta.spec_digit_length()
                &&& s.spec_digit_start() == meta.spec_digit_start()
                &&& s.spec_decoded() == 0
                &&& s.spec_next_process_no() == 1
                &&& s.spec_next_start_digit() == meta.spec_digit_start()
                &&& s.spec_surplus() == Seq::<char>::empty()
                &&& s.spec_first_block() == 0
                &&& s.spec_skip() == 0
                &&& s.spec_fed() == Seq::<Seq<u8>>::empty()
                &&& s.spec_taken() == Seq::<char>::empty()
            }),
    {
        let unit = validate_unit_size(unit_size)?;
        let digit_length = meta.digit_length();
        let digit_start = meta.digit_start();
        let s = YcdSeqBlockState {
            unit_size: unit,
            digit_length,
            digit_start,
            decoded_digits: 0,
            next_process_no: 1,
            next_start_digit: digit_start,
            surplus: Vec::new(),
            first_block: Ghost(0),
            skip: Ghost(0),
            fed: Ghost(Seq::empty()),
            taken: Ghost(Seq::empty()),
        };
        proof {
            assert(blocks_digits(Seq::<Seq<u8>>::empty()) =~= Seq::<char>::empty());
            assert(s.taken@ + s.surplus@ =~= blocks_digits(s.fed@).subrange(0, 0));
        }
        Ok(s)
    }

    /// Where to start reading the file described by `meta` at the 1-based
    /// digit position `start_position`, which must lie in the file's range.
    pub fn plan_start(meta: &YcdMetadata, start_position: i64) -> (res: Result<SeqStart, YcdError>)
        ensures
            match start_refusal(*meta, start_position as int) {
                Some(e) => res == Err::<SeqStart, YcdError>(e),
                None => res matches Ok(p) && starts_at(p, *meta, start_position as int),
            },
    {
        let digit_start = meta.digit_start();
        let digit_length = meta.digit_length();
        let file_end = match digit_start.checked_add(digit_length) {
            Some(e) => match e.checked_sub(1) {
                Some(v) => v,
                None => {
                    return Err(YcdError::DigitPositionOverflow);
                },
            },
            None => {
                return Err(YcdError::DigitPositionOverflow);
            },
        };
        if start_position < digit_start || start_position > file_end {
            return Err(
                YcdError::StartOutsideFile {
                    requested: start_position,
                    range_start: digit_start,
                    range_end: file_end,
                },
            );
        }
        let local = start_position - digit_start;
        if local as u64 > usize::MAX as u64 {
            return Err(YcdError::PositionTooLarge);
        }
        let local_start = local as usize;
        let block_index = local_start / 19;
        let offset_in_block = local_start % 19;
        let step = block_index as u64 * 8;
        let data_offset = meta.data_offset();
        if data_offset > u64::MAX - step {
            return Err(YcdError::SeekOffsetOverflow);
        }
        Ok(
            SeqStart {
                digit_length,
                digit_start,
                start_position,
                block_index,
                offset_in_block,
                seek_pos: data_offset + step,
            },
        )
    }

    /// A stream that starts at the position planned in `start`. When the
    /// start lies inside a block, `first_block` holds that block's 8 bytes.
    /// Refuses a unit size below 19, and a first block of 20 digits.
    pub fn new_from(start: SeqStart, unit_size: i32, first_block: Option<[u8; 8]>) -> (res: Result<
        Self,
        YcdError,
    >)
        requires
            first_block is Some <==> start.spec_offset_in_block() > 0,
        ensures
            unit_size < 19 ==> res == Err::<Self, YcdError>(YcdError::UnitSizeTooSmall),
            unit_size >= 19 ==> (first_block matches Some(b) && !block_fits(b@)) ==> res == Err::<
                Self,
                YcdError,
            >(YcdError::BlockTooLarge),
            res matches Ok(s) ==> {
                &&& s.wf()
                &&& s.spec_unit_size() == unit_size
                &&& s.spec_digit_length() == start.spec_digit_length()
                &&& s.spec_digit_start() == start.spec_digit_start()
                &&& s.spec_next_process_no() == 1
                &&& s.spec_next_start_digit() == start.spec_start_position()
                &&& s.spec_first_block() == start.spec_block_index()
                &&& s.spec_skip() == start.spec_offset_in_block()
                &&& s.spec_fed() == match first_block {
                    Some(b) => seq![b@],
                    None => Seq::<Seq<u8>>::empty(),
                }
                &&& s.spec_decoded() == match first_block {
                    Some(_) => crate::files::min_int(
                        19 * (start.spec_block_index() + 1),
                        start.spec_digit_length() as int,
                    ),
                    None => 19 * start.spec_block_index(),
                }
                &&& s.spec_surplus() == match first_block {
                    Some(b) => block_digits(b@).subrange(
                        start.spec_offset_in_block() as int,
                        crate::files::min_int(19, start.spec_digit_length() - 19 * start.spec_block_index()),
                    ),
                    None => Seq::<char>::empty(),
                }
                &&& s.spec_taken() == Seq::<char>::empty()
            },
            unit_size >= 19 && (first_block matches Some(b) ==> block_fits(b@)) ==> res is Ok,
    {
        proof {
            use_type_invariant(&start);
        }
        let unit = validate_unit_size(unit_size)?;
        let block_index = start.block_index;
        let offset = start.offset_in_block;
        assert(block_index * 19 <= start.start_position - start.digit_start);
        let decoded = (block_index * 19) as i64;
        let mut surplus: Vec<char> = Vec::new();
        let ghost fed: Seq<Seq<u8>> = Seq::empty();
        let mut decoded_digits = decoded;
        match first_block {
            Some(b) => {
                let digits = decode_block(&b)?;
                proof {
                    lemma_decimal_digits_len(block_value(b@) as nat, 19);
                }
                let remaining = start.digit_length - decoded;
                let take: usize = if remaining < 19 {
                    remaining as usize
                } else {
                    19
                };
                decoded_digits = decoded + take as i64;
                let mut k = offset;
                while k < take
                    invariant
                        offset <= k <= take <= 19,
                        digits@.len() == 19,
                        surplus@ == digits@.subrange(offset as int, k as int),
                    decreases take - k,
                {
                    surplus.push(digits[k]);
                    proof {
                        assert(surplus@ =~= digits@.subrange(offset as int, k + 1));
                    }
                    k = k + 1;
                }
                proof {
                    fed = seq![b@];
                    assert(fed.drop_last() =~= Seq::<Seq<u8>>::empty());
                    assert(blocks_digits(fed.drop_last()) =~= Seq::<char>::empty());
                    assert(blocks_digits(fed) =~= digits@);
                }
            },
            None => {
                proof {
                    assert(blocks_digits(fed) =~= Seq::<char>::empty());
                }
            },
        }
        let s = YcdSeqBlockState {
            unit_size: unit,
            digit_length: start.digit_length,
            digit_start: start.digit_start,
            decoded_digits,
            next_process_no: 1,
            next_start_digit: start.start_position,
            surplus,
            first_block: Ghost(block_index as int),
            skip: Ghost(offset as int),
            fed: Ghost(fed),
            taken: Ghost(Seq::empty()),
        };
        proof {
            assert(s.taken@ + s.surplus@ =~= s.surplus@);
            assert(s.surplus@ =~= blocks_digits(s.fed@).subrange(s.skip@, s.decoded_digits - 19 * s.first_block@));
        }
        Ok(s)
    }

    /// Whether undelivered digits remain.
    pub fn has_next(&self) -> (b: bool)
        ensures
            b == self.spec_has_next(),
    {
        self.decoded_digits < self.digit_length || self.surplus.len() > 0
    }

    /// Whether gathering `maximum` digits needs another block.
    pub fn needs_block(&self, maximum: usize) -> (b: bool)
        ensures
            b == self.spec_needs_block(maximum as int),
    {
        self.surplus.len() < maximum && self.decoded_digits < self.digit_length
    }
}

/// What handing the 8-byte block `block` to a single-file stream in state
/// `st` does, with `nst` the state after and `r` the answer: a block handed
/// over when every digit is decoded is ignored; a block of 20 digits, or a
/// remaining digit count beyond `usize`, is refused and changes nothing;
/// otherwise the block's digits, cut at the file's length, join the
/// held-back digits. Only those parts of the state change.
pub open spec fn block_pushed(
    st: YcdSeqBlockState,
    nst: YcdSeqBlockState,
    block: Seq<u8>,
    r: Result<(), YcdError>,
) -> bool {
    &&& nst.spec_unit_size() == st.spec_unit_size()
    &&& nst.spec_digit_length() == st.spec_digit_length()
    &&& nst.spec_digit_start() == st.spec_digit_start()
    &&& nst.spec_next_process_no() == st.spec_next_process_no()
    &&& nst.spec_next_start_digit() == st.spec_next_start_digit()
    &&& nst.spec_first_block() == st.spec_first_block()
    &&& nst.spec_skip() == st.spec_skip()
    &&& nst.spec_taken() == st.spec_taken()
    &&& if st.spec_decoded() >= st.spec_digit_length() {
        r is Ok && nst == st
    } else if !block_fits(block) {
        r == Err::<(), YcdError>(YcdError::BlockTooLarge) && nst == st
    } else if st.spec_digit_length() - st.spec_decoded() > usize::MAX {
        r == Err::<(), YcdError>(YcdError::LengthOutOfRange) && nst == st
    } else {
        let take = crate::files::min_int(st.spec_digit_length() - st.spec_decoded(), 19);
        &&& r is Ok
        &&& nst.spec_fed() == st.spec_fed().push(block)
        &&& nst.spec_decoded() == st.spec_decoded() + take
        &&& nst.spec_surplus() == st.spec_surplus() + block_digits(block).take(take)
    }
}

impl YcdSeqBlockState {
    /// Hand over the next 8-byte block of the file. Its digits, cut at the
    /// file's length, join the held-back digits. A block of 20 digits is
    /// refused; a block handed over when every digit is already decoded is
    /// ignored.
    pub fn push_block(&mut self, block: &[u8; 8]) -> (r: Result<(), YcdError>)
        requires
            old(self).wf(),
        ensures
            final(self).wf(),
            block_pushed(*old(self), *final(self), block@, r),
    {
        if self.decoded_digits >= self.digit_length {
            return Ok(());
        }
        let digits = decode_block(block)?;
        proof {
            lemma_decimal_digits_len(block_value(block@) as nat, 19);
        }
        let remaining = self.digit_length - self.decoded_digits;
        if remaining as u64 > usize::MAX as u64 {
            return Err(YcdError::LengthOutOfRange);
        }
        let take: usize = if remaining < 19 {
            remaining as usize
        } else {
            19
        };
        let ghost old_fed = self.fed@;
        let ghost old_surplus = self.surplus@;
        let ghost old_decoded = self.decoded_digits;
        crate::text::append_range(&mut self.surplus, digits.as_slice(), 0, take);
        self.decoded_digits = self.decoded_digits + take as i64;
        self.fed = Ghost(old_fed.push(block@));
        proof {
            let nf = old_fed.push(block@);
            assert(nf.drop_last() =~= old_fed);
            assert(blocks_digits(nf) == blocks_digits(old_fed) + digits@);
            lemma_blocks_digits_len(old_fed);
            assert(digits@.subrange(0, take as int) =~= digits@.take(take as int));
            assert(old_decoded == 19 * (self.first_block@ + old_fed.len()));
            assert(blocks_digits(nf).subrange(self.skip@, self.decoded_digits - 19 * self.first_block@)
                =~= blocks_digits(old_fed).subrange(self.skip@, old_decoded - 19 * self.first_block@)
                + digits@.subrange(0, take as int));
            assert(self.taken@ + self.surplus@ == blocks_digits(self.fed@).subrange(
                self.skip@,
                self.decoded_digits - 19 * self.first_block@,
            ));
            assert(self.digit_length > 0);
            assert(self.decoded_digits == crate::files::min_int(
                19 * (self.first_block@ + self.fed@.len()),
                self.digit_length as int,
            ));
            assert(19 * (self.first_block@ + self.fed@.len() - 1) < self.digit_length);
        }
        Ok(())
    }

    /// Take up to `maximum` held-back digits, in order.
    pub(crate) fn split_surplus(&mut self, maximum: usize) -> (value: Vec<char>)
        requires
            old(self).wf(),
        ensures
            final(self).wf(),
            value@ == old(self).spec_surplus().take(
                crate::files::min_int(maximum as int, old(self).spec_surplus().len() as int),
            ),
            final(self).spec_surplus() == old(self).spec_surplus().skip(
                crate::files::min_int(maximum as int, old(self).spec_surplus().len() as int),
            ),
            final(self).spec_taken() == old(self).spec_taken() + value@,
            final(self).spec_unit_size() == old(self).spec_unit_size(),
            final(self).spec_digit_length() == old(self).spec_digit_length(),
            final(self).spec_digit_start() == old(self).spec_digit_start(),
            final(self).spec_decoded() == old(self).spec_decoded(),
            final(self).spec_next_process_no() == old(self).spec_next_process_no(),
            final(self).spec_next_start_digit() == old(self).spec_next_start_digit(),
            final(self).spec_first_block() == old(self).spec_first_block(),
            final(self).spec_skip() == old(self).spec_skip(),
            final(self).spec_fed() == old(self).spec_fed(),
    {
        let n = self.surplus.len();
        let take = if maximum < n {
            maximum
        } else {
            n
        };
        let value = crate::text::copy_range(self.surplus.as_slice(), 0, take);
        let rest = crate::text::copy_range(self.surplus.as_slice(), take, n);
        let ghost old_surplus = self.surplus@;
        proof {
            assert(value@ =~= old_surplus.take(take as int));
            assert(rest@ =~= old_surplus.skip(take as int));
            assert(value@ + rest@ =~= old_surplus);
        }
        self.surplus = rest;
        self.taken = Ghost(self.taken@ + value@);
        proof {
            assert(self.taken@ + self.surplus@ =~= old(self).spec_taken() + old_surplus);
        }
        value
    }

    /// What to do next: refuse when every digit has been delivered, ask for a
    /// block while fewer than a unit's worth of digits are held back and more
    /// remain in the file, and otherwise deliver the next unit.
    pub fn step(&mut self) -> (r: Result<SeqStep, YcdError>)
        requires
            old(self).wf(),
        ensures
            final(self).wf(),
            final(self).spec_unit_size() == old(self).spec_unit_size(),
            final(self).spec_digit_length() == old(self).spec_digit_length(),
            final(self).spec_digit_start() == old(self).spec_digit_start(),
            final(self).spec_decoded() == old(self).spec_decoded(),
            final(self).spec_first_block() == old(self).spec_first_block(),
            final(self).spec_skip() == old(self).spec_skip(),
            final(self).spec_fed() == old(self).spec_fed(),
            !old(self).spec_has_next() ==> (r matches Err(e) && e == YcdError::NoMoreData) && *final(self)
                == *old(self),
            old(self).spec_has_next() && old(self).spec_needs_block(old(self).spec_unit_size() as int)
                ==> (r matches Ok(SeqStep::NeedBlock)) && *final(self) == *old(self),
            old(self).spec_has_next() && !old(self).spec_needs_block(old(self).spec_unit_size() as int)
                ==> {
                let k = crate::files::min_int(
                    old(self).spec_unit_size() as int,
                    old(self).spec_surplus().len() as int,
                );
                let value = old(self).spec_surplus().take(k);
                &&& k >= 1
                &&& final(self).spec_surplus() == old(self).spec_surplus().skip(k)
                &&& final(self).spec_taken() == old(self).spec_taken() + value
                &&& (k < old(self).spec_unit_size() ==> !final(self).spec_has_next())
                &&& if old(self).spec_next_process_no() == i64::MAX {
                    &&& r matches Err(e) && e == YcdError::ProcessNumberOverflow
                    &&& final(self).spec_next_process_no() == old(self).spec_next_process_no()
                    &&& final(self).spec_next_start_digit() == old(self).spec_next_start_digit()
                } else if old(self).spec_next_start_digit() + k > i64::MAX {
                    &&& r matches Err(e) && e == YcdError::DigitPositionOverflow
                    &&& final(self).spec_next_process_no() == old(self).spec_next_process_no() + 1
                    &&& final(self).spec_next_start_digit() == old(self).spec_next_start_digit()
                } else {
                    &&& r matches Ok(SeqStep::Unit(u)) && u.process_no == old(self).spec_next_process_no()
                        && u.start_digit == old(self).spec_next_start_digit() && u.value@ == value
                    &&& final(self).spec_next_process_no() == old(self).spec_next_process_no() + 1
                    &&& final(self).spec_next_start_digit() == old(self).spec_next_start_digit() + k
                }
            },
    {
        if !self.has_next() {
            return Err(YcdError::NoMoreData);
        }
        if self.needs_block(self.unit_size) {
            return Ok(SeqStep::NeedBlock);
        }
        let value = self.split_surplus(self.unit_size);
        let process_no = self.next_process_no;
        let start_digit = self.next_start_digit;
        if self.next_process_no == i64::MAX {
            return Err(YcdError::ProcessNumberOverflow);
        }
        self.next_process_no = self.next_process_no + 1;
        let len = value.len();
        if len as u64 > i64::MAX as u64 || self.next_start_digit > i64::MAX - len as i64 {
            return Err(YcdError::DigitPositionOverflow);
        }
        self.next_start_digit = self.next_start_digit + len as i64;
        Ok(SeqStep::Unit(YcdProcessUnit::new(process_no, start_digit, string_from_chars(value.as_slice()))))
    }
}

/// What a single-file stream has delivered, followed by what it holds back,
/// is the file's digits from the stream's start position up to the count
/// decoded so far; once it has nothing left, it has delivered exactly the
/// file's digits from the start position to the file's end.
///
/// `payload` is the file's payload (the bytes after its header), holding
/// every block the file needs, and the blocks handed to the stream are the
/// payload's blocks from the stream's first block on.
pub proof fn lemma_seq_stream_digits(st: YcdSeqBlockState, payload: Seq<u8>)
    requires
        st.wf(),
        st.spec_digit_length() > 0,
        crate::files::payload_holds(payload, st.spec_digit_length() as int),
        st.spec_fed() == payload_blocks(payload, st.spec_first_block(), st.spec_fed().len() as int),
    ensures
        st.spec_taken() + st.spec_surplus() == file_digits(payload, st.spec_digit_length() as int).subrange(
            st.spec_local_start(),
            st.spec_decoded() as int,
        ),
        !st.spec_has_next() ==> st.spec_taken() == file_digits(
            payload,
            st.spec_digit_length() as int,
        ).subrange(st.spec_local_start(), st.spec_digit_length() as int),
{
    let length = st.spec_digit_length() as int;
    let fb = st.spec_first_block();
    let n = st.spec_fed().len() as int;
    let nb = blocks_for(length);
    let d = st.spec_decoded() as int;
    let skip = st.spec_skip();
    assert(fb + n <= nb) by (nonlinear_arith)
        requires
            n > 0 ==> 19 * (fb + n - 1) < length,
            n == 0 ==> 19 * fb + skip < length,
            skip >= 0,
            nb == (length + 18) / 19,
            fb >= 0,
            n >= 0,
    ;
    let all = payload_blocks(payload, 0, nb);
    let a = payload_blocks(payload, 0, fb);
    let b = payload_blocks(payload, fb, n);
    let c = payload_blocks(payload, fb + n, nb - fb - n);
    assert(all =~= a + b + c);
    lemma_blocks_digits_concat(a + b, c);
    lemma_blocks_digits_concat(a, b);
    lemma_blocks_digits_len(a);
    lemma_blocks_digits_len(b);
    lemma_blocks_digits_len(c);
    assert(19 * nb >= length) by (nonlinear_arith)
        requires
            nb == (length + 18) / 19,
            length >= 0,
    ;
    assert(d <= length);
    assert(d - 19 * fb <= 19 * n);
    assert(file_digits(payload, length).subrange(19 * fb + skip, d) =~= blocks_digits(b).subrange(
        skip,
        d - 19 * fb,
    ));
}

impl YcdSeqBlockState {
    /// 1-based absolute position of the file's first digit.
    pub fn digit_start(&self) -> (r: i64)
        ensures
            r == self.spec_digit_start(),
    {
        self.digit_start
    }

    /// Number of digits the file covers.
    pub fn digit_length(&self) -> (r: i64)
        ensures
            r == self.spec_digit_length(),
    {
        self.digit_length
    }

    /// 1-based absolute position of the next digit to deliver.
    pub fn next_start_digit(&self) -> (r: i64)
        ensures
            r == self.spec_next_start_digit(),
    {
        self.next_start_digit
    }
}

/// What a multi-file stream asks of its caller.
#[derive(Debug)]
pub enum MultiStep {
    /// Hand over the next 8-byte block of the file with this index.
    NeedBlock(usize),
    /// The next unit is ready.
    Unit(YcdProcessUnit),
}

/// The digits taken from a sequence of single-file streams, in order.
pub open spec fn all_taken(streams: Seq<YcdSeqBlockState>) -> Seq<char>
    decreases streams.len(),
{
    if streams.len() == 0 {
        Seq::empty()
    } else {
        all_taken(streams.drop_last()) + streams.last().spec_taken()
    }
}

proof fn lemma_all_taken_update(streams: Seq<YcdSeqBlockState>, i: int, s: YcdSeqBlockState, part: Seq<char>)
    requires
        0 <= i < streams.len(),
        forall|j: int| i < j < streams.len() ==> (#[trigger] streams[j]).spec_taken() == Seq::<char>::empty(),
        s.spec_taken() == streams[i].spec_taken() + part,
    ensures
        all_taken(streams.update(i, s)) == all_taken(streams) + part,
    decreases streams.len(),
{
    let n = streams.len();
    let up = streams.update(i, s);
    if i == n - 1 {
        assert(up.drop_last() =~= streams.drop_last());
        assert(all_taken(up) =~= all_taken(streams) + part);
    } else {
        assert(up.drop_last() =~= streams.drop_last().update(i, s));
        lemma_all_taken_update(streams.drop_last(), i, s, part);
        assert(streams.last().spec_taken() == Seq::<char>::empty());
        assert(up.last() == streams.last());
        assert(all_taken(up) =~= all_taken(streams) + part);
    }
}

/// Whether two single-file streams cover consecutive digit ranges.
pub open spec fn continues(a: YcdSeqBlockState, b: YcdSeqBlockState) -> bool {
    b.spec_digit_start() == a.spec_digit_start() + a.spec_digit_length()
}

/// The state of a sequential reader over a contiguous list of files.
pub struct YcdMultiFileState {
    unit_size: usize,
    streams: Vec<YcdSeqBlockState>,
    current: usize,
    next_process_no: i64,
    next_start_digit: i64,
    value: Vec<char>,
    in_progress: bool,
    consumed: Ghost<Seq<char>>,
}

impl YcdMultiFileState {
    pub closed spec fn spec_unit_size(self) -> usize {
        self.unit_size
    }

    pub closed spec fn spec_streams(self) -> Seq<YcdSeqBlockState> {
        self.streams@
    }

    pub closed spec fn spec_current(self) -> int {
        self.current as int
    }

    pub closed spec fn spec_next_process_no(self) -> i64 {
        self.next_process_no
    }

    pub closed spec fn spec_next_start_digit(self) -> i64 {
        self.next_start_digit
    }

    /// The digits of the unit being gathered.
    pub closed spec fn spec_value(self) -> Seq<char> {
        self.value@
    }

    /// Whether a unit is being gathered.
    pub closed spec fn spec_in_progress(self) -> bool {
        self.in_progress
    }

    /// The digits taken from the files and no longer held by the state:
    /// those of the units delivered, and those of units abandoned on an error.
    pub closed spec fn spec_consumed(self) -> Seq<char> {
        self.consumed@
    }

    /// Whether undelivered digits remain in a file not yet finished.
    pub open spec fn spec_has_next(self) -> bool {
        exists|i: int|
            self.spec_current() <= i < self.spec_streams().len() && (#[trigger] self.spec_streams()[i]).spec_has_next()
    }

    /// The state's consistency.
    pub closed spec fn wf(self) -> bool {
        &&& 19 <= self.unit_size <= i32::MAX
        &&& self.streams@.len() >= 1
        &&& self.current <= self.streams@.len()
        &&& forall|i: int| 0 <= i < self.streams@.len() ==> (#[trigger] self.streams@[i]).wf()
        &&& forall|i: int| 0 <= i < self.current ==> !(#[trigger] self.streams@[i]).spec_has_next()
        &&& forall|i: int|
            self.current < i < self.streams@.len() ==> (#[trigger] self.streams@[i]).spec_taken()
                == Seq::<char>::empty()
        &&& all_taken(self.streams@) == self.consumed@ + self.value@
        &&& !self.in_progress ==> self.value@.len() == 0
        &&& self.value@.len() <= self.unit_size
    }

    /// A multi-file stream over `streams` (one per file, in order), from the
    /// first stream's next digit on. Refuses a unit size below 19, an empty
    /// list, and a list whose files do not continue each other (reporting
    /// the first pair that does not).
    pub fn new(streams: Vec<YcdSeqBlockState>, unit_size: i32) -> (res: Result<Self, YcdError>)
        requires
            forall|i: int| 0 <= i < streams@.len() ==> (#[trigger] streams@[i]).wf(),
            forall|i: int| 0 <= i < streams@.len() ==> (#[trigger] streams@[i]).spec_taken() == Seq::<char>::empty(),
        ensures
            unit_size < 19 ==> res == Err::<Self, YcdError>(YcdError::UnitSizeTooSmall),
            unit_size >= 19 && streams@.len() == 0 ==> res == Err::<Self, YcdError>(YcdError::NoFiles),
            unit_size >= 19 && streams@.len() > 0 ==> (all_continue(streams@) <==> res is Ok),
            unit_size >= 19 ==> forall|j: int|
                0 < j < streams@.len() && all_continue(streams@.take(j)) && !continues(
                    #[trigger] streams@[j - 1],
                    streams@[j],
                ) ==> res == Err::<Self, YcdError>(gap_error(streams@[j - 1], streams@[j])),
            res matches Ok(m) ==> {
                &&& m.wf()
                &&& m.spec_streams() == streams@
                &&& m.spec_current() == 0
                &&& m.spec_unit_size() == unit_size
                &&& m.spec_next_process_no() == 1
                &&& m.spec_next_start_digit() == streams@[0].spec_next_start_digit()
                &&& m.spec_consumed() == Seq::<char>::empty()
                &&& !m.spec_in_progress()
            },
    {
        let unit = validate_unit_size(unit_size)?;
        let n = streams.len();
        if n == 0 {
            return Err(YcdError::NoFiles);
        }
        let mut i: usize = 1;
        while i < n
            invariant
                1 <= i <= n == streams@.len(),
                unit_size >= 19,
                all_continue(streams@.take(i as int)),
            decreases n - i,
        {
            let prev_start = streams[i - 1].digit_start();
            let prev_length = streams[i - 1].digit_length();
            proof {
                assert(streams@.take(i as int).take((i - 1) as int) =~= streams@.take((i - 1) as int));
            }
            let expected = match prev_start.checked_add(prev_length) {
                Some(e) => e,
                None => {
                    proof {
                        lemma_first_gap(streams@, i as int);
                    }
                    return Err(YcdError::DigitPositionOverflow);
                },
            };
            let found = streams[i].digit_start();
            if found != expected {
                proof {
                    lemma_first_gap(streams@, i as int);
                }
                return Err(YcdError::NotContiguous { expected: expected as i128, found: found as i128 });
            }
            proof {
                assert forall|j: int| 0 < j < i + 1 implies continues(
                    #[trigger] streams@.take(i + 1)[j - 1],
                    streams@.take(i + 1)[j],
                ) by {
                    if j < i {
                        assert(streams@.take(i as int)[j - 1] == streams@[j - 1]);
                        assert(streams@.take(i as int)[j] == streams@[j]);
                    }
                }
            }
            i = i + 1;
        }
        proof {
            assert(streams@.take(n as int) =~= streams@);
            assert forall|j: int|
                0 < j < streams@.len() && all_continue(streams@.take(j)) && !continues(
                    #[trigger] streams@[j - 1],
                    streams@[j],
                ) implies false by {
                assert(streams@.take(n as int)[j - 1] == streams@[j - 1]);
            }
        }
        let next_start_digit = streams[0].next_start_digit();
        let m = YcdMultiFileState {
            unit_size: unit,
            streams,
            current: 0,
            next_process_no: 1,
            next_start_digit,
            value: Vec::new(),
            in_progress: false,
            consumed: Ghost(Seq::empty()),
        };
        proof {
            lemma_all_taken_empty(m.streams@);
            assert(m.consumed@ + m.value@ =~= Seq::<char>::empty());
        }
        Ok(m)
    }
}

/// Whether each stream of a list continues the one before it.
pub open spec fn all_continue(streams: Seq<YcdSeqBlockState>) -> bool {
    forall|j: int| 0 < j < streams.len() ==> continues(#[trigger] streams[j - 1], streams[j])
}

/// The error reported when `b` does not continue `a`: the end of `a`
/// overflows, or `b` starts elsewhere.
pub open spec fn gap_error(a: YcdSeqBlockState, b: YcdSeqBlockState) -> YcdError {
    let expected = a.spec_digit_start() + a.spec_digit_length();
    if expected > i64::MAX || expected < i64::MIN {
        YcdError::DigitPositionOverflow
    } else {
        YcdError::NotContiguous { expected: expected as i128, found: b.spec_digit_start() as i128 }
    }
}

proof fn lemma_first_gap(streams: Seq<YcdSeqBlockState>, i: int)
    requires
        0 < i < streams.len(),
        all_continue(streams.take(i)),
        !continues(streams[i - 1], streams[i]),
    ensures
        forall|j: int|
            0 < j < streams.len() && all_continue(streams.take(j)) && !continues(
                #[trigger] streams[j - 1],
                streams[j],
            ) ==> j == i,
{
    assert forall|j: int|
        0 < j < streams.len() && all_continue(streams.take(j)) && !continues(
            #[trigger] streams[j - 1],
            streams[j],
        ) implies j == i by {
        if j < i {
            assert(streams.take(i)[j - 1] == streams[j - 1]);
            assert(streams.take(i)[j] == streams[j]);
        }
        if j > i {
            assert(streams.take(j)[i - 1] == streams[i - 1]);
            assert(streams.take(j)[i] == streams[i]);
        }
    }
}

proof fn lemma_all_taken_empty(streams: Seq<YcdSeqBlockState>)
    requires
        forall|i: int| 0 <= i < streams.len() ==> (#[trigger] streams[i]).spec_taken() == Seq::<char>::empty(),
    ensures
        all_taken(streams) == Seq::<char>::empty(),
    decreases streams.len(),
{
    if streams.len() > 0 {
        lemma_all_taken_empty(streams.drop_last());
        assert(all_taken(streams) =~= Seq::<char>::empty());
    }
}

impl YcdMultiFileState {
    /// Whether undelivered digits remain in a file not yet finished.
    pub fn has_next(&self) -> (b: bool)
        requires
            self.wf(),
        ensures
            b == self.spec_has_next(),
    {
        let n = self.streams.len();
        let mut i = self.current;
        while i < n
            invariant
                self.current <= i <= n == self.streams@.len(),
                forall|j: int| self.current <= j < i ==> !(#[trigger] self.streams@[j]).spec_has_next(),
            decreases n - i,
        {
            if self.streams[i].has_next() {
                proof {
                    assert(self.spec_streams()[i as int].spec_has_next());
                }
                return true;
            }
            i = i + 1;
        }
        false
    }

    /// Give up the unit being gathered (after the caller failed to read a
    /// block); its digits are dropped, and the next step starts a new unit.
    pub fn abort_unit(&mut self)
        requires
            old(self).wf(),
        ensures
            final(self).wf(),
            final(self).spec_unit_size() == old(self).spec_unit_size(),
            !final(self).spec_in_progress(),
            final(self).spec_consumed() == old(self).spec_consumed() + old(self).spec_value(),
            final(self).spec_streams() == old(self).spec_streams(),
            final(self).spec_current() == old(self).spec_current(),
            final(self).spec_next_process_no() == old(self).spec_next_process_no(),
            final(self).spec_next_start_digit() == old(self).spec_next_start_digit(),
    {
        self.consumed = Ghost(self.consumed@ + self.value@);
        self.value = Vec::new();
        self.in_progress = false;
        proof {
            assert(self.consumed@ + self.value@ =~= self.consumed@);
        }
    }

    /// Hand over the next block of the file that the last step asked for:
    /// the current file's stream takes it as [`YcdSeqBlockState::push_block`]
    /// does. When that stream refuses it, the unit being gathered is given
    /// up. A block handed over while no unit is being gathered, or after the
    /// last file, is ignored.
    pub fn push_block(&mut self, block: &[u8; 8]) -> (r: Result<(), YcdError>)
        requires
            old(self).wf(),
        ensures
            final(self).wf(),
            final(self).spec_unit_size() == old(self).spec_unit_size(),
            final(self).spec_streams().len() == old(self).spec_streams().len(),
            final(self).spec_current() == old(self).spec_current(),
            final(self).spec_next_process_no() == old(self).spec_next_process_no(),
            final(self).spec_next_start_digit() == old(self).spec_next_start_digit(),
            !(old(self).spec_in_progress() && old(self).spec_current() < old(self).spec_streams().len()) ==> r is Ok
                && *final(self) == *old(self),
            old(self).spec_in_progress() && old(self).spec_current() < old(self).spec_streams().len() ==> {
                let i = old(self).spec_current();
                &&& final(self).spec_streams() == old(self).spec_streams().update(i, final(self).spec_streams()[i])
                &&& block_pushed(old(self).spec_streams()[i], final(self).spec_streams()[i], block@, r)
                &&& r is Ok ==> final(self).spec_consumed() == old(self).spec_consumed() && final(self).spec_value()
                    == old(self).spec_value() && final(self).spec_in_progress()
                &&& r is Err ==> !final(self).spec_in_progress() && final(self).spec_consumed()
                    == old(self).spec_consumed() + old(self).spec_value()
            },
    {
        if !self.in_progress || self.current >= self.streams.len() {
            return Ok(());
        }
        let i = self.current;
        let ghost old_streams = self.streams@;
        let r = self.streams[i].push_block(block);
        proof {
            assert(self.unit_size == old(self).spec_unit_size());
            assert(self.streams@ =~= old_streams.update(i as int, self.streams@[i as int]));
            assert(self.streams@[i as int].spec_taken() == old_streams[i as int].spec_taken());
            lemma_all_taken_update(old_streams, i as int, self.streams@[i as int], Seq::empty());
            assert(old_streams.update(i as int, self.streams@[i as int]) =~= self.streams@);
            assert(all_taken(old_streams) + Seq::<char>::empty() =~= all_taken(old_streams));
            assert forall|j: int| 0 <= j < self.current implies !(#[trigger] self.streams@[j]).spec_has_next() by {
                assert(self.streams@[j] == old_streams[j]);
            }
            assert forall|j: int| self.current < j < self.streams@.len() implies (#[trigger] self.streams@[j]).spec_taken()
                == Seq::<char>::empty() by {
                assert(self.streams@[j] == old_streams[j]);
            }
        }
        match r {
            Ok(()) => Ok(()),
            Err(e) => {
                self.abort_unit();
                Err(e)
            },
        }
    }
}


/// Whether two states of a single-file stream read the same blocks of the
/// same file: only what they have delivered may differ.
pub open spec fn same_source(a: YcdSeqBlockState, b: YcdSeqBlockState) -> bool {
    &&& a.spec_unit_size() == b.spec_unit_size()
    &&& a.spec_digit_length() == b.spec_digit_length()
    &&& a.spec_digit_start() == b.spec_digit_start()
    &&& a.spec_decoded() == b.spec_decoded()
    &&& a.spec_first_block() == b.spec_first_block()
    &&& a.spec_skip() == b.spec_skip()
    &&& a.spec_fed() == b.spec_fed()
}

impl YcdMultiFileState {
    /// What to do next: refuse when no unit is being gathered and every
    /// digit has been delivered; otherwise gather digits across the files,
    /// asking for a block of the current file whenever it holds back too few,
    /// and deliver the unit once it is full or the last file is finished.
    #[verifier::rlimit(30)]
    pub fn step(&mut self) -> (r: Result<MultiStep, YcdError>)
        requires
            old(self).wf(),
        ensures
            final(self).wf(),
            final(self).spec_unit_size() == old(self).spec_unit_size(),
            final(self).spec_streams().len() == old(self).spec_streams().len(),
            forall|j: int|
                0 <= j < old(self).spec_streams().len() ==> same_source(
                    #[trigger] final(self).spec_streams()[j],
                    old(self).spec_streams()[j],
                ),
            !old(self).spec_in_progress() && !old(self).spec_has_next() ==> r == Err::<MultiStep, YcdError>(
                YcdError::NoMoreData,
            ) && *final(self) == *old(self),
            r matches Ok(MultiStep::NeedBlock(i)) ==> {
                &&& i == final(self).spec_current()
                &&& i < final(self).spec_streams().len()
                &&& final(self).spec_in_progress()
                &&& final(self).spec_streams()[i as int].spec_needs_block(
                    final(self).spec_unit_size() - final(self).spec_value().len(),
                )
                &&& final(self).spec_consumed() == old(self).spec_consumed()
                &&& final(self).spec_next_process_no() == old(self).spec_next_process_no()
                &&& final(self).spec_next_start_digit() == old(self).spec_next_start_digit()
            },
            (old(self).spec_in_progress() || old(self).spec_has_next()) && !(r matches Ok(
                MultiStep::NeedBlock(_),
            )) ==> {
                let g = final(self).spec_consumed().skip(old(self).spec_consumed().len() as int);
                &&& final(self).spec_consumed() == old(self).spec_consumed() + g
                &&& !final(self).spec_in_progress()
                &&& g.len() <= final(self).spec_unit_size()
                &&& (g.len() < final(self).spec_unit_size() ==> !final(self).spec_has_next())
                &&& if old(self).spec_next_process_no() == i64::MAX {
                    &&& r == Err::<MultiStep, YcdError>(YcdError::ProcessNumberOverflow)
                    &&& final(self).spec_next_process_no() == old(self).spec_next_process_no()
                    &&& final(self).spec_next_start_digit() == old(self).spec_next_start_digit()
                } else if old(self).spec_next_start_digit() + g.len() > i64::MAX {
                    &&& r == Err::<MultiStep, YcdError>(YcdError::DigitPositionOverflow)
                    &&& final(self).spec_next_process_no() == old(self).spec_next_process_no() + 1
                    &&& final(self).spec_next_start_digit() == old(self).spec_next_start_digit()
                } else {
                    &&& r matches Ok(MultiStep::Unit(u)) && u.process_no == old(self).spec_next_process_no()
                        && u.start_digit == old(self).spec_next_start_digit() && u.value@ == g
                    &&& final(self).spec_next_process_no() == old(self).spec_next_process_no() + 1
                    &&& final(self).spec_next_start_digit() == old(self).spec_next_start_digit() + g.len()
                }
            },
    {
        if !self.in_progress {
            if !self.has_next() {
                return Err(YcdError::NoMoreData);
            }
            self.in_progress = true;
        }
        let n = self.streams.len();
        let unit = self.unit_size;
        let ghost start_streams = self.streams@;
        while self.value.len() < unit && self.current < n
            invariant
                self.wf(),
                self.in_progress,
                old(self).spec_in_progress() || old(self).spec_has_next(),
                n == self.streams@.len() == start_streams.len() == old(self).spec_streams().len(),
                unit == self.unit_size == old(self).spec_unit_size(),
                self.consumed@ == old(self).spec_consumed(),
                self.next_process_no == old(self).spec_next_process_no(),
                self.next_start_digit == old(self).spec_next_start_digit(),
                old(self).spec_value().len() <= self.value@.len(),
                forall|j: int| 0 <= j < n ==> same_source(#[trigger] self.streams@[j], old(self).spec_streams()[j]),
            decreases n - self.current, unit - self.value.len(),
        {
            let remaining = unit - self.value.len();
            let i = self.current;
            if self.streams[i].needs_block(remaining) {
                return Ok(MultiStep::NeedBlock(i));
            }
            let ghost before = self.streams@;
            let ghost before_value = self.value@;
            let part = self.streams[i].split_surplus(remaining);
            proof {
                assert(self.streams@ =~= before.update(i as int, self.streams@[i as int]));
                lemma_all_taken_update(before, i as int, self.streams@[i as int], part@);
            }
            crate::text::append_range(&mut self.value, part.as_slice(), 0, part.len());
            proof {
                assert(part@.subrange(0, part@.len() as int) =~= part@);
                assert(all_taken(self.streams@) =~= self.consumed@ + self.value@);
                assert forall|j: int| 0 <= j < n implies same_source(#[trigger] self.streams@[j], old(self).spec_streams()[j]) by {
                    if j != i {
                        assert(self.streams@[j] == before[j]);
                    }
                }
                assert forall|j: int| 0 <= j < self.current implies !(#[trigger] self.streams@[j]).spec_has_next() by {
                    assert(self.streams@[j] == before[j]);
                }
                assert forall|j: int| self.current < j < n implies (#[trigger] self.streams@[j]).spec_taken()
                    == Seq::<char>::empty() by {
                    assert(self.streams@[j] == before[j]);
                }
                assert forall|j: int| 0 <= j < n implies (#[trigger] self.streams@[j]).wf() by {
                    if j != i {
                        assert(self.streams@[j] == before[j]);
                    }
                }
            }
            if !self.streams[i].has_next() {
                self.current = i + 1;
            }
        }
        let value = crate::text::copy_range(self.value.as_slice(), 0, self.value.len());
        proof {
            assert(value@ =~= self.value@);
        }
        self.value = Vec::new();
        self.in_progress = false;
        self.consumed = Ghost(self.consumed@ + value@);
        proof {
            assert(self.consumed@ + self.value@ =~= self.consumed@);
            assert(self.consumed@.skip(old(self).spec_consumed().len() as int) =~= value@);
        }
        let process_no = self.next_process_no;
        let start_digit = self.next_start_digit;
        if self.next_process_no == i64::MAX {
            return Err(YcdError::ProcessNumberOverflow);
        }
        self.next_process_no = self.next_process_no + 1;
        let len = value.len();
        if len as u64 > i64::MAX as u64 || self.next_start_digit > i64::MAX - len as i64 {
            return Err(YcdError::DigitPositionOverflow);
        }
        self.next_start_digit = self.next_start_digit + len as i64;
        Ok(MultiStep::Unit(YcdProcessUnit::new(process_no, start_digit, string_from_chars(value.as_slice()))))
    }
}


/// The digits that a list of single-file streams covers: for each file, its
/// digits from the stream's start to the file's end, in the list's order.
pub open spec fn streams_digits(streams: Seq<YcdSeqBlockState>, payloads: Seq<Seq<u8>>) -> Seq<char>
    decreases streams.len(),
{
    if streams.len() == 0 || payloads.len() == 0 {
        Seq::empty()
    } else {
        streams_digits(streams.drop_last(), payloads.drop_last()) + file_digits(
            payloads.last(),
            streams.last().spec_digit_length() as int,
        ).subrange(streams.last().spec_local_start(), streams.last().spec_digit_length() as int)
    }
}

/// Whether each stream of a list reads its file's payload: the payload holds
/// every block the file needs, and the blocks handed over are the payload's
/// blocks from the stream's first block on.
pub open spec fn streams_read(streams: Seq<YcdSeqBlockState>, payloads: Seq<Seq<u8>>) -> bool {
    &&& payloads.len() == streams.len()
    &&& forall|i: int|
        0 <= i < streams.len() ==> {
            &&& (#[trigger] streams[i]).spec_digit_length() > 0
            &&& crate::files::payload_holds(payloads[i], streams[i].spec_digit_length() as int)
            &&& streams[i].spec_fed() == payload_blocks(
                payloads[i],
                streams[i].spec_first_block(),
                streams[i].spec_fed().len() as int,
            )
        }
}

proof fn lemma_all_taken_exhausted(streams: Seq<YcdSeqBlockState>, payloads: Seq<Seq<u8>>)
    requires
        streams_read(streams, payloads),
        forall|i: int| 0 <= i < streams.len() ==> (#[trigger] streams[i]).wf() && !streams[i].spec_has_next(),
    ensures
        all_taken(streams) == streams_digits(streams, payloads),
    decreases streams.len(),
{
    if streams.len() > 0 {
        let k = streams.len() - 1;
        assert(streams.drop_last().len() == k);
        assert forall|i: int| 0 <= i < k implies (#[trigger] streams.drop_last()[i]).wf()
            && !streams.drop_last()[i].spec_has_next() by {
            assert(streams.drop_last()[i] == streams[i]);
        }
        assert forall|i: int| 0 <= i < k implies {
            &&& (#[trigger] streams.drop_last()[i]).spec_digit_length() > 0
            &&& crate::files::payload_holds(payloads.drop_last()[i], streams.drop_last()[i].spec_digit_length() as int)
            &&& streams.drop_last()[i].spec_fed() == payload_blocks(
                payloads.drop_last()[i],
                streams.drop_last()[i].spec_first_block(),
                streams.drop_last()[i].spec_fed().len() as int,
            )
        } by {
            assert(streams.drop_last()[i] == streams[i]);
            assert(payloads.drop_last()[i] == payloads[i]);
        }
        lemma_all_taken_exhausted(streams.drop_last(), payloads.drop_last());
        assert(streams[k].wf());
        lemma_seq_stream_digits(streams[k], payloads[k]);
    }
}

/// Once a multi-file stream has nothing left and no unit is being gathered,
/// the digits it has taken from its files are exactly, in order, each file's
/// digits from where its stream started to the file's end: every digit from
/// the start position to the end of the last file, each taken once.
///
/// `payloads` holds each file's payload (the bytes after its header), and
/// the blocks handed to each stream are that payload's blocks from the
/// stream's first block on.
pub proof fn lemma_multi_stream_digits(m: YcdMultiFileState, payloads: Seq<Seq<u8>>)
    requires
        m.wf(),
        !m.spec_in_progress(),
        !m.spec_has_next(),
        streams_read(m.spec_streams(), payloads),
    ensures
        m.spec_consumed() == streams_digits(m.spec_streams(), payloads),
{
    let s = m.spec_streams();
    assert forall|i: int| 0 <= i < s.len() implies (#[trigger] s[i]).wf() && !s[i].spec_has_next() by {
        if i >= m.spec_current() {
            if s[i].spec_has_next() {
                assert(m.spec_has_next());
            }
        }
    }
    lemma_all_taken_exhausted(s, payloads);
    assert(m.spec_consumed() + m.spec_value() =~= m.spec_consumed());
}


impl YcdMultiFileState {
    /// Where a multi-file stream over the files described by `metas` that
    /// starts at the 1-based digit position `start_position` begins: the
    /// index of the first file whose range reaches that position, and where
    /// reading starts in that file.
    ///
    /// Refused, in this order, for a unit size below 19, an empty list, a
    /// start position below 1, a list whose files do not continue each other,
    /// a list whose last position overflows, a start position outside the
    /// list's range, and a start the file holding it refuses.
    pub fn plan_start(metas: &[YcdMetadata], unit_size: i32, start_position: i64) -> (res: Result<
        (usize, SeqStart),
        YcdError,
    >)
        ensures
            unit_size < 19 ==> res == Err::<(usize, SeqStart), YcdError>(YcdError::UnitSizeTooSmall),
            unit_size >= 19 && metas@.len() == 0 ==> res == Err::<(usize, SeqStart), YcdError>(YcdError::NoFiles),
            unit_size >= 19 && metas@.len() > 0 && start_position < 1 ==> res == Err::<(usize, SeqStart), YcdError>(
                YcdError::StartBelowOne,
            ),
            unit_size >= 19 && metas@.len() > 0 && start_position >= 1 ==> match spec_collect(
                metas@.map_values(|m: YcdMetadata| placement(m)),
            ) {
                Err(e) => res == Err::<(usize, SeqStart), YcdError>(e),
                Ok(s) => {
                    let list_start = s[0].file_start as int;
                    let list_end = file_end(s.last()) - 1;
                    if file_end(s.last()) > usize::MAX {
                        res == Err::<(usize, SeqStart), YcdError>(YcdError::DigitRangeEndOverflow)
                    } else if start_position < list_start || start_position > (list_end as i64) {
                        res == Err::<(usize, SeqStart), YcdError>(
                            YcdError::StartOutsideFile {
                                requested: start_position,
                                range_start: list_start as i64,
                                range_end: list_end as i64,
                            },
                        )
                    } else {
                        let k = first_reaching(s, start_position as int, 0);
                        &&& 0 <= k < metas@.len()
                        &&& match start_refusal(metas@[k], start_position as int) {
                            Some(e) => res == Err::<(usize, SeqStart), YcdError>(e),
                            None => res matches Ok((k2, p)) && k2 == k && starts_at(
                                p,
                                metas@[k],
                                start_position as int,
                            ),
                        }
                    }
                },
            },
    {
        validate_unit_size(unit_size)?;
        if metas.len() == 0 {
            return Err(YcdError::NoFiles);
        }
        if start_position < 1 {
            return Err(YcdError::StartBelowOne);
        }
        let list = collect_file_infos(metas)?;
        let infos = list.infos();
        let n = infos.len();
        proof {
            assert(metas@.map_values(|m: YcdMetadata| placement(m)).len() == metas@.len());
            lemma_collect_len(metas@.map_values(|m: YcdMetadata| placement(m)));
        }
        let list_start = infos[0].file_start;
        let last = infos[n - 1];
        if last.file_start > usize::MAX - last.file_length {
            return Err(YcdError::DigitRangeEndOverflow);
        }
        proof {
            lemma_infos_at(infos@, n - 1);
            lemma_infos_at(infos@, 0);
        }
        let list_end = last.file_start + last.file_length - 1;
        let list_end_i = list_end as i64;
        let list_start_i = list_start as i64;
        if (start_position as u64) < (list_start as u64) || start_position > list_end_i {
            return Err(
                YcdError::StartOutsideFile {
                    requested: start_position,
                    range_start: list_start_i,
                    range_end: list_end_i,
                },
            );
        }
        let k = first_file_reaching(infos, start_position as usize);
        let p = YcdSeqBlockState::plan_start(&metas[k], start_position)?;
        Ok((k, p))
    }
}


/// Whether two single-file stream states agree in everything they record;
/// every step and every block hand-off is decided by these alone.
pub open spec fn same_state(a: YcdSeqBlockState, b: YcdSeqBlockState) -> bool {
    &&& same_source(a, b)
    &&& a.spec_next_process_no() == b.spec_next_process_no()
    &&& a.spec_next_start_digit() == b.spec_next_start_digit()
    &&& a.spec_surplus() == b.spec_surplus()
    &&& a.spec_taken() == b.spec_taken()
}

/// Starting a stream at the first digit of its file is starting it from the
/// beginning: the start lies at block 0 with nothing to skip, at the first
/// byte of the payload, and the stream [`YcdSeqBlockState::new_from`] builds
/// from it (`s`) agrees in everything with the one [`YcdSeqBlockState::new`]
/// builds with the same unit size (`a`), so that handed the same blocks the
/// two deliver the same units.
pub proof fn lemma_start_at_first_digit(meta: YcdMetadata, p: SeqStart, s: YcdSeqBlockState, a: YcdSeqBlockState)
    requires
        starts_at(p, meta, meta.spec_digit_start() as int),
        s.wf(),
        s.spec_unit_size() == a.spec_unit_size(),
        s.spec_digit_length() == p.spec_digit_length(),
        s.spec_digit_start() == p.spec_digit_start(),
        s.spec_next_process_no() == 1,
        s.spec_next_start_digit() == p.spec_start_position(),
        s.spec_first_block() == p.spec_block_index(),
        s.spec_skip() == p.spec_offset_in_block(),
        s.spec_fed() == Seq::<Seq<u8>>::empty(),
        s.spec_taken() == Seq::<char>::empty(),
        a.wf(),
        a.spec_digit_length() == meta.spec_digit_length(),
        a.spec_digit_start() == meta.spec_digit_start(),
        a.spec_decoded() == 0,
        a.spec_next_process_no() == 1,
        a.spec_next_start_digit() == meta.spec_digit_start(),
        a.spec_surplus() == Seq::<char>::empty(),
        a.spec_first_block() == 0,
        a.spec_skip() == 0,
        a.spec_fed() == Seq::<Seq<u8>>::empty(),
        a.spec_taken() == Seq::<char>::empty(),
    ensures
        p.spec_block_index() == 0,
        p.spec_offset_in_block() == 0,
        p.spec_seek_pos() == meta.spec_data_offset(),
        s.spec_decoded() == 0,
        s.spec_surplus() == Seq::<char>::empty(),
        same_state(s, a),
{
    assert(blocks_digits(Seq::<Seq<u8>>::empty()) =~= Seq::<char>::empty());
    assert(s.spec_surplus() =~= Seq::<char>::empty().subrange(0, 0));
}

/// A multi-file stream started at the first digit of its list starts in the
/// list's first file.
pub proof fn lemma_multi_start_at_list_start(s: Seq<crate::files::FileInfo>)
    requires
        crate::files::infos_wf(s),
        s.len() > 0,
    ensures
        first_reaching(s, s[0].file_start as int, 0) == 0,
{
    lemma_infos_at(s, 0);
}


/// What a multi-file stream has consumed, followed by the unit it is
/// gathering, is exactly what its single-file streams have delivered, file
/// after file: every unit is made of the files' digits in order.
pub proof fn lemma_multi_consumed(m: YcdMultiFileState)
    requires
        m.wf(),
    ensures
        all_taken(m.spec_streams()) == m.spec_consumed() + m.spec_value(),
{
}


/// Check the arguments of a multi-file stream before any file is read: a
/// unit size of at least 19, then a non-empty list of files.
pub fn check_stream_request(file_count: usize, unit_size: i32) -> (res: Result<usize, YcdError>)
    ensures
        unit_size < 19 ==> res == Err::<usize, YcdError>(YcdError::UnitSizeTooSmall),
        unit_size >= 19 && file_count == 0 ==> res == Err::<usize, YcdError>(YcdError::NoFiles),
        unit_size >= 19 && file_count > 0 ==> res == Ok::<usize, YcdError>(unit_size as usize),
{
    let unit = validate_unit_size(unit_size)?;
    if file_count == 0 {
        return Err(YcdError::NoFiles);
    }
    Ok(unit)
}

/// Check the arguments of a multi-file stream that starts at the 1-based
/// digit position `start_position`, before any file is read: a unit size of
/// at least 19, a non-empty list of files, then a start position of at
/// least 1.
pub fn check_stream_from_request(file_count: usize, unit_size: i32, start_position: i64) -> (res: Result<
    usize,
    YcdError,
>)
    ensures
        unit_size < 19 ==> res == Err::<usize, YcdError>(YcdError::UnitSizeTooSmall),
        unit_size >= 19 && file_count == 0 ==> res == Err::<usize, YcdError>(YcdError::NoFiles),
        unit_size >= 19 && file_count > 0 && start_position < 1 ==> res == Err::<usize, YcdError>(
            YcdError::StartBelowOne,
        ),
        unit_size >= 19 && file_count > 0 && start_position >= 1 ==> res == Ok::<usize, YcdError>(
            unit_size as usize,
        ),
{
    let unit = check_stream_request(file_count, unit_size)?;
    if start_position < 1 {
        return Err(YcdError::StartBelowOne);
    }
    Ok(unit)
}

} // verus!
