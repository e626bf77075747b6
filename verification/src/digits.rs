//! The compressed payload: 8-byte little-endian blocks of 19 decimal digits.
use vstd::prelude::*;
use vstd::bytes::{spec_u64_from_le_bytes, u64_from_le_bytes};
use crate::error::YcdError;

verus! {

/// Number of decimal digits stored in one 8-byte compressed block.
pub const DIGITS_PER_BLOCK: usize = 19;

/// The smallest block value that no longer fits in 19 decimal digits.
pub const BLOCK_VALUE_LIMIT: u64 = 10_000_000_000_000_000_000u64;

/// The ASCII character of the decimal digit `d`.
pub open spec fn digit_char(d: nat) -> char {
    (48 + d) as char
}

/// The last `width` decimal digits of `n`, most significant first,
/// with leading zeros.
pub open spec fn decimal_digits(n: nat, width: nat) -> Seq<char>
    decreases width,
{
    if width == 0 {
        seq![]
    } else {
        decimal_digits(n / 10, (width - 1) as nat).push(digit_char(n % 10))
    }
}

/// The value stored in an 8-byte block.
pub open spec fn block_value(bytes: Seq<u8>) -> u64 {
    spec_u64_from_le_bytes(bytes)
}

/// Whether a block's value has at most 19 decimal digits.
pub open spec fn block_fits(bytes: Seq<u8>) -> bool {
    block_value(bytes) < BLOCK_VALUE_LIMIT
}

/// The 19 digits that a block decodes to (its value, zero-padded to 19).
pub open spec fn block_digits(bytes: Seq<u8>) -> Seq<char> {
    decimal_digits(block_value(bytes) as nat, 19)
}

/// Whether every character of `s` is an ASCII decimal digit.
pub open spec fn all_digits(s: Seq<char>) -> bool {
    forall|i: int| 0 <= i < s.len() ==> '0' <= #[trigger] s[i] <= '9'
}

/// `decimal_digits(n, width)` has `width` characters, all decimal digits.
pub proof fn lemma_decimal_digits_len(n: nat, width: nat)
    ensures
        decimal_digits(n, width).len() == width,
        all_digits(decimal_digits(n, width)),
    decreases width,
{
    if width > 0 {
        lemma_decimal_digits_len(n / 10, (width - 1) as nat);
    }
}

/// Decode an 8-byte block into its 19 decimal digits.
///
/// Fails with `BlockTooLarge` exactly when the block's value needs 20 digits.
pub fn decode_block(block: &[u8; 8]) -> (res: Result<Vec<char>, YcdError>)
    ensures
        block_fits(block@) <==> res is Ok,
        res matches Ok(d) ==> d@ == block_digits(block@),
        res matches Err(e) ==> e == YcdError::BlockTooLarge,
{
    let n = u64_from_le_bytes(block.as_slice());
    if n >= BLOCK_VALUE_LIMIT {
        return Err(YcdError::BlockTooLarge);
    }
    let mut out: Vec<char> = vec!['0'; 19];
    let mut m = n;
    let mut i: usize = 0;
    while i < 19
        invariant
            i <= 19,
            out@.len() == 19,
            decimal_digits(n as nat, 19) == decimal_digits(m as nat, (19 - i) as nat) + out@.subrange(
                19 - i,
                19,
            ),
        decreases 19 - i,
    {
        let d = (m % 10) as u8;
        let c = (48u8 + d) as char;
        let ghost old_out = out@;
        let ghost w = (19 - i) as nat;
        out.set(18 - i, c);
        proof {
            assert(decimal_digits(m as nat, w) == decimal_digits((m / 10) as nat, (w - 1) as nat).push(
                digit_char((m % 10) as nat),
            ));
            assert(out@.subrange(18 - i, 19) =~= seq![c] + old_out.subrange(19 - i, 19));
            assert(decimal_digits(n as nat, 19) =~= decimal_digits((m / 10) as nat, (w - 1) as nat)
                + out@.subrange(18 - i, 19));
        }
        m = m / 10;
        i = i + 1;
    }
    assert(out@.subrange(0, 19) =~= out@);
    Ok(out)
}

/// Check a processing-unit size: it must hold at least one block (19 digits).
pub fn validate_unit_size(unit_size: i32) -> (res: Result<usize, YcdError>)
    ensures
        unit_size < 19 <==> res is Err,
        res matches Ok(u) ==> u == unit_size,
        res matches Err(e) ==> e == YcdError::UnitSizeTooSmall,
{
    if unit_size < 19 {
        return Err(YcdError::UnitSizeTooSmall);
    }
    Ok(unit_size as usize)
}

/// `ceil(x / 19)`: the number of blocks that hold `x` digits.
pub open spec fn blocks_for(x: int) -> int {
    (x + 18) / 19
}

/// Block-level access parameters for reading `length` digits from the
/// 0-based digit offset `local_start` of a payload:
/// `(block_index, offset_in_block, blocks_to_read)`.
pub fn compute_seek_params(local_start: usize, length: usize) -> (res: (usize, usize, usize))
    requires
        local_start % 19 + length <= usize::MAX,
    ensures
        res.0 == local_start / 19,
        res.1 == local_start % 19,
        res.2 == blocks_for(res.1 + length),
{
    let block_index = local_start / DIGITS_PER_BLOCK;
    let offset_in_block = local_start % DIGITS_PER_BLOCK;
    let total = offset_in_block + length;
    let blocks_to_read = if total % DIGITS_PER_BLOCK == 0 {
        total / DIGITS_PER_BLOCK
    } else {
        total / DIGITS_PER_BLOCK + 1
    };
    (block_index, offset_in_block, blocks_to_read)
}

/// The digits of a sequence of blocks, in order.
pub open spec fn blocks_digits(blocks: Seq<Seq<u8>>) -> Seq<char>
    decreases blocks.len(),
{
    if blocks.len() == 0 {
        Seq::empty()
    } else {
        blocks_digits(blocks.drop_last()) + block_digits(blocks.last())
    }
}

/// Every block contributes exactly 19 digits.
pub proof fn lemma_blocks_digits_len(blocks: Seq<Seq<u8>>)
    ensures
        blocks_digits(blocks).len() == 19 * blocks.len(),
    decreases blocks.len(),
{
    if blocks.len() > 0 {
        lemma_blocks_digits_len(blocks.drop_last());
        lemma_decimal_digits_len(block_value(blocks.last()) as nat, 19);
    }
}

/// The digits of two runs of blocks laid end to end are their digits laid end to end.
pub proof fn lemma_blocks_digits_concat(a: Seq<Seq<u8>>, b: Seq<Seq<u8>>)
    ensures
        blocks_digits(a + b) == blocks_digits(a) + blocks_digits(b),
    decreases b.len(),
{
    if b.len() == 0 {
        assert(a + b =~= a);
        assert(blocks_digits(a) + blocks_digits(b) =~= blocks_digits(a));
    } else {
        assert((a + b).drop_last() =~= a + b.drop_last());
        assert((a + b).last() == b.last());
        lemma_blocks_digits_concat(a, b.drop_last());
        assert(blocks_digits(a) + blocks_digits(b) =~= blocks_digits(a) + blocks_digits(b.drop_last())
            + block_digits(b.last()));
    }
}

/// The `count` 8-byte blocks of a payload starting at block `from`.
pub open spec fn payload_blocks(payload: Seq<u8>, from: int, count: int) -> Seq<Seq<u8>> {
    Seq::new(count as nat, |k: int| payload.subrange(8 * (from + k), 8 * (from + k) + 8))
}

/// The digits of a file whose payload (the bytes after its header) is
/// `payload` and which holds `length` digits: its blocks' digits, cut to `length`.
pub open spec fn file_digits(payload: Seq<u8>, length: int) -> Seq<char> {
    blocks_digits(payload_blocks(payload, 0, blocks_for(length))).take(length)
}

} // verus!
