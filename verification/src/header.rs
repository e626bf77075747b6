//! The text header of a YCD file: its fields, its line structure, and the
//! metadata that the rest of the library derives from it.
use vstd::prelude::*;
use vstd::slice::slice_subrange;
use vstd::utf8::{valid_utf8, decode_utf8};
use crate::error::YcdError;
use crate::text::{trim, trim_line_breaks, split_once, spec_parse_i64, string_from_chars, utf8_chars, trim_chars, trimmed_line_len, find_char, parse_i64, index_of_first, lemma_index_of_first};

verus! {

/// A field name in the text header of a YCD file.
///
/// The header of a `.ycd` file is a sequence of `Name: value` text lines
/// terminated by an `EndHeader` marker. At the header level a "block" means
/// one file's digit span (`Blocksize` digits per file), not the 8-byte
/// compressed words of the payload.
#[derive(Debug, Clone, Copy, PartialEq, Eq, Hash, Structural)]
pub enum YcdHeaderInfoElem {
    /// Version string of the YCD file format (e.g. `1.1.0`). Must be non-empty.
    FileVersion,
    /// Numeric base of the stored digits; only base 10 is accepted.
    Base,
    /// The leading digits of the constant as plain text. Must be non-empty.
    FirstDigits,
    /// Total number of digits in the whole set; `0` means unknown.
    TotalDigits,
    /// Total number of files in the set. Optional; checked when present.
    TotalBlocks,
    /// Number of digits each file of the set holds.
    Blocksize,
    /// 0-based index of this file within the set.
    BlockID,
    /// Marker line that ends the header section; never a field.
    EndHeader,
}

impl YcdHeaderInfoElem {
    /// The field's name as it appears in a header line.
    pub open spec fn spec_name(self) -> Seq<char> {
        match self {
            YcdHeaderInfoElem::FileVersion => seq!['F', 'i', 'l', 'e', 'V', 'e', 'r', 's', 'i', 'o', 'n'],
            YcdHeaderInfoElem::Base => seq!['B', 'a', 's', 'e'],
            YcdHeaderInfoElem::FirstDigits => seq!['F', 'i', 'r', 's', 't', 'D', 'i', 'g', 'i', 't', 's'],
            YcdHeaderInfoElem::TotalDigits => seq!['T', 'o', 't', 'a', 'l', 'D', 'i', 'g', 'i', 't', 's'],
            YcdHeaderInfoElem::TotalBlocks => seq!['T', 'o', 't', 'a', 'l', 'B', 'l', 'o', 'c', 'k', 's'],
            YcdHeaderInfoElem::Blocksize => seq!['B', 'l', 'o', 'c', 'k', 's', 'i', 'z', 'e'],
            YcdHeaderInfoElem::BlockID => seq!['B', 'l', 'o', 'c', 'k', 'I', 'D'],
            YcdHeaderInfoElem::EndHeader => seq!['E', 'n', 'd', 'H', 'e', 'a', 'd', 'e', 'r'],
        }
    }

    /// The field's name as it appears in a header line.
    pub fn as_str(&self) -> (s: &'static str)
        ensures
            s@ == self.spec_name(),
    {
        match self {
            YcdHeaderInfoElem::FileVersion => {
                let s = "FileVersion";
                proof {
                    reveal_strlit("FileVersion");
                }
                s
            },
            YcdHeaderInfoElem::Base => {
                let s = "Base";
                proof {
                    reveal_strlit("Base");
                }
                s
            },
            YcdHeaderInfoElem::FirstDigits => {
                let s = "FirstDigits";
                proof {
                    reveal_strlit("FirstDigits");
                }
                s
            },
            YcdHeaderInfoElem::TotalDigits => {
                let s = "TotalDigits";
                proof {
                    reveal_strlit("TotalDigits");
                }
                s
            },
            YcdHeaderInfoElem::TotalBlocks => {
                let s = "TotalBlocks";
                proof {
                    reveal_strlit("TotalBlocks");
                }
                s
            },
            YcdHeaderInfoElem::Blocksize => {
                let s = "Blocksize";
                proof {
                    reveal_strlit("Blocksize");
                }
                s
            },
            YcdHeaderInfoElem::BlockID => {
                let s = "BlockID";
                proof {
                    reveal_strlit("BlockID");
                }
                s
            },
            YcdHeaderInfoElem::EndHeader => {
                let s = "EndHeader";
                proof {
                    reveal_strlit("EndHeader");
                }
                s
            },
        }
    }
}

fn is_fileversion(s: &[char]) -> (b: bool)
    ensures
        b == (s@ == YcdHeaderInfoElem::FileVersion.spec_name()),
{
    let r = s.len() == 11 && s[0] == 'F' && s[1] == 'i' && s[2] == 'l' && s[3] == 'e' && s[4] == 'V' && s[5] == 'e' && s[6] == 'r' && s[7] == 's' && s[8] == 'i' && s[9] == 'o' && s[10] == 'n';
    proof {
        if s@.len() == 11 {
            assert(r ==> s@ =~= YcdHeaderInfoElem::FileVersion.spec_name());
        }
    }
    r
}

fn is_base(s: &[char]) -> (b: bool)
    ensures
        b == (s@ == YcdHeaderInfoElem::Base.spec_name()),
{
    let r = s.len() == 4 && s[0] == 'B' && s[1] == 'a' && s[2] == 's' && s[3] == 'e';
    proof {
        if s@.len() == 4 {
            assert(r ==> s@ =~= YcdHeaderInfoElem::Base.spec_name());
        }
    }
    r
}

fn is_firstdigits(s: &[char]) -> (b: bool)
    ensures
        b == (s@ == YcdHeaderInfoElem::FirstDigits.spec_name()),
{
    let r = s.len() == 11 && s[0] == 'F' && s[1] == 'i' && s[2] == 'r' && s[3] == 's' && s[4] == 't' && s[5] == 'D' && s[6] == 'i' && s[7] == 'g' && s[8] == 'i' && s[9] == 't' && s[10] == 's';
    proof {
        if s@.len() == 11 {
            assert(r ==> s@ =~= YcdHeaderInfoElem::FirstDigits.spec_name());
        }
    }
    r
}

fn is_totaldigits(s: &[char]) -> (b: bool)
    ensures
        b == (s@ == YcdHeaderInfoElem::TotalDigits.spec_name()),
{
    let r = s.len() == 11 && s[0] == 'T' && s[1] == 'o' && s[2] == 't' && s[3] == 'a' && s[4] == 'l' && s[5] == 'D' && s[6] == 'i' && s[7] == 'g' && s[8] == 'i' && s[9] == 't' && s[10] == 's';
    proof {
        if s@.len() == 11 {
            assert(r ==> s@ =~= YcdHeaderInfoElem::TotalDigits.spec_name());
        }
    }
    r
}

fn is_totalblocks(s: &[char]) -> (b: bool)
    ensures
        b == (s@ == YcdHeaderInfoElem::TotalBlocks.spec_name()),
{
    let r = s.len() == 11 && s[0] == 'T' && s[1] == 'o' && s[2] == 't' && s[3] == 'a' && s[4] == 'l' && s[5] == 'B' && s[6] == 'l' && s[7] == 'o' && s[8] == 'c' && s[9] == 'k' && s[10] == 's';
    proof {
        if s@.len() == 11 {
            assert(r ==> s@ =~= YcdHeaderInfoElem::TotalBlocks.spec_name());
        }
    }
    r
}

fn is_blocksize(s: &[char]) -> (b: bool)
    ensures
        b == (s@ == YcdHeaderInfoElem::Blocksize.spec_name()),
{
    let r = s.len() == 9 && s[0] == 'B' && s[1] == 'l' && s[2] == 'o' && s[3] == 'c' && s[4] == 'k' && s[5] == 's' && s[6] == 'i' && s[7] == 'z' && s[8] == 'e';
    proof {
        if s@.len() == 9 {
            assert(r ==> s@ =~= YcdHeaderInfoElem::Blocksize.spec_name());
        }
    }
    r
}

fn is_blockid(s: &[char]) -> (b: bool)
    ensures
        b == (s@ == YcdHeaderInfoElem::BlockID.spec_name()),
{
    let r = s.len() == 7 && s[0] == 'B' && s[1] == 'l' && s[2] == 'o' && s[3] == 'c' && s[4] == 'k' && s[5] == 'I' && s[6] == 'D';
    proof {
        if s@.len() == 7 {
            assert(r ==> s@ =~= YcdHeaderInfoElem::BlockID.spec_name());
        }
    }
    r
}

fn is_endheader(s: &[char]) -> (b: bool)
    ensures
        b == (s@ == YcdHeaderInfoElem::EndHeader.spec_name()),
{
    let r = s.len() == 9 && s[0] == 'E' && s[1] == 'n' && s[2] == 'd' && s[3] == 'H' && s[4] == 'e' && s[5] == 'a' && s[6] == 'd' && s[7] == 'e' && s[8] == 'r';
    proof {
        if s@.len() == 9 {
            assert(r ==> s@ =~= YcdHeaderInfoElem::EndHeader.spec_name());
        }
    }
    r
}


/// The field that a (trimmed) header name denotes, if any.
pub open spec fn spec_header_key(name: Seq<char>) -> Option<YcdHeaderInfoElem> {
    if name == YcdHeaderInfoElem::FileVersion.spec_name() {
        Some(YcdHeaderInfoElem::FileVersion)
    }
    else if name == YcdHeaderInfoElem::Base.spec_name() {
        Some(YcdHeaderInfoElem::Base)
    }
    else if name == YcdHeaderInfoElem::FirstDigits.spec_name() {
        Some(YcdHeaderInfoElem::FirstDigits)
    }
    else if name == YcdHeaderInfoElem::TotalDigits.spec_name() {
        Some(YcdHeaderInfoElem::TotalDigits)
    }
    else if name == YcdHeaderInfoElem::TotalBlocks.spec_name() {
        Some(YcdHeaderInfoElem::TotalBlocks)
    }
    else if name == YcdHeaderInfoElem::Blocksize.spec_name() {
        Some(YcdHeaderInfoElem::Blocksize)
    }
    else if name == YcdHeaderInfoElem::BlockID.spec_name() {
        Some(YcdHeaderInfoElem::BlockID)
    } else {
        None
    }
}

/// The field that a (trimmed) header name denotes, if any.
pub fn header_key(name: &[char]) -> (k: Option<YcdHeaderInfoElem>)
    ensures
        k == spec_header_key(name@),
{
    if is_fileversion(name) {
        Some(YcdHeaderInfoElem::FileVersion)
    }
    else if is_base(name) {
        Some(YcdHeaderInfoElem::Base)
    }
    else if is_firstdigits(name) {
        Some(YcdHeaderInfoElem::FirstDigits)
    }
    else if is_totaldigits(name) {
        Some(YcdHeaderInfoElem::TotalDigits)
    }
    else if is_totalblocks(name) {
        Some(YcdHeaderInfoElem::TotalBlocks)
    }
    else if is_blocksize(name) {
        Some(YcdHeaderInfoElem::Blocksize)
    }
    else if is_blockid(name) {
        Some(YcdHeaderInfoElem::BlockID)
    } else {
        None
    }
}

/// The contents of a view of an optional character vector.
pub open spec fn opt_chars(v: Option<Vec<char>>) -> Option<Seq<char>> {
    match v {
        Some(c) => Some(c@),
        None => None,
    }
}

/// The recognised fields of a header and their (trimmed) values.
///
/// Only the fields of [`YcdHeaderInfoElem`] other than `EndHeader` can be
/// present; a field given twice keeps its last value.
#[derive(Debug, Clone)]
pub struct YcdHeader {
    file_version: Option<Vec<char>>,
    base: Option<Vec<char>>,
    first_digits: Option<Vec<char>>,
    total_digits: Option<Vec<char>>,
    total_blocks: Option<Vec<char>>,
    blocksize: Option<Vec<char>>,
    block_id: Option<Vec<char>>,
}

impl YcdHeader {
    /// The value of field `k`, if present.
    pub closed spec fn spec_value(self, k: YcdHeaderInfoElem) -> Option<Seq<char>> {
        match k {
            YcdHeaderInfoElem::FileVersion => opt_chars(self.file_version),
            YcdHeaderInfoElem::Base => opt_chars(self.base),
            YcdHeaderInfoElem::FirstDigits => opt_chars(self.first_digits),
            YcdHeaderInfoElem::TotalDigits => opt_chars(self.total_digits),
            YcdHeaderInfoElem::TotalBlocks => opt_chars(self.total_blocks),
            YcdHeaderInfoElem::Blocksize => opt_chars(self.blocksize),
            YcdHeaderInfoElem::BlockID => opt_chars(self.block_id),
            YcdHeaderInfoElem::EndHeader => None,
        }
    }

    /// A header with no fields.
    pub fn new() -> (h: Self)
        ensures
            h@ == Map::<YcdHeaderInfoElem, Seq<char>>::empty(),
    {
        let h = YcdHeader {
            file_version: None,
            base: None,
            first_digits: None,
            total_digits: None,
            total_blocks: None,
            blocksize: None,
            block_id: None,
        };
        assert(h@ =~= Map::<YcdHeaderInfoElem, Seq<char>>::empty());
        h
    }

    fn slot(&self, k: YcdHeaderInfoElem) -> (r: &Option<Vec<char>>)
        ensures
            opt_chars(*r) == self.spec_value(k),
    {
        match k {
            YcdHeaderInfoElem::FileVersion => &self.file_version,
            YcdHeaderInfoElem::Base => &self.base,
            YcdHeaderInfoElem::FirstDigits => &self.first_digits,
            YcdHeaderInfoElem::TotalDigits => &self.total_digits,
            YcdHeaderInfoElem::TotalBlocks => &self.total_blocks,
            YcdHeaderInfoElem::Blocksize => &self.blocksize,
            YcdHeaderInfoElem::BlockID => &self.block_id,
            YcdHeaderInfoElem::EndHeader => &None,
        }
    }

    /// The characters of field `k`, if present.
    pub fn value_chars(&self, k: YcdHeaderInfoElem) -> (r: Option<&Vec<char>>)
        ensures
            r is Some <==> self@.contains_key(k),
            r matches Some(v) ==> v@ == self@[k],
    {
        match self.slot(k) {
            Some(v) => Some(v),
            None => None,
        }
    }

    /// The value of field `k`, if present.
    pub fn get(&self, k: YcdHeaderInfoElem) -> (r: Option<String>)
        ensures
            r is Some <==> self@.contains_key(k),
            r matches Some(s) ==> s@ == self@[k],
    {
        match self.value_chars(k) {
            Some(v) => Some(string_from_chars(v.as_slice())),
            None => None,
        }
    }

    /// Whether field `k` is present.
    pub fn contains_key(&self, k: YcdHeaderInfoElem) -> (b: bool)
        ensures
            b == self@.contains_key(k),
    {
        self.value_chars(k).is_some()
    }

    /// Set field `k` to `v`, replacing an earlier value.
    pub fn set(&mut self, k: YcdHeaderInfoElem, v: Vec<char>)
        requires
            k != YcdHeaderInfoElem::EndHeader,
        ensures
            final(self)@ == old(self)@.insert(k, v@),
    {
        let ghost v0 = v@;
        match k {
            YcdHeaderInfoElem::FileVersion => self.file_version = Some(v),
            YcdHeaderInfoElem::Base => self.base = Some(v),
            YcdHeaderInfoElem::FirstDigits => self.first_digits = Some(v),
            YcdHeaderInfoElem::TotalDigits => self.total_digits = Some(v),
            YcdHeaderInfoElem::TotalBlocks => self.total_blocks = Some(v),
            YcdHeaderInfoElem::Blocksize => self.blocksize = Some(v),
            YcdHeaderInfoElem::BlockID => self.block_id = Some(v),
            YcdHeaderInfoElem::EndHeader => {},
        }
        assert(self@ =~= old(self)@.insert(k, v0));
    }
}

impl View for YcdHeader {
    type V = Map<YcdHeaderInfoElem, Seq<char>>;

    closed spec fn view(&self) -> Map<YcdHeaderInfoElem, Seq<char>> {
        Map::new(|k: YcdHeaderInfoElem| self.spec_value(k) is Some, |k: YcdHeaderInfoElem| self.spec_value(k)->0)
    }
}

/// Index just past the end of the line that starts at `p`: past its `\n`,
/// or the end of `c` when the line has none.
pub open spec fn line_end(c: Seq<u8>, p: int) -> int
    decreases c.len() - p,
{
    if p < 0 || p >= c.len() {
        c.len() as int
    } else if c[p] == 10u8 {
        p + 1
    } else {
        line_end(c, p + 1)
    }
}

/// A line ends just past its first `\n`, or at the end of the bytes.
pub proof fn lemma_line_end(c: Seq<u8>, p: int)
    requires
        0 <= p < c.len(),
    ensures
        p < line_end(c, p) <= c.len(),
        forall|j: int| p <= j < line_end(c, p) - 1 ==> c[j] != 10u8,
        line_end(c, p) < c.len() ==> c[line_end(c, p) - 1] == 10u8,
    decreases c.len() - p,
{
    reveal_with_fuel(line_end, 2);
    if c[p] != 10u8 && p + 1 < c.len() {
        lemma_line_end(c, p + 1);
    }
}

/// The text of a header line: its characters without trailing line breaks.
pub open spec fn line_text(line: Seq<u8>) -> Seq<char> {
    trim_line_breaks(decode_utf8(line))
}

/// The effect of one (non-`EndHeader`) header line on the fields read so far:
/// blank lines, `#` comments, lines without `:` and unknown names are skipped.
pub open spec fn apply_line(
    h: Map<YcdHeaderInfoElem, Seq<char>>,
    t: Seq<char>,
) -> Map<YcdHeaderInfoElem, Seq<char>> {
    if t.len() == 0 || t[0] == '#' {
        h
    } else {
        match split_once(t, ':') {
            None => h,
            Some((name, value)) => match spec_header_key(trim(name)) {
                Some(k) => h.insert(k, trim(value)),
                None => h,
            },
        }
    }
}

/// The error for running out of bytes: final when `at_end`, otherwise a
/// request for more.
pub open spec fn out_of_bytes(at_end: bool, final_error: YcdError) -> YcdError {
    if at_end {
        final_error
    } else {
        YcdError::NeedMoreInput
    }
}

/// Length of the data marker at `q` (right after the `EndHeader` line):
/// a NUL byte, optionally preceded by `\n` or `\r\n`.
pub open spec fn marker_length(c: Seq<u8>, q: int, at_end: bool) -> Result<int, YcdError> {
    let short = out_of_bytes(at_end, YcdError::IncompleteHeader);
    if q >= c.len() {
        Err(short)
    } else if c[q] == 0u8 {
        Ok(1)
    } else if c[q] == 10u8 {
        if q + 1 >= c.len() {
            Err(short)
        } else if c[q + 1] == 0u8 {
            Ok(2)
        } else {
            Err(YcdError::MissingNulMarker)
        }
    } else if c[q] == 13u8 {
        if q + 1 >= c.len() {
            Err(short)
        } else if c[q + 1] != 10u8 {
            Err(YcdError::InvalidLineEnding)
        } else if q + 2 >= c.len() {
            Err(short)
        } else if c[q + 2] == 0u8 {
            Ok(3)
        } else {
            Err(YcdError::MissingNulMarker)
        }
    } else {
        Err(YcdError::MissingNulMarker)
    }
}

/// Read the header lines of `c` from byte `p` on, with the fields `h` read so
/// far: the fields and the offset of the payload, or the error met.
///
/// `at_end` says whether `c` holds the whole file; when it does not, every
/// point at which more bytes could change the outcome yields `NeedMoreInput`.
pub open spec fn scan_header(
    c: Seq<u8>,
    p: int,
    h: Map<YcdHeaderInfoElem, Seq<char>>,
    at_end: bool,
) -> Result<(Map<YcdHeaderInfoElem, Seq<char>>, int), YcdError>
    decreases c.len() - p,
{
    if p < 0 || p >= c.len() {
        Err(out_of_bytes(at_end, YcdError::MissingEndHeader))
    } else {
        let q = line_end(c, p);
        if !at_end && c[q - 1] != 10u8 {
            Err(YcdError::NeedMoreInput)
        } else if !valid_utf8(c.subrange(p, q)) {
            Err(YcdError::HeaderNotUtf8)
        } else {
            let t = line_text(c.subrange(p, q));
            if t == YcdHeaderInfoElem::EndHeader.spec_name() {
                match marker_length(c, q, at_end) {
                    Ok(m) => Ok((h, q + m)),
                    Err(e) => Err(e),
                }
            } else {
                proof {
                    lemma_line_end(c, p);
                }
                scan_header(c, q, apply_line(h, t), at_end)
            }
        }
    }
}

/// Find the end of the line that starts at `p`.
fn find_line_end(bytes: &[u8], p: usize) -> (q: usize)
    requires
        p < bytes@.len(),
    ensures
        q == line_end(bytes@, p as int),
{
    let n = bytes.len();
    let mut i = p;
    while i < n && bytes[i] != 10u8
        invariant
            p <= i <= n == bytes@.len(),
            line_end(bytes@, p as int) == line_end(bytes@, i as int),
        decreases n - i,
    {
        i = i + 1;
    }
    if i < n {
        i + 1
    } else {
        n
    }
}

/// The data marker that follows the `EndHeader` line at byte `q`.
fn read_marker(bytes: &[u8], q: usize, at_end: bool) -> (res: Result<usize, YcdError>)
    ensures
        match res {
            Ok(m) => marker_length(bytes@, q as int, at_end) == Ok::<int, YcdError>(m as int),
            Err(e) => marker_length(bytes@, q as int, at_end) == Err::<int, YcdError>(e),
        },
{
    let n = bytes.len();
    let short = if at_end {
        YcdError::IncompleteHeader
    } else {
        YcdError::NeedMoreInput
    };
    if q >= n {
        return Err(short);
    }
    let first = bytes[q];
    if first == 0u8 {
        Ok(1)
    } else if first == 10u8 {
        if q + 1 >= n {
            Err(short)
        } else if bytes[q + 1] == 0u8 {
            Ok(2)
        } else {
            Err(YcdError::MissingNulMarker)
        }
    } else if first == 13u8 {
        if q + 1 >= n {
            Err(short)
        } else if bytes[q + 1] != 10u8 {
            Err(YcdError::InvalidLineEnding)
        } else if q + 2 >= n {
            Err(short)
        } else if bytes[q + 2] == 0u8 {
            Ok(3)
        } else {
            Err(YcdError::MissingNulMarker)
        }
    } else {
        Err(YcdError::MissingNulMarker)
    }
}

/// Apply one header line (already known not to be `EndHeader`).
fn apply_header_line(header: &mut YcdHeader, t: &[char])
    ensures
        final(header)@ == apply_line(old(header)@, t@),
{
    if t.len() == 0 || t[0] == '#' {
        return;
    }
    let k = find_char(t, ':');
    proof {
        lemma_index_of_first(t@, ':');
    }
    if k >= t.len() {
        return;
    }
    let name = trim_chars(slice_subrange(t, 0, k));
    let value = trim_chars(slice_subrange(t, k + 1, t.len()));
    proof {
        assert(t@.subrange(0, k as int) =~= t@.take(k as int));
        assert(t@.subrange(k + 1, t@.len() as int) =~= t@.skip(k + 1));
    }
    match header_key(name.as_slice()) {
        Some(key) => header.set(key, value),
        None => {},
    }
}

/// Read the header section of `bytes`: the fields and the payload offset.
fn read_header_section(bytes: &[u8], at_end: bool) -> (res: Result<(YcdHeader, usize), YcdError>)
    ensures
        match res {
            Ok((h, off)) => scan_header(bytes@, 0, Map::empty(), at_end) == Ok::<
                (Map<YcdHeaderInfoElem, Seq<char>>, int),
                YcdError,
            >((h@, off as int)),
            Err(e) => scan_header(bytes@, 0, Map::empty(), at_end) == Err::<
                (Map<YcdHeaderInfoElem, Seq<char>>, int),
                YcdError,
            >(e),
        },
{
    let n = bytes.len();
    let mut header = YcdHeader::new();
    let mut p: usize = 0;
    loop
        invariant
            p <= n == bytes@.len(),
            scan_header(bytes@, 0, Map::empty(), at_end) == scan_header(bytes@, p as int, header@, at_end),
        decreases n - p,
    {
        if p >= n {
            return Err(
                if at_end {
                    YcdError::MissingEndHeader
                } else {
                    YcdError::NeedMoreInput
                },
            );
        }
        let q = find_line_end(bytes, p);
        proof {
            lemma_line_end(bytes@, p as int);
        }
        if !at_end && bytes[q - 1] != 10u8 {
            return Err(YcdError::NeedMoreInput);
        }
        let line = slice_subrange(bytes, p, q);
        let chars = match utf8_chars(line) {
            Some(v) => v,
            None => {
                return Err(YcdError::HeaderNotUtf8);
            },
        };
        let tl = trimmed_line_len(chars.as_slice());
        let text = slice_subrange(chars.as_slice(), 0, tl);
        proof {
            assert(chars@.subrange(0, tl as int) =~= chars@.take(tl as int));
        }
        if is_endheader(text) {
            let m = read_marker(bytes, q, at_end)?;
            return Ok((header, q + m));
        }
        apply_header_line(&mut header, text);
        p = q;
    }
}

/// A header field read as a nonnegative `i64`.
pub open spec fn spec_nonneg_field(h: Map<YcdHeaderInfoElem, Seq<char>>, k: YcdHeaderInfoElem) -> Result<int, YcdError> {
    if !h.contains_key(k) {
        Err(YcdError::MissingField { field: k })
    } else {
        match spec_parse_i64(h[k]) {
            Some(v) => if v >= 0 {
                Ok(v)
            } else {
                Err(YcdError::NotNonnegative { field: k })
            },
            None => Err(YcdError::NotNonnegative { field: k }),
        }
    }
}

/// A header field read as a positive `i64`.
pub open spec fn spec_positive_field(h: Map<YcdHeaderInfoElem, Seq<char>>, k: YcdHeaderInfoElem) -> Result<int, YcdError> {
    match spec_nonneg_field(h, k) {
        Ok(v) => if v == 0 {
            Err(YcdError::NotPositive { field: k })
        } else {
            Ok(v)
        },
        Err(e) => Err(e),
    }
}

/// Whether a present field is empty.
pub open spec fn empty_field(h: Map<YcdHeaderInfoElem, Seq<char>>, k: YcdHeaderInfoElem) -> bool {
    h[k].len() == 0
}

/// The digits a file covers, from its header fields: `(digit_length, digit_start)`,
/// or the first rule the header breaks.
///
/// The file starts at digit `Blocksize * BlockID + 1`. Its length is
/// `Blocksize` when `TotalDigits` is 0, and otherwise
/// `min(Blocksize, TotalDigits - Blocksize * BlockID)`, which must not be 0.
pub open spec fn spec_digit_range(h: Map<YcdHeaderInfoElem, Seq<char>>) -> Result<(int, int), YcdError> {
    match spec_positive_field(h, YcdHeaderInfoElem::Blocksize) {
        Err(e) => Err(e),
        Ok(block_size) => match spec_nonneg_field(h, YcdHeaderInfoElem::BlockID) {
            Err(e) => Err(e),
            Ok(block_id) => if !h.contains_key(YcdHeaderInfoElem::FileVersion) {
                Err(YcdError::MissingField { field: YcdHeaderInfoElem::FileVersion })
            } else if empty_field(h, YcdHeaderInfoElem::FileVersion) {
                Err(YcdError::EmptyFileVersion)
            } else if !h.contains_key(YcdHeaderInfoElem::FirstDigits) {
                Err(YcdError::MissingField { field: YcdHeaderInfoElem::FirstDigits })
            } else if empty_field(h, YcdHeaderInfoElem::FirstDigits) {
                Err(YcdError::EmptyFirstDigits)
            } else {
                match spec_nonneg_field(h, YcdHeaderInfoElem::Base) {
                    Err(e) => Err(e),
                    Ok(base) => if base != 10 {
                        Err(YcdError::NotBase10)
                    } else {
                        match spec_nonneg_field(h, YcdHeaderInfoElem::TotalDigits) {
                            Err(e) => Err(e),
                            Ok(total) => if h.contains_key(YcdHeaderInfoElem::TotalBlocks)
                                && spec_nonneg_field(h, YcdHeaderInfoElem::TotalBlocks) is Err {
                                Err(spec_nonneg_field(h, YcdHeaderInfoElem::TotalBlocks)->Err_0)
                            } else if block_size * block_id > i64::MAX {
                                Err(YcdError::DigitPositionOverflow)
                            } else if total != 0 && total - block_size * block_id == 0 {
                                Err(YcdError::BlockIdBeyondTotalDigits)
                            } else if block_size * block_id + 1 > i64::MAX {
                                Err(YcdError::DigitPositionOverflow)
                            } else {
                                let offset = block_size * block_id;
                                let length = if total == 0 {
                                    block_size
                                } else if total - offset < block_size {
                                    total - offset
                                } else {
                                    block_size
                                };
                                Ok((length, offset + 1))
                            },
                        }
                    },
                }
            },
        },
    }
}

/// What parsing a file's leading bytes `c` yields: its header fields, the
/// offset of its payload, and the length and 1-based start of its digit range.
pub open spec fn spec_parse_metadata(c: Seq<u8>, at_end: bool) -> Result<
    (Map<YcdHeaderInfoElem, Seq<char>>, int, int, int),
    YcdError,
> {
    match scan_header(c, 0, Map::empty(), at_end) {
        Err(e) => Err(e),
        Ok((h, off)) => match spec_digit_range(h) {
            Err(e) => Err(e),
            Ok((length, start)) => Ok((h, off, length, start)),
        },
    }
}

/// What the library learns from a file's header.
///
/// Every value of this type comes from [`parse_metadata`]: the file starts at
/// a digit position of at least 1, and its digit length is never 0.
#[derive(Debug)]
pub struct YcdMetadata {
    header: YcdHeader,
    data_offset: u64,
    digit_length: i64,
    digit_start: i64,
}

impl YcdMetadata {
    #[verifier::type_invariant]
    spec fn inv(self) -> bool {
        self.digit_start >= 1 && self.digit_length != 0
    }

    /// The recognised header fields.
    pub closed spec fn spec_header(self) -> Map<YcdHeaderInfoElem, Seq<char>> {
        self.header@
    }

    /// Byte offset at which the compressed 8-byte blocks start.
    pub closed spec fn spec_data_offset(self) -> u64 {
        self.data_offset
    }

    /// Number of digits the file covers. Negative when `BlockID` lies beyond
    /// `TotalDigits` (such a file yields no digits); never 0.
    pub closed spec fn spec_digit_length(self) -> i64 {
        self.digit_length
    }

    /// 1-based absolute position of the file's first digit.
    pub closed spec fn spec_digit_start(self) -> i64 {
        self.digit_start
    }

    /// The four parts of this metadata, as the parse result they come from.
    pub open spec fn spec_parts(self) -> (Map<YcdHeaderInfoElem, Seq<char>>, int, int, int) {
        (
            self.spec_header(),
            self.spec_data_offset() as int,
            self.spec_digit_length() as int,
            self.spec_digit_start() as int,
        )
    }

    /// The recognised header fields.
    pub fn header(&self) -> (h: &YcdHeader)
        ensures
            h@ == self.spec_header(),
    {
        &self.header
    }

    /// The recognised header fields, taking them out of the metadata.
    pub fn into_header(self) -> (h: YcdHeader)
        ensures
            h@ == self.spec_header(),
    {
        self.header
    }

    /// Byte offset at which the compressed 8-byte blocks start.
    pub fn data_offset(&self) -> (r: u64)
        ensures
            r == self.spec_data_offset(),
    {
        self.data_offset
    }

    /// Number of digits the file covers.
    pub fn digit_length(&self) -> (r: i64)
        ensures
            r == self.spec_digit_length(),
            r != 0,
    {
        proof {
            use_type_invariant(self);
        }
        self.digit_length
    }

    /// 1-based absolute position of the file's first digit.
    pub fn digit_start(&self) -> (r: i64)
        ensures
            r == self.spec_digit_start(),
            r >= 1,
    {
        proof {
            use_type_invariant(self);
        }
        self.digit_start
    }
}

/// A successful digit range starts at 1 or later and is never empty.
pub proof fn lemma_digit_range_valid(h: Map<YcdHeaderInfoElem, Seq<char>>)
    ensures
        spec_digit_range(h) matches Ok((l, s)) ==> s >= 1 && l != 0,
{
    match spec_positive_field(h, YcdHeaderInfoElem::Blocksize) {
        Ok(bs) => match spec_nonneg_field(h, YcdHeaderInfoElem::BlockID) {
            Ok(bid) => {
                assert(bs * bid >= 0) by (nonlinear_arith)
                    requires
                        bs >= 0,
                        bid >= 0,
                ;
            },
            Err(_) => {},
        },
        Err(_) => {},
    }
}

/// The value of a required field.
pub fn required_value(header: &YcdHeader, key: YcdHeaderInfoElem) -> (res: Result<&Vec<char>, YcdError>)
    ensures
        res is Ok <==> header@.contains_key(key),
        res matches Ok(v) ==> v@ == header@[key],
        res matches Err(e) ==> e == (YcdError::MissingField { field: key }),
{
    match header.value_chars(key) {
        Some(v) => Ok(v),
        None => Err(YcdError::MissingField { field: key }),
    }
}

/// A required field read as a nonnegative integer.
pub fn parse_nonnegative_i64(header: &YcdHeader, key: YcdHeaderInfoElem) -> (res: Result<i64, YcdError>)
    ensures
        match res {
            Ok(v) => spec_nonneg_field(header@, key) == Ok::<int, YcdError>(v as int),
            Err(e) => spec_nonneg_field(header@, key) == Err::<int, YcdError>(e),
        },
{
    let text = required_value(header, key)?;
    match parse_i64(text.as_slice()) {
        Some(v) => if v < 0 {
            Err(YcdError::NotNonnegative { field: key })
        } else {
            Ok(v)
        },
        None => Err(YcdError::NotNonnegative { field: key }),
    }
}

/// A required field read as a positive integer.
pub fn parse_positive_i64(header: &YcdHeader, key: YcdHeaderInfoElem) -> (res: Result<i64, YcdError>)
    ensures
        match res {
            Ok(v) => spec_positive_field(header@, key) == Ok::<int, YcdError>(v as int),
            Err(e) => spec_positive_field(header@, key) == Err::<int, YcdError>(e),
        },
{
    let value = parse_nonnegative_i64(header, key)?;
    if value == 0 {
        return Err(YcdError::NotPositive { field: key });
    }
    Ok(value)
}

fn digit_range(header: &YcdHeader) -> (res: Result<(i64, i64), YcdError>)
    ensures
        match res {
            Ok((l, s)) => spec_digit_range(header@) == Ok::<(int, int), YcdError>((l as int, s as int)),
            Err(e) => spec_digit_range(header@) == Err::<(int, int), YcdError>(e),
        },
{
    let block_size = parse_positive_i64(header, YcdHeaderInfoElem::Blocksize)?;
    let block_id = parse_nonnegative_i64(header, YcdHeaderInfoElem::BlockID)?;
    let version = required_value(header, YcdHeaderInfoElem::FileVersion)?;
    if version.len() == 0 {
        return Err(YcdError::EmptyFileVersion);
    }
    let first = required_value(header, YcdHeaderInfoElem::FirstDigits)?;
    if first.len() == 0 {
        return Err(YcdError::EmptyFirstDigits);
    }
    let base = parse_nonnegative_i64(header, YcdHeaderInfoElem::Base)?;
    if base != 10 {
        return Err(YcdError::NotBase10);
    }
    let total_digits = parse_nonnegative_i64(header, YcdHeaderInfoElem::TotalDigits)?;
    if header.contains_key(YcdHeaderInfoElem::TotalBlocks) {
        parse_nonnegative_i64(header, YcdHeaderInfoElem::TotalBlocks)?;
    }
    let digit_offset = match block_size.checked_mul(block_id) {
        Some(v) => v,
        None => {
            return Err(YcdError::DigitPositionOverflow);
        },
    };
    let digit_length = if total_digits == 0 {
        block_size
    } else {
        let remaining = total_digits - digit_offset;
        if remaining == 0 {
            return Err(YcdError::BlockIdBeyondTotalDigits);
        }
        if remaining < block_size {
            remaining
        } else {
            block_size
        }
    };
    let digit_start = match digit_offset.checked_add(1) {
        Some(v) => v,
        None => {
            return Err(YcdError::DigitPositionOverflow);
        },
    };
    Ok((digit_length, digit_start))
}

/// Parse the header at the start of a YCD file.
///
/// `bytes` are the file's leading bytes; `at_end` says whether they are the
/// whole file. When they are not, `NeedMoreInput` asks for more bytes
/// wherever the rest of the file could change the outcome.
pub fn parse_metadata(bytes: &[u8], at_end: bool) -> (res: Result<YcdMetadata, YcdError>)
    ensures
        match res {
            Ok(m) => spec_parse_metadata(bytes@, at_end) == Ok::<
                (Map<YcdHeaderInfoElem, Seq<char>>, int, int, int),
                YcdError,
            >(m.spec_parts()),
            Err(e) => spec_parse_metadata(bytes@, at_end) == Err::<
                (Map<YcdHeaderInfoElem, Seq<char>>, int, int, int),
                YcdError,
            >(e),
        },
        res matches Ok(m) ==> {
            let h = m.spec_header();
            let block_size = field_value(h, YcdHeaderInfoElem::Blocksize);
            let block_id = field_value(h, YcdHeaderInfoElem::BlockID);
            let total = field_value(h, YcdHeaderInfoElem::TotalDigits);
            &&& m.spec_digit_start() == block_size * block_id + 1
            &&& m.spec_digit_length() <= block_size
            &&& total == 0 ==> m.spec_digit_length() == block_size
            &&& total > 0 ==> m.spec_digit_length() <= total - block_size * block_id
            &&& total >= block_size * (block_id + 1) ==> m.spec_digit_length() == block_size
        },
{
    let (header, data_offset) = read_header_section(bytes, at_end)?;
    let (digit_length, digit_start) = digit_range(&header)?;
    proof {
        lemma_digit_range_valid(header@);
        lemma_digit_range_from_fields(header@);
    }
    Ok(YcdMetadata { header, data_offset: data_offset as u64, digit_length, digit_start })
}

/// Stateless access to a single file's header.
pub struct YcdFileUtil;

impl YcdFileUtil {
    /// The size of a file's header section in bytes: the offset at which the
    /// compressed payload starts (past the `EndHeader` line and the NUL
    /// data marker). Fails as [`parse_metadata`] does, and with
    /// `HeaderTooLarge` when the size does not fit in `i32`.
    pub fn get_header_size(bytes: &[u8], at_end: bool) -> (res: Result<i32, YcdError>)
        ensures
            match spec_parse_metadata(bytes@, at_end) {
                Ok(parts) => if parts.1 <= i32::MAX {
                    res == Ok::<i32, YcdError>(parts.1 as i32)
                } else {
                    res == Err::<i32, YcdError>(YcdError::HeaderTooLarge)
                },
                Err(e) => res == Err::<i32, YcdError>(e),
            },
    {
        let meta = parse_metadata(bytes, at_end)?;
        let offset = meta.data_offset();
        if offset > 0x7fff_ffffu64 {
            return Err(YcdError::HeaderTooLarge);
        }
        Ok(offset as i32)
    }

    /// A file's recognised header fields with their trimmed values.
    /// `EndHeader` is never among them. Fails as [`parse_metadata`] does.
    pub fn get_ycd_header(bytes: &[u8], at_end: bool) -> (res: Result<YcdHeader, YcdError>)
        ensures
            match spec_parse_metadata(bytes@, at_end) {
                Ok(parts) => res matches Ok(h) && h@ == parts.0,
                Err(e) => res == Err::<YcdHeader, YcdError>(e),
            },
            res matches Ok(h) ==> !h@.contains_key(YcdHeaderInfoElem::EndHeader),
    {
        let meta = parse_metadata(bytes, at_end)?;
        let header = meta.into_header();
        proof {
            lemma_header_never_holds_end_marker(header);
        }
        Ok(header)
    }
}

/// `EndHeader` is never a field of a header.
pub proof fn lemma_header_never_holds_end_marker(h: YcdHeader)
    ensures
        !h@.contains_key(YcdHeaderInfoElem::EndHeader),
{
}

proof fn lemma_line_end_prefix(c: Seq<u8>, n: int, p: int)
    requires
        0 <= p < n <= c.len(),
        c.take(n)[line_end(c.take(n), p) - 1] == 10u8,
    ensures
        line_end(c, p) == line_end(c.take(n), p),
    decreases n - p,
{
    let pre = c.take(n);
    lemma_line_end(pre, p);
    if pre[p] != 10u8 {
        if p + 1 < n {
            lemma_line_end_prefix(c, n, p + 1);
        }
    }
}

proof fn lemma_scan_prefix(
    c: Seq<u8>,
    n: int,
    p: int,
    h: Map<YcdHeaderInfoElem, Seq<char>>,
)
    requires
        0 <= p <= n <= c.len(),
        scan_header(c.take(n), p, h, false) != Err::<(Map<YcdHeaderInfoElem, Seq<char>>, int), YcdError>(
            YcdError::NeedMoreInput,
        ),
    ensures
        scan_header(c.take(n), p, h, false) == scan_header(c, p, h, true),
    decreases n - p,
{
    let pre = c.take(n);
    if p < n {
        let q = line_end(pre, p);
        lemma_line_end(pre, p);
        lemma_line_end_prefix(c, n, p);
        assert(pre.subrange(p, q) =~= c.subrange(p, q));
        if valid_utf8(pre.subrange(p, q)) {
            let t = line_text(pre.subrange(p, q));
            if t != YcdHeaderInfoElem::EndHeader.spec_name() {
                lemma_scan_prefix(c, n, q, apply_line(h, t));
            }
        }
    }
}

proof fn lemma_scan_whole(c: Seq<u8>, p: int, h: Map<YcdHeaderInfoElem, Seq<char>>)
    requires
        0 <= p,
    ensures
        scan_header(c, p, h, true) != Err::<(Map<YcdHeaderInfoElem, Seq<char>>, int), YcdError>(
            YcdError::NeedMoreInput,
        ),
    decreases c.len() - p,
{
    if p < c.len() {
        let q = line_end(c, p);
        lemma_line_end(c, p);
        if valid_utf8(c.subrange(p, q)) {
            let t = line_text(c.subrange(p, q));
            if t != YcdHeaderInfoElem::EndHeader.spec_name() {
                lemma_scan_whole(c, q, apply_line(h, t));
            }
        }
    }
}

/// Reading only a prefix of a file decides its header exactly as reading the
/// whole file does, unless the prefix is too short to decide, in which case
/// the answer is `NeedMoreInput`. And the whole file never asks for more.
pub proof fn lemma_parse_metadata_prefix(c: Seq<u8>, n: int)
    requires
        0 <= n <= c.len(),
    ensures
        spec_parse_metadata(c, true) != Err::<(Map<YcdHeaderInfoElem, Seq<char>>, int, int, int), YcdError>(
            YcdError::NeedMoreInput,
        ),
        spec_parse_metadata(c.take(n), false) != Err::<(Map<YcdHeaderInfoElem, Seq<char>>, int, int, int), YcdError>(
            YcdError::NeedMoreInput,
        ) ==> spec_parse_metadata(c.take(n), false) == spec_parse_metadata(c, true),
{
    lemma_scan_whole(c, 0, Map::empty());
    if scan_header(c.take(n), 0, Map::empty(), false) != Err::<(Map<YcdHeaderInfoElem, Seq<char>>, int), YcdError>(
        YcdError::NeedMoreInput,
    ) {
        lemma_scan_prefix(c, n, 0, Map::empty());
    }
}


/// The integer a header field holds, read as `str::parse::<i64>` reads it.
pub open spec fn field_value(h: Map<YcdHeaderInfoElem, Seq<char>>, k: YcdHeaderInfoElem) -> int {
    spec_parse_i64(h[k])->0
}

/// A file's digit range follows from its header fields: it starts right
/// after `Blocksize * BlockID` digits, and it never holds more than
/// `Blocksize` digits. With `TotalDigits` 0 it holds exactly `Blocksize`;
/// otherwise it holds as many as remain before `TotalDigits`, but at most
/// `Blocksize`, so that every file of a set that ends before `TotalDigits`
/// holds exactly `Blocksize` digits.
pub proof fn lemma_digit_range_from_fields(h: Map<YcdHeaderInfoElem, Seq<char>>)
    ensures
        spec_digit_range(h) matches Ok((length, start)) ==> {
            let block_size = field_value(h, YcdHeaderInfoElem::Blocksize);
            let block_id = field_value(h, YcdHeaderInfoElem::BlockID);
            let total = field_value(h, YcdHeaderInfoElem::TotalDigits);
            &&& block_size >= 1
            &&& block_id >= 0
            &&& total >= 0
            &&& start == block_size * block_id + 1
            &&& length <= block_size
            &&& total == 0 ==> length == block_size
            &&& total > 0 ==> length <= total - block_size * block_id
            &&& total > 0 ==> (length == block_size || length == total - block_size * block_id)
            &&& total >= block_size * (block_id + 1) ==> length == block_size
        },
{
    let bs = field_value(h, YcdHeaderInfoElem::Blocksize);
    let id = field_value(h, YcdHeaderInfoElem::BlockID);
    assert(bs * (id + 1) == bs * id + bs) by (nonlinear_arith);
}

proof fn lemma_same_field(h1: Map<YcdHeaderInfoElem, Seq<char>>, h2: Map<YcdHeaderInfoElem, Seq<char>>, k: YcdHeaderInfoElem)
    requires
        h1.remove(YcdHeaderInfoElem::FirstDigits) == h2.remove(YcdHeaderInfoElem::FirstDigits),
        k != YcdHeaderInfoElem::FirstDigits,
    ensures
        h1.contains_key(k) == h2.contains_key(k),
        h1.contains_key(k) ==> h1[k] == h2[k],
{
    let r1 = h1.remove(YcdHeaderInfoElem::FirstDigits);
    let r2 = h2.remove(YcdHeaderInfoElem::FirstDigits);
    assert(r1.contains_key(k) == h1.contains_key(k));
    assert(r2.contains_key(k) == h2.contains_key(k));
    if h1.contains_key(k) {
        assert(r1[k] == h1[k]);
        assert(r2[k] == h2[k]);
    }
}

/// A header is accepted or refused whatever its non-empty `FirstDigits`
/// says: two headers that differ only in a non-empty `FirstDigits` value
/// give the same digit range, or the same error. Nothing in the header is
/// specific to one constant.
pub proof fn lemma_first_digits_content_ignored(
    h1: Map<YcdHeaderInfoElem, Seq<char>>,
    h2: Map<YcdHeaderInfoElem, Seq<char>>,
)
    requires
        h1.remove(YcdHeaderInfoElem::FirstDigits) == h2.remove(YcdHeaderInfoElem::FirstDigits),
        h1.contains_key(YcdHeaderInfoElem::FirstDigits),
        h2.contains_key(YcdHeaderInfoElem::FirstDigits),
        h1[YcdHeaderInfoElem::FirstDigits].len() > 0,
        h2[YcdHeaderInfoElem::FirstDigits].len() > 0,
    ensures
        spec_digit_range(h1) == spec_digit_range(h2),
{
    lemma_same_field(h1, h2, YcdHeaderInfoElem::FileVersion);
    lemma_same_field(h1, h2, YcdHeaderInfoElem::Base);
    lemma_same_field(h1, h2, YcdHeaderInfoElem::TotalDigits);
    lemma_same_field(h1, h2, YcdHeaderInfoElem::TotalBlocks);
    lemma_same_field(h1, h2, YcdHeaderInfoElem::Blocksize);
    lemma_same_field(h1, h2, YcdHeaderInfoElem::BlockID);
    assert(spec_nonneg_field(h1, YcdHeaderInfoElem::Blocksize) == spec_nonneg_field(h2, YcdHeaderInfoElem::Blocksize));
    assert(spec_nonneg_field(h1, YcdHeaderInfoElem::BlockID) == spec_nonneg_field(h2, YcdHeaderInfoElem::BlockID));
    assert(spec_nonneg_field(h1, YcdHeaderInfoElem::Base) == spec_nonneg_field(h2, YcdHeaderInfoElem::Base));
    assert(spec_nonneg_field(h1, YcdHeaderInfoElem::TotalDigits) == spec_nonneg_field(h2, YcdHeaderInfoElem::TotalDigits));
    assert(spec_nonneg_field(h1, YcdHeaderInfoElem::TotalBlocks) == spec_nonneg_field(h2, YcdHeaderInfoElem::TotalBlocks));
    assert(h1.contains_key(YcdHeaderInfoElem::FileVersion) == h2.contains_key(YcdHeaderInfoElem::FileVersion));
    assert(h1.contains_key(YcdHeaderInfoElem::TotalBlocks) == h2.contains_key(YcdHeaderInfoElem::TotalBlocks));
    if h1.contains_key(YcdHeaderInfoElem::FileVersion) {
        assert(h1[YcdHeaderInfoElem::FileVersion] == h2[YcdHeaderInfoElem::FileVersion]);
    }
}

} // verus!
