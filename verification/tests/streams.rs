use ycd_reader::{
    check_stream_from_request, check_stream_request, parse_metadata, MultiStep, SeqStep, YcdError, YcdErrorKind, YcdMultiFileState, YcdProcessUnit, YcdSeqBlockState,
};

fn encode_digits(digits: &str) -> Vec<u8> {
    let mut encoded = Vec::new();
    for chunk in digits.as_bytes().chunks(19) {
        let mut block = String::from_utf8(chunk.to_vec()).unwrap();
        while block.len() < 19 {
            block.push('0');
        }
        encoded.extend(block.parse::<u64>().unwrap().to_le_bytes());
    }
    encoded
}

fn valid_file(digits: &str, block_size: usize, block_id: usize, e: &str) -> Vec<u8> {
    assert_eq!(digits.len(), block_size);
    let header = format!(
        "#Compressed Digit File{e}{e}\
         FileVersion:\t1.1.0{e}{e}\
         Base:\t10{e}{e}\
         FirstDigits:\t3.14159265358979323846{e}{e}\
         TotalDigits:\t0{e}{e}\
         Blocksize:\t{block_size}{e}\
         BlockID:\t{block_id}{e}{e}\
         EndHeader{e}{e}"
    );
    let mut bytes = header.into_bytes();
    bytes.push(0);
    bytes.extend(encode_digits(digits));
    bytes
}

fn final_block_file(digits: &str, block_size: usize, block_id: usize, total_digits: usize) -> Vec<u8> {
    let header = format!(
        "FileVersion: 1.1.0\n\
         Base: 10\n\
         FirstDigits: 3.14159265358979323846\n\
         TotalDigits: {total_digits}\n\
         Blocksize: {block_size}\n\
         BlockID: {block_id}\n\
         EndHeader\n\n\0"
    );
    let mut bytes = header.into_bytes();
    bytes.extend(encode_digits(digits));
    bytes
}

/// Why a driven stream stopped early.
#[derive(Debug, PartialEq)]
enum Stop {
    /// The library refused.
    Lib(YcdError),
    /// The file ended before the block the stream asked for.
    Eof,
}

impl From<YcdError> for Stop {
    fn from(e: YcdError) -> Self {
        Stop::Lib(e)
    }
}

fn block_at(file: &[u8], pos: usize) -> Result<[u8; 8], Stop> {
    if pos + 8 > file.len() {
        return Err(Stop::Eof);
    }
    let mut b = [0u8; 8];
    b.copy_from_slice(&file[pos..pos + 8]);
    Ok(b)
}

/// A single-file stream over `file`, from its first digit or from `start`.
fn open_single(file: &[u8], unit_size: i32, start: Option<i64>) -> Result<(YcdSeqBlockState, usize), Stop> {
    let meta = parse_metadata(file, true)?;
    match start {
        None => Ok((YcdSeqBlockState::new(&meta, unit_size)?, meta.data_offset() as usize)),
        Some(p) => {
            let plan = YcdSeqBlockState::plan_start(&meta, p)?;
            let mut pos = plan.seek_pos() as usize;
            let first = if plan.needs_first_block() {
                let b = block_at(file, pos)?;
                pos += 8;
                Some(b)
            } else {
                None
            };
            Ok((YcdSeqBlockState::new_from(plan, unit_size, first)?, pos))
        },
    }
}

fn next_single(st: &mut YcdSeqBlockState, file: &[u8], pos: &mut usize) -> Result<YcdProcessUnit, Stop> {
    loop {
        match st.step()? {
            SeqStep::NeedBlock => {
                let b = block_at(file, *pos)?;
                *pos += 8;
                st.push_block(&b)?;
            },
            SeqStep::Unit(u) => return Ok(u),
        }
    }
}

/// All digits of a single-file stream, checking the units' numbering.
fn collect_single(file: &[u8], unit_size: i32, start: Option<i64>) -> Result<String, Stop> {
    let (mut st, mut pos) = open_single(file, unit_size, start)?;
    let mut expected_start = start.unwrap_or(st.digit_start());
    let mut expected_no = 1;
    let mut out = String::new();
    while st.has_next() {
        let u = next_single(&mut st, file, &mut pos)?;
        assert_eq!(u.process_no, expected_no);
        assert_eq!(u.start_digit, expected_start);
        assert!(u.value.len() <= unit_size as usize);
        expected_no += 1;
        expected_start += u.value.len() as i64;
        out.push_str(&u.value);
        if u.value.len() < unit_size as usize {
            assert!(!st.has_next());
        }
    }
    assert_eq!(st.step().err().unwrap(), YcdError::NoMoreData);
    assert_eq!(YcdError::NoMoreData.kind(), YcdErrorKind::UnexpectedEof);
    Ok(out)
}

/// A multi-file stream over `files`, from the first digit or from `start`,
/// with the read position in each file the stream covers.
fn open_multi(files: &[Vec<u8>], unit_size: i32, start: Option<i64>) -> Result<(YcdMultiFileState, Vec<usize>, usize), Stop> {
    let mut metas = Vec::new();
    for f in files {
        metas.push(parse_metadata(f, true)?);
    }
    let (first, plan) = match start {
        None => (0, None),
        Some(p) => {
            let (k, plan) = YcdMultiFileState::plan_start(&metas, unit_size, p)?;
            (k, Some(plan))
        },
    };
    let mut streams = Vec::new();
    let mut positions = Vec::new();
    for (i, meta) in metas.iter().enumerate().skip(first) {
        match (i == first, plan) {
            (true, Some(plan)) => {
                let mut pos = plan.seek_pos() as usize;
                let block = if plan.needs_first_block() {
                    let b = block_at(&files[i], pos)?;
                    pos += 8;
                    Some(b)
                } else {
                    None
                };
                streams.push(YcdSeqBlockState::new_from(plan, unit_size, block)?);
                positions.push(pos);
            },
            _ => {
                streams.push(YcdSeqBlockState::new(meta, unit_size)?);
                positions.push(meta.data_offset() as usize);
            },
        }
    }
    Ok((YcdMultiFileState::new(streams, unit_size)?, positions, first))
}

fn collect_multi(files: &[Vec<u8>], unit_size: i32, start: Option<i64>) -> Result<String, Stop> {
    let (mut m, mut positions, first) = open_multi(files, unit_size, start)?;
    let mut out = String::new();
    let mut expected_no = 1;
    let mut expected_start: Option<i64> = start;
    while m.has_next() {
        let u = loop {
            match m.step()? {
                MultiStep::NeedBlock(i) => {
                    let b = block_at(&files[first + i], positions[i])?;
                    positions[i] += 8;
                    m.push_block(&b)?;
                },
                MultiStep::Unit(u) => break u,
            }
        };
        assert_eq!(u.process_no, expected_no);
        if let Some(s) = expected_start {
            assert_eq!(u.start_digit, s);
        }
        expected_no += 1;
        expected_start = Some(u.start_digit + u.value.len() as i64);
        assert!(u.value.len() <= unit_size as usize);
        if u.value.len() < unit_size as usize {
            assert!(!m.has_next());
        }
        out.push_str(&u.value);
    }
    assert_eq!(m.step().err().unwrap(), YcdError::NoMoreData);
    Ok(out)
}

fn check_generated_file_preserves_leading_zeroes_and_a_partial_final_block() {
    let digits = "0000000000000000001234567890123456789000420";
    let file = valid_file(digits, digits.len(), 0, "\r\n");
    let (mut st, mut pos) = open_single(&file, 20, None).unwrap();

    let first = next_single(&mut st, &file, &mut pos).unwrap();
    let second = next_single(&mut st, &file, &mut pos).unwrap();
    let third = next_single(&mut st, &file, &mut pos).unwrap();

    assert_eq!(first.value, &digits[..20]);
    assert_eq!(second.value, &digits[20..40]);
    assert_eq!(third.value, &digits[40..]);
    assert_eq!((first.process_no, first.start_digit), (1, 1));
    assert_eq!((second.process_no, second.start_digit), (2, 21));
    assert_eq!((third.process_no, third.start_digit), (3, 41));
    assert!(!st.has_next());
}

#[test]
fn ycd_file_generated_file_preserves_leading_zeroes_and_a_partial_final_block() {
    check_generated_file_preserves_leading_zeroes_and_a_partial_final_block();
}

#[test]
fn test_generated_file_preserves_leading_zeroes_and_a_partial_final_block() {
    check_generated_file_preserves_leading_zeroes_and_a_partial_final_block();
}

fn check_exact_multiple_of_nineteen_stops_without_reading_an_extra_block() {
    let digits = "12345678901234567890123456789012345678";
    let file = valid_file(digits, digits.len(), 0, "\n");
    assert_eq!(collect_single(&file, 19, None).unwrap(), digits);
    // The payload holds exactly two blocks: no third block is asked for.
    let (mut st, mut pos) = open_single(&file, 19, None).unwrap();
    while st.has_next() {
        next_single(&mut st, &file, &mut pos).unwrap();
    }
    assert_eq!(pos, file.len());
}

#[test]
fn ycd_file_exact_multiple_of_nineteen_stops_without_reading_an_extra_block() {
    check_exact_multiple_of_nineteen_stops_without_reading_an_extra_block();
}

#[test]
fn test_exact_multiple_of_nineteen_stops_without_reading_an_extra_block() {
    check_exact_multiple_of_nineteen_stops_without_reading_an_extra_block();
}

fn check_total_digits_limits_a_short_final_file() {
    let digits = "123456789012345678901234";
    let file = final_block_file(digits, 38, 0, digits.len());
    assert_eq!(collect_single(&file, 19, None).unwrap(), digits);
}

#[test]
fn ycd_file_total_digits_limits_a_short_final_file() {
    check_total_digits_limits_a_short_final_file();
}

#[test]
fn test_total_digits_limits_a_short_final_file() {
    check_total_digits_limits_a_short_final_file();
}

fn check_corrupt_payloads_are_rejected() {
    let header = "FileVersion: 1.1.0\nBase: 10\nFirstDigits: 3.14\nTotalDigits: 0\nBlocksize: 38\nBlockID: 0\nEndHeader\n\n\0";
    let mut truncated = header.as_bytes().to_vec();
    truncated.extend(123_u64.to_le_bytes());
    let (mut st, mut pos) = open_single(&truncated, 38, None).unwrap();
    assert_eq!(next_single(&mut st, &truncated, &mut pos).err().unwrap(), Stop::Eof);

    let mut oversized = header.replace("Blocksize: 38", "Blocksize: 19").into_bytes();
    oversized.extend(u64::MAX.to_le_bytes());
    let (mut st, mut pos) = open_single(&oversized, 19, None).unwrap();
    let err = next_single(&mut st, &oversized, &mut pos).err().unwrap();
    assert_eq!(err, Stop::Lib(YcdError::BlockTooLarge));
    assert_eq!(YcdError::BlockTooLarge.kind(), YcdErrorKind::InvalidData);
}

#[test]
fn ycd_file_corrupt_payloads_are_rejected() {
    check_corrupt_payloads_are_rejected();
}

#[test]
fn test_corrupt_payloads_are_rejected() {
    check_corrupt_payloads_are_rejected();
}

#[test]
fn unit_sizes_below_one_block_are_refused() {
    let file = valid_file("1234567890123456789", 19, 0, "\n");
    let meta = parse_metadata(&file, true).unwrap();
    assert_eq!(YcdSeqBlockState::new(&meta, 18).err().unwrap(), YcdError::UnitSizeTooSmall);
    assert_eq!(YcdError::UnitSizeTooSmall.kind(), YcdErrorKind::InvalidInput);
    assert_eq!(YcdMultiFileState::new(Vec::new(), 18).err().unwrap(), YcdError::UnitSizeTooSmall);
}

fn check_seq_stream_from_seq_new_from_generated_file_mid_block() {
    let digits = "12345678901234567890123456789012345678";
    let file = valid_file(digits, 38, 0, "\n");
    assert_eq!(collect_single(&file, 19, Some(5)).unwrap(), &digits[4..]);
    assert_eq!(collect_single(&file, 19, Some(20)).unwrap(), &digits[19..]);
    assert_eq!(collect_single(&file, 19, Some(25)).unwrap(), &digits[24..]);
}

#[test]
fn seq_stream_from_seq_new_from_generated_file_mid_block() {
    check_seq_stream_from_seq_new_from_generated_file_mid_block();
}

#[test]
fn test_seq_new_from_generated_file_mid_block() {
    check_seq_stream_from_seq_new_from_generated_file_mid_block();
}

#[test]
fn seq_new_from_first_and_last_digit() {
    let digits = "12345678901234567890123456789012345678";
    let file = valid_file(digits, 38, 0, "\n");
    assert_eq!(collect_single(&file, 19, Some(1)).unwrap(), collect_single(&file, 19, None).unwrap());
    assert_eq!(collect_single(&file, 19, Some(38)).unwrap(), "8");
    // A file that starts further on.
    let second = valid_file("9876543210987654321", 19, 1, "\n");
    assert_eq!(collect_single(&second, 19, Some(21)).unwrap(), "876543210987654321");
}

#[test]
fn seq_new_from_refusals_on_generated_files() {
    let file = valid_file("12345678901234567890123456789012345678", 38, 0, "\n");
    let meta = parse_metadata(&file, true).unwrap();
    assert_eq!(
        YcdSeqBlockState::plan_start(&meta, 0).err().unwrap(),
        YcdError::StartOutsideFile { requested: 0, range_start: 1, range_end: 38 }
    );
    assert_eq!(
        YcdSeqBlockState::plan_start(&meta, 39).err().unwrap(),
        YcdError::StartOutsideFile { requested: 39, range_start: 1, range_end: 38 }
    );
    let plan = YcdSeqBlockState::plan_start(&meta, 1).unwrap();
    assert_eq!(YcdSeqBlockState::new_from(plan, 1, None).err().unwrap(), YcdError::UnitSizeTooSmall);
    let second = valid_file("9876543210987654321", 19, 1, "\n");
    let meta2 = parse_metadata(&second, true).unwrap();
    assert_eq!(YcdSeqBlockState::plan_start(&meta2, 1).err().unwrap().kind(), YcdErrorKind::InvalidInput);
}

#[test]
fn a_start_inside_a_block_reads_that_block_first() {
    let digits = "12345678901234567890123456789012345678";
    let file = valid_file(digits, 38, 0, "\n");
    let meta = parse_metadata(&file, true).unwrap();
    let plan = YcdSeqBlockState::plan_start(&meta, 25).unwrap();
    assert!(plan.needs_first_block());
    assert_eq!(plan.seek_pos(), meta.data_offset() + 8);
    let on_boundary = YcdSeqBlockState::plan_start(&meta, 20).unwrap();
    assert!(!on_boundary.needs_first_block());
    assert_eq!(on_boundary.seek_pos(), meta.data_offset() + 8);
    // A first block of 20 digits is refused.
    assert_eq!(
        YcdSeqBlockState::new_from(plan, 19, Some(u64::MAX.to_le_bytes())).err().unwrap(),
        YcdError::BlockTooLarge
    );
}

#[test]
fn a_block_handed_over_when_none_is_wanted_is_ignored() {
    let digits = "1234567890123456789";
    let file = valid_file(digits, 19, 0, "\n");
    let (mut st, mut pos) = open_single(&file, 19, None).unwrap();
    let u = next_single(&mut st, &file, &mut pos).unwrap();
    assert_eq!(u.value, digits);
    assert!(st.push_block(&7u64.to_le_bytes()).is_ok());
    assert!(!st.has_next());
}

#[test]
fn a_file_past_total_digits_yields_nothing() {
    let file = final_block_file("", 19, 3, 19);
    let (st, _) = open_single(&file, 19, None).unwrap();
    assert!(!st.has_next());
}

fn check_multi_stream_multi_file_stream_rejects_empty_and_noncontiguous_lists() {
    assert_eq!(open_multi(&[], 19, None).err().unwrap(), Stop::Lib(YcdError::NoFiles));
    assert_eq!(YcdError::NoFiles.kind(), YcdErrorKind::InvalidInput);

    let first = valid_file("1234567890123456789", 19, 0, "\n");
    let third = valid_file("9876543210987654321", 19, 2, "\n");
    assert_eq!(
        open_multi(&[first.clone(), third.clone()], 19, None).err().unwrap(),
        Stop::Lib(YcdError::NotContiguous { expected: 20, found: 39 })
    );
    assert_eq!(
        open_multi(&[third, first], 19, None).err().unwrap(),
        Stop::Lib(YcdError::NotContiguous { expected: 58, found: 1 })
    );
    assert_eq!(YcdError::NotContiguous { expected: 20, found: 39 }.kind(), YcdErrorKind::InvalidInput);
}

#[test]
fn multi_stream_multi_file_stream_rejects_empty_and_noncontiguous_lists() {
    check_multi_stream_multi_file_stream_rejects_empty_and_noncontiguous_lists();
}

#[test]
fn test_multi_file_stream_rejects_empty_and_noncontiguous_lists() {
    check_multi_stream_multi_file_stream_rejects_empty_and_noncontiguous_lists();
}

fn check_multi_stream_multi_file_stream_joins_generated_files_inside_process_units() {
    let first_digits = "12345678901234567890123";
    let second_digits = "45678901234567890123456";
    let third_digits = "78901234567890123456789";
    let files = vec![
        valid_file(first_digits, 23, 0, "\n"),
        valid_file(second_digits, 23, 1, "\n"),
        valid_file(third_digits, 23, 2, "\n"),
    ];
    let expected = format!("{first_digits}{second_digits}{third_digits}");
    assert_eq!(collect_multi(&files, 25, None).unwrap(), expected);
    for unit in [19, 20, 23, 46, 69, 70, 1000] {
        assert_eq!(collect_multi(&files, unit, None).unwrap(), expected);
    }
}

#[test]
fn multi_stream_multi_file_stream_joins_generated_files_inside_process_units() {
    check_multi_stream_multi_file_stream_joins_generated_files_inside_process_units();
}

#[test]
fn test_multi_file_stream_joins_generated_files_inside_process_units() {
    check_multi_stream_multi_file_stream_joins_generated_files_inside_process_units();
}

#[test]
fn multi_stream_units_are_full_except_the_last() {
    let files = vec![
        valid_file("12345678901234567890123", 23, 0, "\n"),
        valid_file("45678901234567890123456", 23, 1, "\n"),
    ];
    let (mut m, mut positions, _) = open_multi(&files, 20, None).unwrap();
    let mut lengths = Vec::new();
    while m.has_next() {
        let u = loop {
            match m.step().unwrap() {
                MultiStep::NeedBlock(i) => {
                    let b = block_at(&files[i], positions[i]).unwrap();
                    positions[i] += 8;
                    m.push_block(&b).unwrap();
                },
                MultiStep::Unit(u) => break u,
            }
        };
        lengths.push((u.process_no, u.start_digit, u.value.len()));
    }
    assert_eq!(lengths, vec![(1, 1, 20), (2, 21, 20), (3, 41, 6)]);
}

fn check_multi_stream_from_multi_new_from_generated_files() {
    let files = vec![
        valid_file("1234567890123456789", 19, 0, "\n"),
        valid_file("2345678901234567890", 19, 1, "\n"),
        valid_file("3456789012345678901", 19, 2, "\n"),
    ];
    let all = "123456789012345678923456789012345678903456789012345678901";
    assert_eq!(collect_multi(&files, 19, Some(10)).unwrap(), &all[9..]);
    assert_eq!(collect_multi(&files, 19, Some(20)).unwrap(), &all[19..]);
    assert_eq!(collect_multi(&files, 19, Some(30)).unwrap(), &all[29..]);
    assert_eq!(collect_multi(&files, 19, Some(1)).unwrap(), collect_multi(&files, 19, None).unwrap());
    assert_eq!(collect_multi(&files, 19, Some(57)).unwrap(), "1");
    assert_eq!(collect_multi(&files, 40, Some(15)).unwrap(), &all[14..]);
}

#[test]
fn multi_stream_from_multi_new_from_generated_files() {
    check_multi_stream_from_multi_new_from_generated_files();
}

#[test]
fn test_multi_new_from_generated_files() {
    check_multi_stream_from_multi_new_from_generated_files();
}

#[test]
fn multi_new_from_refusals_on_generated_files() {
    let files = vec![
        valid_file("1234567890123456789", 19, 0, "\n"),
        valid_file("2345678901234567890", 19, 1, "\n"),
        valid_file("3456789012345678901", 19, 2, "\n"),
    ];
    assert_eq!(open_multi(&[], 19, Some(1)).err().unwrap(), Stop::Lib(YcdError::NoFiles));
    assert_eq!(open_multi(&files, 19, Some(0)).err().unwrap(), Stop::Lib(YcdError::StartBelowOne));
    assert_eq!(open_multi(&files, 19, Some(-1)).err().unwrap(), Stop::Lib(YcdError::StartBelowOne));
    assert_eq!(
        open_multi(&files, 19, Some(58)).err().unwrap(),
        Stop::Lib(YcdError::StartOutsideFile { requested: 58, range_start: 1, range_end: 57 })
    );
    assert_eq!(open_multi(&files, 1, Some(1)).err().unwrap(), Stop::Lib(YcdError::UnitSizeTooSmall));
    for e in [YcdError::StartBelowOne, YcdError::StartOutsideFile { requested: 58, range_start: 1, range_end: 57 }] {
        assert_eq!(e.kind(), YcdErrorKind::InvalidInput);
    }
    let gap = vec![files[0].clone(), files[2].clone()];
    assert_eq!(
        open_multi(&gap, 19, Some(1)).err().unwrap(),
        Stop::Lib(YcdError::NotContiguous { expected: 20, found: 39 })
    );
}

#[test]
fn a_refused_block_leaves_the_stream_waiting_for_another() {
    let header = "FileVersion: 1\nBase: 10\nFirstDigits: 3\nTotalDigits: 0\nBlocksize: 38\nBlockID: 0\nEndHeader\n\0";
    let mut file = header.as_bytes().to_vec();
    file.extend(1234567890123456789u64.to_le_bytes());
    file.extend(u64::MAX.to_le_bytes());
    let files = vec![file];
    let (mut m, positions, _) = open_multi(&files, 38, None).unwrap();
    assert!(matches!(m.step().unwrap(), MultiStep::NeedBlock(0)));
    m.push_block(&block_at(&files[0], positions[0]).unwrap()).unwrap();
    assert!(matches!(m.step().unwrap(), MultiStep::NeedBlock(0)));
    assert_eq!(m.push_block(&block_at(&files[0], positions[0] + 8).unwrap()).err().unwrap(), YcdError::BlockTooLarge);
    // The next step starts a new unit, still waiting for the second block.
    assert!(matches!(m.step().unwrap(), MultiStep::NeedBlock(0)));
}

#[test]
fn process_units_hold_their_parts() {
    let u = YcdProcessUnit::new(3, 41, "00420".to_string());
    assert_eq!((u.process_no, u.start_digit, u.value.as_str()), (3, 41, "00420"));
    assert_eq!(u.clone(), u);
}

#[test]
fn stream_requests_are_checked_in_order() {
    assert_eq!(check_stream_request(0, 18), Err(YcdError::UnitSizeTooSmall));
    assert_eq!(check_stream_request(0, 19), Err(YcdError::NoFiles));
    assert_eq!(check_stream_request(2, 38), Ok(38));
    assert_eq!(check_stream_from_request(0, 1, 0), Err(YcdError::UnitSizeTooSmall));
    assert_eq!(check_stream_from_request(0, 19, 0), Err(YcdError::NoFiles));
    assert_eq!(check_stream_from_request(3, 19, 0), Err(YcdError::StartBelowOne));
    assert_eq!(check_stream_from_request(3, 19, 5), Ok(19));
}
