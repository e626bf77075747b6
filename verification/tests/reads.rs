use std::path::PathBuf;

use ycd_reader::{
    check_read_request, collect_file_infos, parse_metadata, FileSnapshot, FileTime, ReadPlan, YcdError, YcdErrorKind,
    YcdIndex, YcdMetadata,
};

fn encode_digits(digits: &str) -> Vec<u8> {
    let mut encoded = Vec::new();
    for chunk in digits.as_bytes().chunks(19) {
        let mut block = String::from_utf8(chunk.to_vec()).unwrap();
        while block.len() < 19 {
            block.push('0');
        }
        encoded.extend(block.parse::<u64>().unwrap().to_le_bytes());
    }
    encoded
}

fn valid_file(digits: &str, block_size: usize, block_id: usize) -> Vec<u8> {
    assert_eq!(digits.len(), block_size);
    let header = format!(
        "#Compressed Digit File\n\nFileVersion:\t1.1.0\n\nBase:\t10\n\n\
         FirstDigits:\t3.14159265358979323846\n\nTotalDigits:\t0\n\n\
         Blocksize:\t{block_size}\nBlockID:\t{block_id}\n\nEndHeader\n\n"
    );
    let mut bytes = header.into_bytes();
    bytes.push(0);
    bytes.extend(encode_digits(digits));
    bytes
}

/// Digits that differ from file to file and show no short period.
fn digits_of(len: usize, seed: usize) -> String {
    (0..len).map(|i| char::from(b'0' + ((i * 7 + seed * 3 + i / 5) % 10) as u8)).collect()
}

#[derive(Debug, PartialEq)]
enum Stop {
    Lib(YcdError),
    Eof,
}

impl From<YcdError> for Stop {
    fn from(e: YcdError) -> Self {
        Stop::Lib(e)
    }
}

fn block_at(file: &[u8], pos: usize) -> Result<[u8; 8], Stop> {
    if pos + 8 > file.len() {
        return Err(Stop::Eof);
    }
    let mut b = [0u8; 8];
    b.copy_from_slice(&file[pos..pos + 8]);
    Ok(b)
}

/// Walk a plan, reading each segment's blocks from its file. `fresh` is
/// asked about each file before it is read.
fn run_plan(
    mut plan: ReadPlan,
    files: &[Vec<u8>],
    mut fresh: impl FnMut(usize) -> Result<(), YcdError>,
) -> Result<String, Stop> {
    while let Some(seg) = plan.next_segment() {
        let seg = seg?;
        fresh(seg.file_index)?;
        let file = &files[seg.file_index];
        let mut pos = seg.seek_pos as usize;
        while plan.wants_block() {
            let b = block_at(file, pos)?;
            pos += 8;
            plan.push_block(&b)?;
        }
    }
    Ok(plan.into_string())
}

fn parse_all(files: &[Vec<u8>]) -> Result<Vec<YcdMetadata>, Stop> {
    let mut metas = Vec::new();
    for f in files {
        metas.push(parse_metadata(f, true)?);
    }
    Ok(metas)
}

/// A one-off read over a list of files.
fn read_digits(files: &[Vec<u8>], start: usize, length: usize) -> Result<String, Stop> {
    check_read_request(files.len(), start, length)?;
    let metas = parse_all(files)?;
    let list = collect_file_infos(&metas)?;
    let plan = list.plan_read(start, length)?;
    run_plan(plan, files, |_| Ok(()))
}

fn snapshot(i: usize, file: &[u8]) -> FileSnapshot {
    FileSnapshot {
        path: PathBuf::from(format!("/digits/part-{i}.ycd")),
        file_size: file.len() as u64,
        modified: FileTime { before_epoch: false, secs: 1_700_000_000 + i as u64, nanos: 5 },
    }
}

fn build_index(files: &[Vec<u8>]) -> Result<YcdIndex, Stop> {
    let metas = parse_all(files)?;
    let pairs: Vec<_> = metas.into_iter().enumerate().map(|(i, m)| (m, snapshot(i, &files[i]))).collect();
    Ok(YcdIndex::build(pairs)?)
}

/// A read through an index: each file is reported (from `now`) before its
/// segment starts.
fn index_read(ix: &YcdIndex, files: &[Vec<u8>], now: &[(u64, FileTime)], start: usize, length: usize) -> Result<String, Stop> {
    let mut read = ix.plan_read(start, length)?;
    while let Some(f) = read.next_file() {
        let seg = read.next_segment(now[f].0, now[f].1).unwrap()?;
        assert_eq!(seg.file_index, f);
        let file = &files[seg.file_index];
        let mut pos = seg.seek_pos as usize;
        while read.wants_block() {
            let b = block_at(file, pos)?;
            pos += 8;
            read.push_block(&b)?;
        }
    }
    Ok(read.into_string())
}

fn current(files: &[Vec<u8>]) -> Vec<(u64, FileTime)> {
    (0..files.len()).map(|i| (snapshot(i, &files[i]).file_size, snapshot(i, &files[i]).modified)).collect()
}

fn three_files() -> (Vec<Vec<u8>>, String) {
    let parts: Vec<String> = (0..3).map(|i| digits_of(41, i)).collect();
    let files = (0..3).map(|i| valid_file(&parts[i], 41, i)).collect();
    (files, parts.concat())
}

#[test]
fn every_read_shape_returns_the_digits_of_its_range() {
    let (files, all) = three_files();
    for start in 1..=all.len() {
        for length in 1..=(all.len() + 1 - start) {
            assert_eq!(read_digits(&files, start, length).unwrap(), &all[start - 1..start - 1 + length]);
        }
    }
}

#[test]
fn reads_keep_leading_zeros() {
    let digits = "000000000000000000100000000000000000000042";
    let files = vec![valid_file(digits, digits.len(), 0)];
    assert_eq!(read_digits(&files, 1, 19).unwrap(), &digits[..19]);
    assert_eq!(read_digits(&files, 20, 23).unwrap(), &digits[19..]);
    assert_eq!(read_digits(&files, 39, 3).unwrap(), "004");
}

#[test]
fn reads_reach_the_last_digit_of_the_list() {
    let (files, all) = three_files();
    assert_eq!(read_digits(&files, all.len(), 1).unwrap(), &all[all.len() - 1..]);
}

#[test]
fn reads_from_a_list_starting_past_block_zero() {
    let digits = digits_of(41, 4);
    let files = vec![valid_file(&digits, 41, 2)];
    assert_eq!(read_digits(&files, 83, 41).unwrap(), digits);
    assert_eq!(read_digits(&files, 100, 5).unwrap(), &digits[17..22]);
}

#[test]
fn reads_span_several_files() {
    let (files, all) = three_files();
    assert_eq!(read_digits(&files, 30, 70).unwrap(), &all[29..99]);
    assert_eq!(read_digits(&files, 1, 123).unwrap(), all);
}

#[test]
fn reads_refuse_empty_lists_position_zero_and_length_zero() {
    let (files, _) = three_files();
    assert_eq!(read_digits(&[], 1, 1).unwrap_err(), Stop::Lib(YcdError::NoFiles));
    assert_eq!(read_digits(&files, 0, 1).unwrap_err(), Stop::Lib(YcdError::StartPositionZero));
    assert_eq!(read_digits(&files, 1, 0).unwrap_err(), Stop::Lib(YcdError::LengthZero));
    for e in [YcdError::NoFiles, YcdError::StartPositionZero, YcdError::LengthZero] {
        assert_eq!(e.kind(), YcdErrorKind::InvalidInput);
    }
}

#[test]
fn reads_refuse_ranges_outside_the_list() {
    let second = vec![valid_file(&digits_of(41, 1), 41, 1)];
    assert_eq!(
        read_digits(&second, 41, 1).unwrap_err(),
        Stop::Lib(YcdError::StartOutOfRange { position: 41, list_start: 42, list_end: 82 })
    );
    assert_eq!(
        read_digits(&second, 83, 1).unwrap_err(),
        Stop::Lib(YcdError::StartOutOfRange { position: 83, list_start: 42, list_end: 82 })
    );
    assert_eq!(
        read_digits(&second, 82, 2).unwrap_err(),
        Stop::Lib(YcdError::EndOutOfRange { end: 83, list_end: 82 })
    );
    let first = vec![valid_file(&digits_of(41, 0), 41, 0)];
    assert_eq!(
        read_digits(&first, 42, 1).unwrap_err(),
        Stop::Lib(YcdError::StartOutOfRange { position: 42, list_start: 1, list_end: 41 })
    );
    assert_eq!(YcdError::EndOutOfRange { end: 83, list_end: 82 }.kind(), YcdErrorKind::InvalidInput);
}

#[test]
fn reads_refuse_an_end_beyond_usize() {
    let (files, _) = three_files();
    assert_eq!(read_digits(&files, 1, usize::MAX).unwrap_err(), Stop::Lib(YcdError::EndPositionOverflow));
    assert_eq!(YcdError::EndPositionOverflow.kind(), YcdErrorKind::InvalidData);
}

#[test]
fn reads_refuse_lists_that_do_not_continue() {
    let (files, _) = three_files();
    let extra = valid_file(&digits_of(41, 9), 41, 4);
    let gap = vec![files[0].clone(), files[2].clone()];
    assert_eq!(
        read_digits(&gap, 1, 10).unwrap_err(),
        Stop::Lib(YcdError::NotContiguous { expected: 42, found: 83 })
    );
    let duplicate = vec![files[0].clone(), files[0].clone()];
    assert_eq!(
        read_digits(&duplicate, 1, 10).unwrap_err(),
        Stop::Lib(YcdError::NotContiguous { expected: 42, found: 1 })
    );
    let reversed = vec![files[1].clone(), files[0].clone()];
    assert_eq!(
        read_digits(&reversed, 42, 10).unwrap_err(),
        Stop::Lib(YcdError::NotContiguous { expected: 83, found: 1 })
    );
    let unused_gap = vec![files[0].clone(), files[1].clone(), extra];
    assert_eq!(
        read_digits(&unused_gap, 1, 10).unwrap_err(),
        Stop::Lib(YcdError::NotContiguous { expected: 83, found: 165 })
    );
}

fn check_error_bad_file_content() {
    let no_blocksize = b"FileVersion: 1.1.0\nBase: 10\nFirstDigits: 3.14\nTotalDigits: 0\nBlockID: 0\nEndHeader\n\n\0";
    assert_eq!(
        read_digits(&[no_blocksize.to_vec()], 1, 1).unwrap_err(),
        Stop::Lib(YcdError::MissingField { field: ycd_reader::YcdHeaderInfoElem::Blocksize })
    );
    let base16 = b"FileVersion: 1.1.0\nBase: 16\nFirstDigits: 3.14\nTotalDigits: 0\nBlocksize: 19\nBlockID: 0\nEndHeader\n\n\0";
    assert_eq!(read_digits(&[base16.to_vec()], 1, 1).unwrap_err(), Stop::Lib(YcdError::NotBase10));

    let header = "FileVersion: 1.1.0\nBase: 10\nFirstDigits: 3.14\nTotalDigits: 0\nBlocksize: 19\nBlockID: 0\nEndHeader\n\n\0";
    let mut corrupt = header.as_bytes().to_vec();
    corrupt.extend(u64::MAX.to_le_bytes());
    assert_eq!(read_digits(&[corrupt], 1, 19).unwrap_err(), Stop::Lib(YcdError::BlockTooLarge));

    let mut truncated = header.replace("Blocksize: 19", "Blocksize: 38").into_bytes();
    truncated.extend(1234567890123456789u64.to_le_bytes());
    assert_eq!(read_digits(&[truncated], 1, 38).unwrap_err(), Stop::Eof);
}

#[test]
fn read_digits_read_digits_error_bad_file_content() {
    check_error_bad_file_content();
}

#[test]
fn test_read_digits_error_bad_file_content() {
    check_error_bad_file_content();
}

#[test]
fn a_read_plan_touches_only_the_blocks_it_needs() {
    let (files, _) = three_files();
    let metas = parse_all(&files).unwrap();
    let list = collect_file_infos(&metas).unwrap();
    let mut plan = list.plan_read(40, 5).unwrap();
    let first = plan.next_segment().unwrap().unwrap();
    assert_eq!((first.file_index, first.local_start, first.to_take), (0, 39, 2));
    assert_eq!((first.block_index, first.offset_in_block, first.blocks_to_read), (2, 1, 1));
    assert_eq!(first.seek_pos, metas[0].data_offset() + 16);
    while plan.wants_block() {
        plan.push_block(&block_at(&files[0], first.seek_pos as usize).unwrap()).unwrap();
    }
    let second = plan.next_segment().unwrap().unwrap();
    assert_eq!((second.file_index, second.local_start, second.to_take), (1, 0, 3));
    assert_eq!((second.block_index, second.offset_in_block, second.blocks_to_read), (0, 0, 1));
    assert!(plan.next_segment().is_none());
}

#[test]
fn build_empty_list_returns_error() {
    assert_eq!(YcdIndex::build(Vec::new()).unwrap_err(), YcdError::NoFiles);
}

#[test]
fn index_builds_over_one_and_three_files() {
    let (files, _) = three_files();
    let one = build_index(&files[..1]).unwrap();
    assert_eq!(one.len(), 1);
    assert!(!one.is_empty());
    let three = build_index(&files).unwrap();
    assert_eq!(three.len(), 3);
}

#[test]
fn index_build_refuses_a_gap() {
    let (files, _) = three_files();
    let gap = vec![files[0].clone(), files[2].clone()];
    assert_eq!(build_index(&gap).unwrap_err(), Stop::Lib(YcdError::NotContiguous { expected: 42, found: 83 }));
}

#[test]
fn index_entries_hold_each_files_place() {
    let (files, _) = three_files();
    let ix = build_index(&files[..2]).unwrap();
    let entries = ix.entries();
    assert_eq!((entries[0].file_start, entries[0].file_length), (1, 41));
    assert_eq!((entries[1].file_start, entries[1].file_length), (42, 41));
    assert_eq!(entries[1].path, PathBuf::from("/digits/part-1.ycd"));
    assert_eq!(entries[1].file_size, files[1].len() as u64);
    assert_eq!(entries[0].data_offset, parse_metadata(&files[0], true).unwrap().data_offset());
}

#[test]
fn rebuild_with_a_built_index_replaces_it() {
    let (files, _) = three_files();
    let mut ix = build_index(&files[..1]).unwrap();
    ix.rebuild(YcdIndex::build(
        parse_all(&files).unwrap().into_iter().enumerate().map(|(i, m)| (m, snapshot(i, &files[i]))).collect(),
    ))
    .unwrap();
    assert_eq!(ix.len(), 3);
}

#[test]
fn rebuild_with_a_failed_build_keeps_the_index() {
    let (files, _) = three_files();
    let mut ix = build_index(&files[..1]).unwrap();
    let gap = vec![files[0].clone(), files[2].clone()];
    let built = YcdIndex::build(
        parse_all(&gap).unwrap().into_iter().enumerate().map(|(i, m)| (m, snapshot(i, &gap[i]))).collect(),
    );
    assert_eq!(ix.rebuild(built).unwrap_err(), YcdError::NotContiguous { expected: 42, found: 83 });
    assert_eq!(ix.len(), 1);
    assert_eq!(ix.entries()[0].file_length, 41);
}

#[test]
fn index_reads_match_one_off_reads() {
    let (files, all) = three_files();
    let ix = build_index(&files).unwrap();
    let now = current(&files);
    for (start, length) in [(1, 1), (1, 19), (1, 20), (19, 2), (41, 1), (41, 2), (40, 45), (82, 42), (123, 1), (1, 123)] {
        let expected = read_digits(&files, start, length).unwrap();
        assert_eq!(index_read(&ix, &files, &now, start, length).unwrap(), expected);
        assert_eq!(expected, &all[start - 1..start - 1 + length]);
    }
}

#[test]
fn index_reads_refuse_bad_requests() {
    let (files, _) = three_files();
    let ix = build_index(&files[1..2]).unwrap();
    let now = current(&files[1..2]);
    assert_eq!(index_read(&ix, &files[1..2], &now, 0, 1).unwrap_err(), Stop::Lib(YcdError::StartPositionZero));
    assert_eq!(index_read(&ix, &files[1..2], &now, 42, 0).unwrap_err(), Stop::Lib(YcdError::LengthZero));
    assert_eq!(
        index_read(&ix, &files[1..2], &now, 41, 1).unwrap_err(),
        Stop::Lib(YcdError::StartOutOfRange { position: 41, list_start: 42, list_end: 82 })
    );
    assert_eq!(
        index_read(&ix, &files[1..2], &now, 83, 1).unwrap_err(),
        Stop::Lib(YcdError::StartOutOfRange { position: 83, list_start: 42, list_end: 82 })
    );
    assert_eq!(
        index_read(&ix, &files[1..2], &now, 82, 2).unwrap_err(),
        Stop::Lib(YcdError::EndOutOfRange { end: 83, list_end: 82 })
    );
    assert_eq!(
        index_read(&ix, &files[1..2], &now, 42, usize::MAX).unwrap_err(),
        Stop::Lib(YcdError::EndPositionOverflow)
    );
}

#[test]
fn stale_index_file_size_change_detected() {
    let (files, _) = three_files();
    let ix = build_index(&files[..1]).unwrap();
    let mut now = current(&files[..1]);
    now[0].0 += 1;
    let expected = files[0].len() as u64;
    assert_eq!(
        index_read(&ix, &files[..1], &now, 1, 1).unwrap_err(),
        Stop::Lib(YcdError::StaleFileSize { expected, found: expected + 1 })
    );
    assert_eq!(YcdError::StaleFileSize { expected, found: expected + 1 }.kind(), YcdErrorKind::InvalidData);
}

#[test]
fn stale_index_mtime_change_detected() {
    let (files, _) = three_files();
    let ix = build_index(&files[..1]).unwrap();
    let mut now = current(&files[..1]);
    now[0].1 = FileTime { before_epoch: false, secs: 1, nanos: 0 };
    assert_eq!(index_read(&ix, &files[..1], &now, 1, 1).unwrap_err(), Stop::Lib(YcdError::StaleModified));
    assert_eq!(YcdError::StaleModified.kind(), YcdErrorKind::InvalidData);
    // Nanoseconds count, and so does the side of the epoch.
    let e = &ix.entries()[0];
    let m = e.modified;
    assert!(e.check_fresh(e.file_size, FileTime { nanos: m.nanos + 1, ..m }).is_err());
    assert!(e.check_fresh(e.file_size, FileTime { before_epoch: true, ..m }).is_err());
    assert!(e.check_fresh(e.file_size, m).is_ok());
}

#[test]
fn index_reads_skip_files_outside_the_range() {
    let (files, all) = three_files();
    let ix = build_index(&files[..2]).unwrap();
    let mut now = current(&files[..2]);
    now[1].0 += 1;
    assert_eq!(index_read(&ix, &files[..2], &now, 1, 41).unwrap(), &all[..41]);
    assert!(matches!(
        index_read(&ix, &files[..2], &now, 41, 2).unwrap_err(),
        Stop::Lib(YcdError::StaleFileSize { .. })
    ));
}

#[test]
fn a_stale_report_leaves_the_index_read_as_it_was() {
    let (files, all) = three_files();
    let ix = build_index(&files).unwrap();
    let now = current(&files);
    let mut read = ix.plan_read(40, 5).unwrap();
    assert_eq!(read.next_file(), Some(0));
    assert_eq!(
        read.next_segment(now[0].0 + 1, now[0].1).unwrap().unwrap_err(),
        YcdError::StaleFileSize { expected: now[0].0, found: now[0].0 + 1 }
    );
    assert!(!read.wants_block());
    assert_eq!(read.next_file(), Some(0));
    let seg = read.next_segment(now[0].0, now[0].1).unwrap().unwrap();
    while read.wants_block() {
        read.push_block(&block_at(&files[0], seg.seek_pos as usize).unwrap()).unwrap();
    }
    assert_eq!(read.next_file(), Some(1));
    let stale_time = FileTime { secs: 7, ..now[1].1 };
    assert_eq!(read.next_segment(now[1].0, stale_time).unwrap().unwrap_err(), YcdError::StaleModified);
    let seg = read.next_segment(now[1].0, now[1].1).unwrap().unwrap();
    while read.wants_block() {
        read.push_block(&block_at(&files[1], seg.seek_pos as usize).unwrap()).unwrap();
    }
    assert_eq!(read.next_file(), None);
    assert_eq!(read.into_string(), &all[39..44]);
}

#[test]
fn an_index_copy_keeps_every_record() {
    let (files, _) = three_files();
    let ix = build_index(&files).unwrap();
    let copy = ix.clone();
    assert_eq!(copy.len(), 3);
    assert!(!copy.is_empty());
    for (a, b) in copy.entries().iter().zip(ix.entries()) {
        assert_eq!((a.file_start, a.file_length, a.data_offset), (b.file_start, b.file_length, b.data_offset));
        assert_eq!((a.file_size, a.modified, &a.path), (b.file_size, b.modified, &b.path));
    }
    let entry = ix.entries()[1].clone();
    assert_eq!(entry.path, PathBuf::from("/digits/part-1.ycd"));
}

#[test]
fn reads_split_into_consecutive_parts() {
    let (files, _) = three_files();
    for (start, a, b) in [(1, 1, 1), (30, 12, 50), (40, 2, 1), (82, 1, 41)] {
        let whole = read_digits(&files, start, a + b).unwrap();
        let first = read_digits(&files, start, a).unwrap();
        let second = read_digits(&files, start + a, b).unwrap();
        assert_eq!(whole, format!("{first}{second}"));
    }
}

#[test]
fn reads_do_not_depend_on_where_files_split() {
    let (files, all) = three_files();
    let other = vec![valid_file(&all[..82], 82, 0), valid_file(&all[82..], 41, 2)];
    for (start, length) in [(1, 123), (40, 5), (82, 2), (83, 41), (100, 24)] {
        assert_eq!(read_digits(&files, start, length).unwrap(), read_digits(&other, start, length).unwrap());
    }
    assert_eq!(read_digits(&files, 123, 2).unwrap_err(), read_digits(&other, 123, 2).unwrap_err());
}
