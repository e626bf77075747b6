use ycd_reader::{parse_metadata, validate_unit_size, YcdError, YcdErrorKind, YcdFileUtil, YcdHeaderInfoElem};

/// The header y-cruncher writes for one file of a digit set, followed by the
/// NUL data marker and the first payload block.
fn real_file_start(block_size: usize, block_id: usize) -> Vec<u8> {
    let e = "\r\n";
    let header = format!(
        "#Compressed Digit File{e}{e}\
         FileVersion:\t1.1.0{e}{e}\
         Base:\t10{e}{e}\
         FirstDigits:\t3.14159265358979323846264338327950288419716939937510{e}{e}\
         TotalDigits:\t0{e}{e}\
         Blocksize:\t{block_size}{e}\
         BlockID:\t{block_id}{e}{e}\
         EndHeader{e}{e}"
    );
    let mut bytes = header.into_bytes();
    bytes.push(0);
    bytes.extend(1415926535897932384_u64.to_le_bytes());
    bytes
}

fn encode_digits(digits: &str) -> Vec<u8> {
    let mut encoded = Vec::new();
    for chunk in digits.as_bytes().chunks(19) {
        let mut block = String::from_utf8(chunk.to_vec()).unwrap();
        while block.len() < 19 {
            block.push('0');
        }
        encoded.extend(block.parse::<u64>().unwrap().to_le_bytes());
    }
    encoded
}

fn valid_file(digits: &str, block_size: usize, block_id: usize, e: &str, extra_header: &str) -> Vec<u8> {
    let header = format!(
        "#Compressed Digit File{e}{e}\
         FileVersion:\t1.1.0{e}{e}\
         Base:\t10{e}{e}\
         FirstDigits:\t3.14159265358979323846{e}{e}\
         TotalDigits:\t0{e}{e}\
         {extra_header}\
         Blocksize:\t{block_size}{e}\
         BlockID:\t{block_id}{e}{e}\
         EndHeader{e}{e}"
    );
    let mut bytes = header.into_bytes();
    bytes.push(0);
    bytes.extend(encode_digits(digits));
    bytes
}

fn check_real_headers() {
    for block_id in [0, 1, 14] {
        let file = real_file_start(1_000_000, block_id);
        let expected_size = if block_id < 10 { 195 } else { 196 };
        assert_eq!(YcdFileUtil::get_header_size(&file, false).unwrap(), expected_size);

        let header = YcdFileUtil::get_ycd_header(&file, false).unwrap();
        assert_eq!(header.get(YcdHeaderInfoElem::FileVersion).unwrap(), "1.1.0");
        assert_eq!(header.get(YcdHeaderInfoElem::Base).unwrap(), "10");
        assert_eq!(header.get(YcdHeaderInfoElem::Blocksize).unwrap(), "1000000");
        assert_eq!(header.get(YcdHeaderInfoElem::BlockID).unwrap(), block_id.to_string());
    }

    for block_id in [0, 2] {
        let file = real_file_start(2_000_000, block_id);
        assert_eq!(YcdFileUtil::get_header_size(&file, false).unwrap(), 195);
        assert_eq!(
            YcdFileUtil::get_ycd_header(&file, false).unwrap().get(YcdHeaderInfoElem::Blocksize).unwrap(),
            "2000000"
        );
    }
}

#[test]
fn test_real_headers_are_parsed_at_the_exact_data_offset() {
    check_real_headers();
}

#[test]
fn ycd_file_real_headers_are_parsed_at_the_exact_data_offset() {
    check_real_headers();
}

fn check_long_headers_and_lf_line_endings_are_supported() {
    let extra_header = format!("UnknownField:\t{}\n", "x".repeat(400));
    let digits = "1234567890123456789";
    let file = valid_file(digits, digits.len(), 0, "\n", &extra_header);
    assert!(YcdFileUtil::get_header_size(&file, true).unwrap() > 300);
    let meta = parse_metadata(&file, true).unwrap();
    assert_eq!(meta.digit_start(), 1);
    assert_eq!(meta.digit_length(), 19);
}

#[test]
fn ycd_file_long_headers_and_lf_line_endings_are_supported() {
    check_long_headers_and_lf_line_endings_are_supported();
}

#[test]
fn test_long_headers_and_lf_line_endings_are_supported() {
    check_long_headers_and_lf_line_endings_are_supported();
}

fn check_invalid_inputs_and_headers_return_specific_errors() {
    assert_eq!(validate_unit_size(18).unwrap_err().kind(), YcdErrorKind::InvalidInput);
    assert_eq!(validate_unit_size(19).unwrap(), 19);

    let invalid_headers: [(&str, YcdError); 6] = [
        (
            "FileVersion: 1.1.0\nBase: 10\nFirstDigits: 3.14\nTotalDigits: 0\nBlockID: 0\nEndHeader\n\n\0",
            YcdError::MissingField { field: YcdHeaderInfoElem::Blocksize },
        ),
        (
            "FileVersion: 1.1.0\nBase: 10\nFirstDigits: 3.14\nTotalDigits: 0\nBlocksize: x\nBlockID: 0\nEndHeader\n\n\0",
            YcdError::NotNonnegative { field: YcdHeaderInfoElem::Blocksize },
        ),
        (
            "FileVersion: 1.1.0\nBase: 16\nFirstDigits: 3.14\nTotalDigits: 0\nBlocksize: 19\nBlockID: 0\nEndHeader\n\n\0",
            YcdError::NotBase10,
        ),
        (
            "FileVersion: 1.1.0\nBase: 10\nFirstDigits: 3.14\nTotalDigits: 0\nBlocksize: 19\nBlockID: -1\nEndHeader\n\n\0",
            YcdError::NotNonnegative { field: YcdHeaderInfoElem::BlockID },
        ),
        (
            "FileVersion: 1.1.0\nBase: 10\nFirstDigits: 3.14\nTotalDigits: 0\nBlocksize: 19\nBlockID: 0\n",
            YcdError::MissingEndHeader,
        ),
        (
            "FileVersion: 1.1.0\nBase: 10\nFirstDigits: 3.14\nTotalDigits: 0\nBlocksize: 19\nBlockID: 0\nEndHeader\n\nX",
            YcdError::MissingNulMarker,
        ),
    ];

    for (header, expected) in invalid_headers {
        let err = YcdFileUtil::get_ycd_header(header.as_bytes(), true).unwrap_err();
        assert_eq!(err, expected);
        assert_eq!(err.kind(), YcdErrorKind::InvalidData);
    }
}

#[test]
fn ycd_file_invalid_inputs_and_headers_return_specific_errors() {
    check_invalid_inputs_and_headers_return_specific_errors();
}

#[test]
fn test_invalid_inputs_and_headers_return_specific_errors() {
    check_invalid_inputs_and_headers_return_specific_errors();
}

const GOOD: &str = "FileVersion: 1.1.0\nBase: 10\nFirstDigits: 3.14\nTotalDigits: 0\nBlocksize: 19\nBlockID: 0\n";

#[test]
fn data_marker_variants_are_accepted() {
    for (marker, size) in [("EndHeader\n\0", 1), ("EndHeader\n\n\0", 2), ("EndHeader\n\r\n\0", 3)] {
        let text = format!("{GOOD}{marker}");
        let expected = GOOD.len() + "EndHeader\n".len() + size;
        assert_eq!(YcdFileUtil::get_header_size(text.as_bytes(), true).unwrap() as usize, expected);
    }
    let crlf = "FileVersion: 1.1.0\r\nBase: 10\r\nFirstDigits: 3.14\r\nTotalDigits: 0\r\nBlocksize: 19\r\nBlockID: 0\r\nEndHeader\r\n\r\n\0";
    assert_eq!(YcdFileUtil::get_header_size(crlf.as_bytes(), true).unwrap() as usize, crlf.len());
}

#[test]
fn broken_data_markers_are_refused() {
    let cr_without_lf = format!("{GOOD}EndHeader\n\rX");
    assert_eq!(
        YcdFileUtil::get_header_size(cr_without_lf.as_bytes(), true).unwrap_err(),
        YcdError::InvalidLineEnding
    );
    let cut = format!("{GOOD}EndHeader\n\r");
    assert_eq!(YcdFileUtil::get_header_size(cut.as_bytes(), true).unwrap_err(), YcdError::IncompleteHeader);
    let no_marker = format!("{GOOD}EndHeader");
    assert_eq!(YcdFileUtil::get_header_size(no_marker.as_bytes(), true).unwrap_err(), YcdError::IncompleteHeader);
    let glued = format!("{GOOD}EndHeader\0");
    assert_eq!(YcdFileUtil::get_header_size(glued.as_bytes(), true).unwrap_err(), YcdError::MissingEndHeader);
    let lf_then_other = format!("{GOOD}EndHeader\n\nX");
    assert_eq!(
        YcdFileUtil::get_header_size(lf_then_other.as_bytes(), true).unwrap_err(),
        YcdError::MissingNulMarker
    );
}

#[test]
fn field_checks_report_the_first_problem() {
    let empty_version = "FileVersion:\nBase: 10\nFirstDigits: 3.14\nTotalDigits: 0\nBlocksize: 19\nBlockID: 0\nEndHeader\n\0";
    assert_eq!(parse_metadata(empty_version.as_bytes(), true).unwrap_err(), YcdError::EmptyFileVersion);
    let empty_first = "FileVersion: 1\nBase: 10\nFirstDigits:  \nTotalDigits: 0\nBlocksize: 19\nBlockID: 0\nEndHeader\n\0";
    assert_eq!(parse_metadata(empty_first.as_bytes(), true).unwrap_err(), YcdError::EmptyFirstDigits);
    let zero_block = "FileVersion: 1\nBase: 10\nFirstDigits: 3\nTotalDigits: 0\nBlocksize: 0\nBlockID: 0\nEndHeader\n\0";
    assert_eq!(
        parse_metadata(zero_block.as_bytes(), true).unwrap_err(),
        YcdError::NotPositive { field: YcdHeaderInfoElem::Blocksize }
    );
    let bad_blocks = "FileVersion: 1\nBase: 10\nFirstDigits: 3\nTotalDigits: 0\nTotalBlocks: -3\nBlocksize: 19\nBlockID: 0\nEndHeader\n\0";
    assert_eq!(
        parse_metadata(bad_blocks.as_bytes(), true).unwrap_err(),
        YcdError::NotNonnegative { field: YcdHeaderInfoElem::TotalBlocks }
    );
    let beyond = "FileVersion: 1\nBase: 10\nFirstDigits: 3\nTotalDigits: 19\nBlocksize: 19\nBlockID: 1\nEndHeader\n\0";
    assert_eq!(parse_metadata(beyond.as_bytes(), true).unwrap_err(), YcdError::BlockIdBeyondTotalDigits);
    let mut not_utf8 = b"FileVersion: 1\n\xff\xfe\n".to_vec();
    not_utf8.extend(b"EndHeader\n\0");
    assert_eq!(parse_metadata(&not_utf8, true).unwrap_err(), YcdError::HeaderNotUtf8);
}

#[test]
fn total_digits_and_block_id_place_the_file() {
    // The last file of a set is cut at TotalDigits.
    let last = "FileVersion: 1\nBase: 10\nFirstDigits: 3\nTotalDigits: 50\nBlocksize: 19\nBlockID: 2\nEndHeader\n\0";
    let meta = parse_metadata(last.as_bytes(), true).unwrap();
    assert_eq!(meta.digit_start(), 39);
    assert_eq!(meta.digit_length(), 12);
    // A file wholly past TotalDigits covers a negative number of digits.
    let past = "FileVersion: 1\nBase: 10\nFirstDigits: 3\nTotalDigits: 19\nBlocksize: 19\nBlockID: 3\nEndHeader\n\0";
    let meta = parse_metadata(past.as_bytes(), true).unwrap();
    assert_eq!(meta.digit_start(), 58);
    assert_eq!(meta.digit_length(), -38);
    // Blocksize times BlockID must fit in i64.
    let huge = "FileVersion: 1\nBase: 10\nFirstDigits: 3\nTotalDigits: 0\nBlocksize: 9223372036854775807\nBlockID: 2\nEndHeader\n\0";
    assert_eq!(parse_metadata(huge.as_bytes(), true).unwrap_err(), YcdError::DigitPositionOverflow);
}

#[test]
fn header_lines_are_trimmed_and_unknown_lines_ignored() {
    let text = "# comment: Base: 16\n\nno colon here\n  Base  :  10  \nUnknown: 5\nFileVersion:\t1.1.0\nFirstDigits: 3.14\nTotalDigits: 0\nBlocksize: 19\nBlockID: 0\nEndHeader\n\0";
    let header = YcdFileUtil::get_ycd_header(text.as_bytes(), true).unwrap();
    assert_eq!(header.get(YcdHeaderInfoElem::Base).unwrap(), "10");
    assert_eq!(header.get(YcdHeaderInfoElem::FileVersion).unwrap(), "1.1.0");
    assert!(!header.contains_key(YcdHeaderInfoElem::TotalBlocks));
    assert!(!header.contains_key(YcdHeaderInfoElem::EndHeader));
    assert_eq!(YcdHeaderInfoElem::Blocksize.as_str(), "Blocksize");
    assert_eq!(YcdHeaderInfoElem::EndHeader.as_str(), "EndHeader");
}

#[test]
fn a_prefix_asks_for_more_or_agrees_with_the_whole_file() {
    let file = valid_file("1234567890123456789", 19, 0, "\r\n", "");
    let whole = YcdFileUtil::get_header_size(&file, true).unwrap();
    for cut in 0..file.len() {
        match YcdFileUtil::get_header_size(&file[..cut], false) {
            Err(YcdError::NeedMoreInput) => assert!(cut <= whole as usize),
            other => assert_eq!(other, Ok(whole)),
        }
    }
    assert_eq!(YcdFileUtil::get_header_size(&file[..10], true).unwrap_err(), YcdError::MissingEndHeader);
}
