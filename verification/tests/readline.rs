use matiane_core::readline::{FileLineReader, FileLineReverseReader, LineReaderError};
use matiane_core::search::BinarySearch;
use std::cmp::Ordering;

fn content_of(lines: &[&str]) -> Vec<u8> {
    lines.join("\n").into_bytes()
}

fn get_lines(lines: &[&str], buffer_size: usize) -> Vec<String> {
    assert!(buffer_size > 0);

    let content = content_of(lines);
    let mut reader = FileLineReader::with_buffer_size(content, buffer_size);

    let mut out = Vec::new();
    while let Some(line) = reader.next_line().unwrap() {
        out.push(line);
    }
    out
}

fn get_lines_backward(lines: &[&str], buffer_size: usize) -> Vec<String> {
    assert!(buffer_size > 0);

    let content = content_of(lines);
    let mut reader = FileLineReverseReader::with_buffer_size(content, buffer_size);

    reader.rewind();

    let mut out = Vec::new();
    while let Some(line) = reader.next_line().unwrap() {
        out.push(line);
    }
    out
}

#[test]
fn readline_small_forward() {
    let expected_lines = vec!["Line 1", "Line 2", "Line 3"];
    let lines = get_lines(&expected_lines, 100);
    assert_eq!(lines, expected_lines);
}

#[test]
fn readline_small_backward() {
    let mut expected_lines = vec!["Line 1", "Line 2", "Line 3"];
    let lines = get_lines_backward(&expected_lines, 100);

    expected_lines.reverse();
    assert_eq!(lines, expected_lines);
}

#[test]
fn readline_buffered_success_forward() {
    let expected_lines = vec!["Line 1", "Line 2", "Line 3"];
    let lines = get_lines(&expected_lines, 4);
    assert_eq!(lines, expected_lines);
}

#[test]
fn readline_buffered_success_backward() {
    let mut expected_lines = vec!["Line 1", "Line 2", "Line 3"];
    let lines = get_lines_backward(&expected_lines, 4);

    expected_lines.reverse();
    assert_eq!(lines, expected_lines);
}

#[test]
fn readline_buffer_too_small_forward() {
    let expected_lines = vec!["Line 1", "Line 2", "Line 3"];
    let lines = get_lines(&expected_lines, 1);

    assert_eq!(lines, expected_lines);
}

#[test]
fn readline_buffer_too_small_backward() {
    let mut expected_lines = vec!["Line 1", "Line 2", "Line 3"];
    let lines = get_lines_backward(&expected_lines, 1);

    expected_lines.reverse();
    assert_eq!(lines, expected_lines);
}

#[test]
fn readline_buffer_empty_last_forward() {
    let expected_lines = vec!["Line 1", "Line 2", "Line 3", ""];
    let lines = get_lines(&expected_lines, 1);

    assert_eq!(lines, expected_lines);
}

#[test]
fn readline_buffer_empty_last_backward() {
    let mut expected_lines = vec!["Line 1", "Line 2", "Line 3", ""];
    let lines = get_lines_backward(&expected_lines, 1);

    expected_lines.reverse();
    assert_eq!(lines, expected_lines);
}

#[test]
fn readline_just_eof_forward() {
    let expected_lines = vec!["Line 1"];
    let lines = get_lines(&expected_lines, 10);
    assert_eq!(lines, expected_lines);
}

#[test]
fn readline_just_eof_backward() {
    let mut expected_lines = vec!["Line 1"];
    let lines = get_lines_backward(&expected_lines, 10);

    expected_lines.reverse();
    assert_eq!(lines, expected_lines);
}

#[test]
fn readline_empty_file_forward() {
    // A zero-byte file yields exactly one empty record.
    let mut reader = FileLineReader::new(Vec::new());
    assert_eq!(reader.next_line().unwrap(), Some(String::new()));
    assert_eq!(reader.next_line().unwrap(), None);
}

#[test]
fn readline_all_buffer_sizes() {
    // The scanners reproduce the fragments for every working-buffer size.
    let fragments = vec!["alpha", "", "b", "gamma delta", "x"];
    let content_len = content_of(&fragments).len();
    for size in 1..=content_len {
        let forward = get_lines(&fragments, size);
        assert_eq!(forward, fragments);

        let mut reversed = fragments.clone();
        reversed.reverse();
        let backward = get_lines_backward(&fragments, size);
        assert_eq!(backward, reversed);
    }
}

#[test]
fn readline_reverse_head_quirk() {
    // The reverse scanner emits one record per delimiter plus the head
    // accumulator only when it is non-empty: a leading empty fragment is
    // not reproduced, unlike in the forward direction.
    let mut fwd = FileLineReader::new(b"\nA".to_vec());
    assert_eq!(fwd.next_line().unwrap(), Some(String::new()));
    assert_eq!(fwd.next_line().unwrap(), Some("A".to_string()));
    assert_eq!(fwd.next_line().unwrap(), None);

    let mut rev = FileLineReverseReader::new(b"\nA".to_vec());
    rev.rewind();
    assert_eq!(rev.next_line().unwrap(), Some("A".to_string()));
    assert_eq!(rev.next_line().unwrap(), None);

    // An empty file: one empty record forward, none backward.
    let mut rev = FileLineReverseReader::new(Vec::new());
    rev.rewind();
    assert_eq!(rev.next_line().unwrap(), None);
}

#[test]
fn readline_invalid_utf8_errors() {
    let content = b"ok line\n\xff\xfe\nafter".to_vec();
    let mut reader = FileLineReader::new(content);
    assert_eq!(reader.next_line().unwrap(), Some("ok line".to_string()));
    assert!(matches!(reader.next_line(), Err(LineReaderError::Utf8(_))));
}

#[test]
fn readline_rewind_forward() {
    let lines = ["Line 1", "Line 2", "Line 3"];
    let content = content_of(&lines);
    let mut reader = FileLineReader::with_buffer_size(content, 100);

    assert_eq!(reader.next_line().unwrap(), Some("Line 1".into()));
    assert_eq!(reader.next_line().unwrap(), Some("Line 2".into()));

    let seek_res = reader.rewind();

    assert_eq!(seek_res, 0);
    assert_eq!(reader.next_line().unwrap(), Some("Line 1".into()));
}

#[test]
fn readline_rewind_backward() {
    let lines = ["Line 1", "Line 2", "Line 3"];
    let content = content_of(&lines);
    let mut reader = FileLineReverseReader::with_buffer_size(content, 100);

    reader.rewind();

    assert_eq!(reader.next_line().unwrap(), Some("Line 3".into()));
    assert_eq!(reader.next_line().unwrap(), Some("Line 2".into()));

    let seek_res = reader.rewind();

    assert_eq!(seek_res, 20);
    assert_eq!(reader.next_line().unwrap(), Some("Line 3".into()));
}

fn line_to_number(l: &str) -> Result<u32, LineReaderError> {
    let matches: String = l.matches(char::is_numeric).collect();
    let num = matches
        .parse::<u32>()
        .map_err(|e| LineReaderError::compare(format!("{e}")))?;

    Ok(num)
}

#[test]
fn readline_bin_seek() {
    // Per line: 5 literal + 2 digits + 1 new line = 8
    // offset of first line: 0
    let lines: Vec<String> = (10..99).map(|x| format!("Line {}", x)).collect();
    let refs: Vec<&str> = lines.iter().map(|s| s.as_str()).collect();
    let content = content_of(&refs);

    let buf_size = 128;

    // If all of them are less, return None.
    let pos = BinarySearch::new(content.clone(), |_: &str| Ok(Ordering::Less))
        .buffer_size(buf_size)
        .seek()
        .unwrap();

    assert_eq!(pos, None);

    // If all of them are more, return None.
    let pos = BinarySearch::new(content.clone(), |_: &str| Ok(Ordering::Greater))
        .buffer_size(buf_size)
        .seek()
        .unwrap();

    assert_eq!(pos, None);

    // offset of line 80: (80 - 10) * 8 = 560
    let pos = BinarySearch::new(content.clone(), |s: &str| {
        if line_to_number(s)? < 80 {
            Ok(Ordering::Less)
        } else {
            Ok(Ordering::Greater)
        }
    })
    .buffer_size(buf_size)
    .seek()
    .unwrap();

    assert_eq!(pos, Some(560));

    // first line
    let pos = BinarySearch::new(content.clone(), |s: &str| {
        let num = line_to_number(s)?;

        if num == 10 {
            Ok(Ordering::Equal)
        } else if num > 10 {
            Ok(Ordering::Greater)
        } else {
            Ok(Ordering::Less)
        }
    })
    .buffer_size(buf_size)
    .seek()
    .unwrap();

    assert_eq!(pos, Some(0));

    // Second line but with less than 11.
    let pos = BinarySearch::new(content, |s: &str| {
        if line_to_number(s)? < 11 {
            Ok(Ordering::Less)
        } else {
            Ok(Ordering::Greater)
        }
    })
    .buffer_size(buf_size)
    .seek()
    .unwrap();

    assert_eq!(pos, Some(8));
}

#[test]
fn bin_seek_every_record(
) {
    // Searching for each record of a sorted file finds its exact offset.
    let lines: Vec<String> = (10..40).map(|x| format!("Line {}", x)).collect();
    let refs: Vec<&str> = lines.iter().map(|s| s.as_str()).collect();
    let content = content_of(&refs);

    for k in 10u32..40 {
        let pos = BinarySearch::new(content.clone(), move |s: &str| {
            let num = line_to_number(s)?;
            Ok(num.cmp(&k))
        })
        .seek()
        .unwrap();
        assert_eq!(pos, Some(((k - 10) * 8) as usize));
    }
}

#[test]
fn bin_seek_empty_file() {
    let pos = BinarySearch::new(Vec::new(), |_: &str| Ok(Ordering::Equal))
        .seek()
        .unwrap();
    assert_eq!(pos, None);
}

#[test]
fn bin_seek_comparator_error() {
    let content = b"aa\nbb\ncc".to_vec();
    let res = BinarySearch::new(content, |_: &str| {
        Err(LineReaderError::compare("no order".to_string()))
    })
    .seek();
    assert!(matches!(res, Err(LineReaderError::Compare(_))));
}
