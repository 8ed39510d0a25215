use matiane_core::date::{Date, Timestamp};
use matiane_core::filepath::{Filepath, TryIntoFilenameError};

fn ts(year: u32, month: u32, day: u32, h: u32, m: u32, s: u32) -> Timestamp {
    Timestamp { date: Date { year, month, day }, secs: h * 3600 + m * 60 + s }
}

#[test]
fn get_filename_by_name_test() {
    struct TestCase {
        date: Timestamp,
        expected: Vec<u8>,
    }

    let dates = [
        TestCase { date: ts(1970, 1, 1, 0, 0, 0), expected: b"19700101.log".to_vec() },
        TestCase { date: ts(1970, 1, 1, 23, 59, 59), expected: b"19700101.log".to_vec() },
        TestCase { date: ts(2000, 1, 1, 0, 0, 0), expected: b"20000101.log".to_vec() },
        TestCase { date: ts(2000, 1, 1, 5, 6, 7), expected: b"20000101.log".to_vec() },
        TestCase { date: ts(2025, 12, 31, 23, 59, 59), expected: b"20251231.log".to_vec() },
    ];

    for test in dates {
        let name = Filepath::from_timestamp(&test.date);
        let path = name.to_path_buf();
        assert_eq!(path, test.expected);

        let name = Filepath::from_date(test.date.date);
        let path = name.to_path_buf();
        assert_eq!(path, test.expected);

        // None of the tests have prefix/path.
        let name = Filepath::try_from(test.expected.clone()).unwrap();
        let path = name.to_path_buf();
        assert_eq!(path, test.expected);
    }
}

#[test]
fn filename_from_pathbuf() {
    struct TestCase {
        source: Vec<u8>,
        expected: Result<Filepath, TryIntoFilenameError>,
    }

    let tests = [
        TestCase {
            source: b"path/to/not.correct".to_vec(),
            expected: Err(TryIntoFilenameError::IncorrectExtension),
        },
        TestCase {
            source: b"path/is/fine-but-not-date.log".to_vec(),
            expected: Err(TryIntoFilenameError::BadFileName),
        },
        TestCase {
            source: b"path/with/noext".to_vec(),
            expected: Err(TryIntoFilenameError::ExtensionMissing),
        },
        TestCase {
            source: b"path/is/20260123.log".to_vec(),
            expected: Ok(Filepath {
                path: b"path/is/".to_vec(),
                date: Date { year: 2026, month: 1, day: 23 },
            }),
        },
    ];

    for test in tests {
        let name = Filepath::try_from(test.source.clone());
        assert_eq!(name, test.expected);
    }
}

#[test]
fn filename_utf8_error() {
    let path = b"\xF0hello.log".to_vec();
    let result = Filepath::try_from(path);

    assert!(matches!(result, Err(TryIntoFilenameError::Utf8Error)));
}

#[test]
fn filename_pathbuf_symmetry() {
    let tests: [Vec<u8>; 9] = [
        b"20251231.log".to_vec(),
        b"/20251231.log".to_vec(),
        b"relative/path/20251231.log".to_vec(),
        b"/absolute/path/20251231.log".to_vec(),
        b"./20251231.log".to_vec(),
        b"../20251231.log".to_vec(),
        b"path/to/../other/20251231.log".to_vec(),
        b"path//double/20251231.log".to_vec(),
        b"path/./dot/20251231.log".to_vec(),
    ];

    for test in tests {
        let file_path = Filepath::try_from(test.clone()).unwrap();
        let back_path = file_path.to_path_buf();

        assert_eq!(back_path, test);
    }
}

#[test]
fn filename_extension_only_is_missing() {
    // A leading dot marks a hidden file, not an extension.
    let result = Filepath::try_from(b"path/.log".to_vec());
    assert!(matches!(result, Err(TryIntoFilenameError::ExtensionMissing)));
}

#[test]
fn filename_invalid_calendar_dates() {
    // Month 13, day 0, and a non-leap February 29th are rejected.
    assert!(matches!(
        Filepath::try_from(b"20261301.log".to_vec()),
        Err(TryIntoFilenameError::BadFileName)
    ));
    assert!(matches!(
        Filepath::try_from(b"20260100.log".to_vec()),
        Err(TryIntoFilenameError::BadFileName)
    ));
    assert!(matches!(
        Filepath::try_from(b"20230229.log".to_vec()),
        Err(TryIntoFilenameError::BadFileName)
    ));
    // A leap-year February 29th is accepted.
    let fp = Filepath::try_from(b"20240229.log".to_vec()).unwrap();
    assert_eq!(fp.date, Date { year: 2024, month: 2, day: 29 });
}

#[test]
fn date_validity_and_order() {
    assert!(Date { year: 2024, month: 2, day: 29 }.valid());
    assert!(!Date { year: 2023, month: 2, day: 29 }.valid());
    assert!(!Date { year: 2026, month: 13, day: 1 }.valid());
    assert!(!Date { year: 2026, month: 4, day: 31 }.valid());

    let a = Date { year: 2026, month: 1, day: 1 };
    let b = Date { year: 2026, month: 1, day: 3 };
    assert!(a.lt(&b));
    assert!(a.le(&b));
    assert!(!b.le(&a));
}

#[test]
fn timestamp_utc_date_offsets() {
    // 04:00 local at +04:00 is midnight UTC of the same day.
    let t = ts(2026, 1, 1, 4, 0, 0);
    assert_eq!(t.utc_date(4 * 3600), Date { year: 2026, month: 1, day: 1 });
    // 01:00 local at +02:00 is the previous UTC day.
    let t = ts(2026, 1, 1, 1, 0, 0);
    assert_eq!(t.utc_date(2 * 3600), Date { year: 2025, month: 12, day: 31 });
    // 23:00 local at -02:00 is the next UTC day.
    let t = ts(2025, 12, 31, 23, 0, 0);
    assert_eq!(t.utc_date(-2 * 3600), Date { year: 2026, month: 1, day: 1 });
}
