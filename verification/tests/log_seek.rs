use logmerge::date_utils::date_from_line_in_year;
use logmerge::log_seek::{new_next, read_at, read_last_line, LogReader, Seekable};
use logmerge::timestamp::Timestamp;
use std::io::{BufRead, Cursor, Seek, SeekFrom};

// 2021-01-01T10:00:00Z
const TEN: i64 = 1609495200;

fn at(seconds_past_ten: i64) -> Timestamp {
    Timestamp { secs: TEN + seconds_past_ten, nanos: 0 }
}

/// One line of 23 bytes for each second given: `2021-01-01T10:00:SS <tag><index>`.
fn lines(tag: char, seconds: &[u32]) -> Vec<u8> {
    let mut text = String::new();
    for (i, s) in seconds.iter().enumerate() {
        text.push_str(&format!("2021-01-01T10:00:{:02} {}{}\n", s, tag, i));
    }
    text.into_bytes()
}

fn reader(data: &[u8]) -> LogReader {
    LogReader::with_year(data.to_vec(), 2021)
}

fn open(data: &[u8], start: Option<Timestamp>) -> Option<Seekable> {
    let r = reader(data);
    let len = r.len();
    Seekable::new(r, len, start)
}

fn pending(c: &Seekable) -> (Timestamp, String, u64) {
    let item = c.next.as_ref().unwrap();
    (item.sort, item.value.clone(), item.pos)
}

#[test]
fn read_at_line_start_gives_that_line() {
    let data = lines('a', &[0, 5, 10]);
    let item = read_at(&reader(&data), 23).unwrap();
    assert_eq!(item.sort, at(5));
    assert_eq!(item.value, "2021-01-01T10:00:05 a1");
    assert_eq!(item.pos, 46);
}

#[test]
fn read_at_inside_a_line_gives_the_next_line() {
    let data = lines('a', &[0, 5, 10]);
    let item = read_at(&reader(&data), 3).unwrap();
    assert_eq!(item.sort, at(5));
    assert_eq!(item.value, "2021-01-01T10:00:05 a1");
    assert_eq!(item.pos, 46);
    assert_eq!(read_at(&reader(&data), 22).unwrap().pos, 46);
}

#[test]
fn read_at_trims_the_line() {
    let data = b"  \t2021-01-01T10:00:00 padded  \r\n".to_vec();
    let item = read_at(&reader(&data), 0).unwrap();
    assert_eq!(item.value, "2021-01-01T10:00:00 padded");
    assert_eq!(item.pos, data.len() as u64);
    assert_eq!(item.sort, at(0));
}

#[test]
fn read_at_skips_one_line_without_timestamp() {
    let mut data = b"no timestamp\n".to_vec();
    data.extend_from_slice(&lines('a', &[7]));
    let item = read_at(&reader(&data), 0).unwrap();
    assert_eq!(item.sort, at(7));
    assert_eq!(item.pos, 13 + 23);
}

#[test]
fn read_at_gives_up_after_two_lines_without_timestamp() {
    let mut data = b"no timestamp\nnone here either\n".to_vec();
    data.extend_from_slice(&lines('a', &[7]));
    assert!(read_at(&reader(&data), 0).is_none());
    assert!(read_at(&reader(&data), 13).is_some());
}

#[test]
fn read_at_or_behind_the_end_gives_nothing() {
    let data = lines('a', &[0, 5]);
    assert!(read_at(&reader(&data), 46).is_none());
    assert!(read_at(&reader(&data), 47).is_none());
    assert!(read_at(&reader(&data), u64::MAX).is_none());
    assert!(read_at(&reader(b""), 0).is_none());
}

#[test]
fn read_at_in_the_last_line_gives_nothing() {
    let data = lines('a', &[0, 5]);
    assert!(read_at(&reader(&data), 30).is_none());
}

#[test]
fn read_at_line_without_final_newline() {
    let data = b"2021-01-01T10:00:00 a0\n2021-01-01T10:00:05 a1".to_vec();
    let item = read_at(&reader(&data), 23).unwrap();
    assert_eq!(item.value, "2021-01-01T10:00:05 a1");
    assert_eq!(item.pos, 45);
}

#[test]
fn read_at_invalid_utf8_gives_nothing() {
    let mut data = vec![0xff, 0xfe, b'\n'];
    data.extend_from_slice(&lines('a', &[7]));
    assert!(read_at(&reader(&data), 0).is_none());
    assert!(read_at(&reader(&data), 3).is_some());
}

#[test]
fn read_at_inside_a_character_gives_nothing() {
    // "é" is two bytes; a read at its second byte meets invalid UTF-8.
    let mut data = "é\n".as_bytes().to_vec();
    data.extend_from_slice(&lines('a', &[7]));
    assert!(read_at(&reader(&data), 1).is_none());
    assert_eq!(read_at(&reader(&data), 0).unwrap().sort, at(7));
}

#[test]
fn read_line_reports_text_and_end() {
    let data = lines('a', &[0, 5]);
    let r = reader(&data);
    let (text, end) = r.read_line(23);
    assert_eq!(text, Some("2021-01-01T10:00:05 a1\n"));
    assert_eq!(end, 46);
    let (text, end) = r.read_line(40);
    assert_eq!(text, Some("05 a1\n"));
    assert_eq!(end, 46);
    let (text, end) = r.read_line(46);
    assert_eq!(text, Some(""));
    assert_eq!(end, 46);
    let (text, end) = r.read_line(100);
    assert_eq!(text, Some(""));
    assert_eq!(end, 100);
}

#[test]
fn last_line_with_final_newline() {
    let data = lines('a', &[0, 5, 10]);
    assert_eq!(read_last_line(&reader(&data)), Some("2021-01-01T10:00:10 a2".to_string()));
}

#[test]
fn last_line_without_final_newline() {
    let data = b"first\nsecond".to_vec();
    assert_eq!(read_last_line(&reader(&data)), Some("second".to_string()));
}

#[test]
fn last_line_keeps_leading_whitespace() {
    let data = b"first\n  second \t\n".to_vec();
    assert_eq!(read_last_line(&reader(&data)), Some("  second".to_string()));
}

#[test]
fn last_line_of_single_line_file_starts_at_offset_zero() {
    let data = b"2021-01-01T10:00:00 only\n".to_vec();
    assert_eq!(read_last_line(&reader(&data)), Some("2021-01-01T10:00:00 only".to_string()));
    assert_eq!(read_last_line(&reader(b"x")), Some("x".to_string()));
    assert_eq!(read_last_line(&reader(b"\n")), Some("".to_string()));
}

#[test]
fn last_line_of_empty_file_is_none() {
    assert_eq!(read_last_line(&reader(b"")), None);
}

#[test]
fn last_line_behind_trailing_blank_lines_is_blank() {
    let mut data = lines('a', &[0, 5]);
    data.extend_from_slice(b"\n\n");
    assert_eq!(read_last_line(&reader(&data)), Some("".to_string()));
    assert!(open(&data, None).is_none());
}

#[test]
fn last_line_invalid_utf8_is_none() {
    let mut data = lines('a', &[0]);
    data.extend_from_slice(&[0xff, b'\n']);
    assert_eq!(read_last_line(&reader(&data)), None);
    assert!(open(&data, None).is_none());
}

#[test]
fn open_without_start_begins_at_the_first_record() {
    let data = lines('a', &[0, 5, 10]);
    let c = open(&data, None).unwrap();
    assert_eq!(pending(&c), (at(0), "2021-01-01T10:00:00 a0".to_string(), 23));
    assert_eq!(c.last.sort, at(10));
    assert_eq!(c.last.value, "2021-01-01T10:00:10 a2");
    assert_eq!(c.last.pos, 69);
    assert_eq!(c.reader.data, data);
}

#[test]
fn last_record_ends_where_the_file_ends() {
    let data = b"2024-01-01T10:00:00\n2024-01-01T10:00:05\n2024-01-01T10:00:10\n".to_vec();
    assert_eq!(data.len(), 60);
    let r = LogReader::with_year(data, 2024);
    let c = Seekable::new(r, 60, None).unwrap();
    // 2024-01-01T10:00:10Z
    assert_eq!(c.last.sort, Timestamp { secs: 1704103210, nanos: 0 });
    assert_eq!(c.last.value, "2024-01-01T10:00:10");
    assert_eq!(c.last.pos, 60);
    // without a final newline, and with whitespace around the last line
    let c = open(b"2021-01-01T10:00:00 a0\n  2021-01-01T10:00:05 a1 \t", None).unwrap();
    assert_eq!(c.last.value, "2021-01-01T10:00:05 a1");
    assert_eq!(c.last.pos, 49);
}

#[test]
fn open_with_start_before_the_first_record_begins_at_the_first_record() {
    let data = lines('a', &[5, 10, 15]);
    let c = open(&data, Some(at(0))).unwrap();
    assert_eq!(pending(&c).0, at(5));
}

#[test]
fn open_with_start_between_records_seeks_the_next_record() {
    let data = lines('a', &[0, 5, 10]);
    let c = open(&data, Some(at(4))).unwrap();
    assert_eq!(pending(&c), (at(5), "2021-01-01T10:00:05 a1".to_string(), 46));
    let data = lines('b', &[2, 7]);
    let c = open(&data, Some(at(4))).unwrap();
    assert_eq!(pending(&c), (at(7), "2021-01-01T10:00:07 b1".to_string(), 46));
}

#[test]
fn open_with_start_equal_to_a_timestamp_gives_that_record() {
    let data = lines('a', &[0, 5, 10]);
    for (i, s) in [0i64, 5, 10].iter().enumerate() {
        let c = open(&data, Some(at(*s))).unwrap();
        assert_eq!(pending(&c).0, at(*s));
        assert_eq!(pending(&c).2, 23 * (i as u64 + 1));
    }
}

#[test]
fn open_with_start_equal_to_a_repeated_timestamp_gives_the_first() {
    let data = lines('a', &[0, 5, 5, 5, 10, 12, 14, 16]);
    let c = open(&data, Some(at(5))).unwrap();
    assert_eq!(pending(&c), (at(5), "2021-01-01T10:00:05 a1".to_string(), 46));
}

/// The read of one record, written against `std::io`: seek, `read_line`,
/// and once more where the first line holds no timestamp.
fn io_read_at(file: &mut Cursor<Vec<u8>>, pos: u64) -> Option<(Timestamp, String, u64)> {
    let mut end = pos;
    for _ in 0..2 {
        file.seek(SeekFrom::Start(end)).ok()?;
        let mut line = String::new();
        end += file.read_line(&mut line).ok()? as u64;
        let value = line.trim();
        if let Some(date) = date_from_line_in_year(value, 2021) {
            return Some((date, value.to_string(), end));
        }
    }
    None
}

/// The search for the first record not before `start`, written against
/// `std::io`.
fn io_seek(file: &mut Cursor<Vec<u8>>, len: u64, start: Timestamp) -> Option<(Timestamp, String, u64)> {
    let mut low = 0;
    let mut high = len;
    let mut last_mid = high;
    while low < high {
        let mid = low + (high - low) / 2;
        let item = io_read_at(file, mid)?;
        if item.0 < start {
            low = item.2;
        } else {
            high = item.2;
        }
        if mid == last_mid {
            break;
        }
        last_mid = mid;
    }
    let mut item = io_read_at(file, low)?;
    while item.0 < start {
        item = io_read_at(file, item.2)?;
    }
    Some(item)
}

/// Files of `count` records, one every three seconds, with lines of
/// lengths that a small generator picks; every seventh line holds no
/// timestamp.
fn varied_file(seed: u64, count: u32) -> Vec<u8> {
    let mut state = seed;
    let mut text = String::new();
    for i in 0..count {
        state = state.wrapping_mul(6364136223846793005).wrapping_add(1442695040888963407);
        let pad = (state >> 33) % 90;
        if i % 7 == 3 {
            text.push_str(&format!("    at frame {}\n", "y".repeat(pad as usize)));
        }
        let s = i * 3;
        text.push_str(&format!(
            "2021-01-01T10:{:02}:{:02} {}\n",
            s / 60,
            s % 60,
            "x".repeat(pad as usize)
        ));
    }
    text.into_bytes()
}

#[test]
fn read_at_agrees_with_a_reader_over_std_io() {
    for seed in 0..4 {
        let data = varied_file(seed, 40);
        let r = reader(&data);
        let mut file = Cursor::new(data.clone());
        for pos in 0..data.len() as u64 + 3 {
            let got = read_at(&r, pos).map(|item| (item.sort, item.value, item.pos));
            assert_eq!(got, io_read_at(&mut file, pos), "seed {} pos {}", seed, pos);
        }
    }
}

#[test]
fn open_in_a_long_file_finds_each_record() {
    let mut found = 0;
    for seed in 0..8 {
        let data = varied_file(seed, 60);
        let mut file = Cursor::new(data.clone());
        for s in 0..180 {
            let got = open(&data, Some(at(s))).map(|c| pending(&c));
            let expected = io_seek(&mut file, data.len() as u64, at(s));
            assert_eq!(got, expected, "seed {} start {}", seed, s);
            if let Some((sort, _, _)) = got {
                // the first record not before the start: records stand every three seconds
                assert_eq!(sort, at((s + 2) / 3 * 3), "seed {} start {}", seed, s);
                found += 1;
            }
        }
    }
    assert_eq!(found, 640);
}

#[test]
fn open_with_start_behind_the_last_record_gives_no_cursor() {
    let data = lines('a', &[0, 5, 10]);
    assert!(open(&data, Some(at(11))).is_none());
    assert!(open(&data, Some(Timestamp { secs: TEN + 10, nanos: 1 })).is_none());
    assert!(open(&data, Some(at(10))).is_some());
}

#[test]
fn open_fails_where_a_probe_lands_in_the_last_line() {
    // four lines of 23 bytes: the second probe, at byte 80, meets the last line
    let data = lines('a', &[0, 5, 10, 15]);
    assert!(open(&data, Some(at(15))).is_none());
    assert!(open(&data, Some(at(4))).is_some());
    // one line: the first probe meets it
    let single = lines('a', &[0]);
    assert!(open(&single, Some(at(0))).is_none());
}

#[test]
fn open_single_line_file_without_start() {
    let data = lines('a', &[3]);
    let mut c = open(&data, None).unwrap();
    assert_eq!(pending(&c).0, at(3));
    assert_eq!(c.last.sort, at(3));
    assert_eq!(c.last.pos, 23);
    assert!(c.advance());
    assert!(c.next.is_none());
}

#[test]
fn open_fails_on_single_malformed_line() {
    assert!(open(b"this line holds no timestamp\n", None).is_none());
    assert!(open(b"this line holds no timestamp\n", Some(at(0))).is_none());
}

#[test]
fn open_fails_where_the_first_two_lines_hold_no_timestamp() {
    let mut data = b"header\nsecond header\n".to_vec();
    data.extend_from_slice(&lines('a', &[0, 5]));
    assert!(open(&data, None).is_none());
}

#[test]
fn open_fails_where_the_last_line_holds_no_timestamp() {
    let mut data = lines('a', &[0, 5]);
    data.extend_from_slice(b"trailer\n");
    assert!(open(&data, None).is_none());
}

#[test]
fn open_empty_file_gives_no_cursor() {
    assert!(open(b"", None).is_none());
}

#[test]
fn new_next_hands_the_reader_back() {
    let data = lines('a', &[0, 5, 10]);
    let r = reader(&data);
    let len = r.len();
    let (same, item) = new_next(r, len, Some(at(6)), at(10)).unwrap();
    assert_eq!(same.data, data);
    assert_eq!(same.year, 2021);
    assert_eq!(item.sort, at(10));
    assert!(new_next(reader(&data), len, Some(at(6)), at(5)).is_none());
}

#[test]
fn advance_walks_the_records_and_stops() {
    let data = lines('a', &[0, 5, 10]);
    let mut c = open(&data, None).unwrap();
    assert!(c.advance());
    assert_eq!(pending(&c), (at(5), "2021-01-01T10:00:05 a1".to_string(), 46));
    assert!(c.advance());
    assert_eq!(pending(&c).0, at(10));
    assert!(c.advance());
    assert!(c.next.is_none());
}

#[test]
fn advance_at_exhaustion_returns_false_and_changes_nothing() {
    let data = lines('a', &[0, 5]);
    let mut c = open(&data, None).unwrap();
    assert!(c.advance());
    assert!(c.advance());
    assert!(c.next.is_none());
    for _ in 0..3 {
        assert!(!c.advance());
        assert!(c.next.is_none());
        assert_eq!(c.last.sort, at(5));
        assert_eq!(c.last.value, "2021-01-01T10:00:05 a1");
        assert_eq!(c.reader.data, data);
    }
}

#[test]
fn advance_skips_one_line_without_timestamp() {
    let mut data = lines('a', &[0]);
    data.extend_from_slice(b"    at some.stack.Frame(File.java:1)\n");
    data.extend_from_slice(&lines('b', &[5]));
    let mut c = open(&data, None).unwrap();
    assert!(c.advance());
    assert_eq!(pending(&c).0, at(5));
}

#[test]
fn syslog_file_is_read_in_the_year_of_the_reader() {
    let data = b"Jan  5 10:00:00 host app: one\nJan  5 10:00:05 host app: two\n".to_vec();
    let r = LogReader::with_year(data.clone(), 2023);
    let len = r.len();
    let c = Seekable::new(r, len, None).unwrap();
    let jan5 = chrono::DateTime::parse_from_rfc3339("2023-01-05T10:00:00+00:00").unwrap();
    assert_eq!(c.next.as_ref().unwrap().sort, Timestamp { secs: jan5.timestamp(), nanos: 0 });
    assert_eq!(c.last.sort, Timestamp { secs: jan5.timestamp() + 5, nanos: 0 });
    let before = chrono::Datelike::year(&chrono::Utc::now());
    let now = LogReader::new(data);
    let after = chrono::Datelike::year(&chrono::Utc::now());
    assert!(before <= now.year && now.year <= after);
}
