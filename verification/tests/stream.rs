use logmerge::args::Args;
use logmerge::log_seek::{read_at, read_last_line, LogReader, Seekable, SeekableItem};
use logmerge::merge::{get_heap_of_files, is_valid, merge, MergeHeap};
use logmerge::stream::{
    item_in, last_item, read_step, scan_back, Phase, ReadStep, Scan, Search, SearchStep,
};
use logmerge::timestamp::Timestamp;
use std::io::{BufRead, Cursor, Read, Seek, SeekFrom};

const TEN_AM: i64 = 1609495200;

fn past_ten(seconds: i64) -> Timestamp {
    Timestamp { secs: TEN_AM + seconds, nanos: 0 }
}

fn item(seconds: i64, pos: u64) -> SeekableItem {
    SeekableItem { sort: past_ten(seconds), value: format!("line at {}", seconds), pos }
}

fn shown(item: &SeekableItem) -> (Timestamp, String, u64) {
    (item.sort, item.value.clone(), item.pos)
}

fn text_file(count: u32, seed: u64) -> Vec<u8> {
    let mut state = seed;
    let mut text = String::new();
    for i in 0..count {
        state = state.wrapping_mul(6364136223846793005).wrapping_add(1442695040888963407);
        let pad = ((state >> 33) % 70) as usize;
        if i % 5 == 2 {
            text.push_str(&format!("  caused by {}\n", "z".repeat(pad)));
        }
        text.push_str(&format!("2021-01-01T10:{:02}:{:02} {}\n", i * 2 / 60, i * 2 % 60, "w".repeat(pad)));
    }
    text.into_bytes()
}

fn line_at(file: &mut Cursor<Vec<u8>>, pos: u64) -> Option<String> {
    file.seek(SeekFrom::Start(pos)).ok()?;
    let mut line = String::new();
    file.read_line(&mut line).ok()?;
    Some(line)
}

fn stream_read_at(file: &mut Cursor<Vec<u8>>, pos: u64) -> Option<SeekableItem> {
    let mut at = pos;
    let mut first = true;
    loop {
        let line = line_at(file, at);
        match read_step(line.as_deref(), at, 2021, first) {
            ReadStep::Found(item) => return Some(item),
            ReadStep::Retry(next) => {
                at = next;
                first = false;
            }
            ReadStep::Failed => return None,
        }
    }
}

fn stream_last_line(file: &mut Cursor<Vec<u8>>, len: u64, block_size: u64) -> Option<String> {
    if len == 0 {
        return None;
    }
    let mut to = len - 1;
    let from = loop {
        let from = to.saturating_sub(block_size);
        let mut block = vec![0u8; (to - from) as usize];
        file.seek(SeekFrom::Start(from)).ok()?;
        file.read_exact(&mut block).ok()?;
        match scan_back(&block, from) {
            Scan::Found(at) => break at,
            Scan::Before(next) => to = next,
        }
    };
    line_at(file, from)
}

fn stream_open(data: &[u8], start: Option<Timestamp>, block_size: u64) -> Option<Seekable> {
    let mut file = Cursor::new(data.to_vec());
    let len = data.len() as u64;
    let line = stream_last_line(&mut file, len, block_size)?;
    let last = last_item(&line, 2021, len)?;
    let mut search = Search::new(len, start, last.sort);
    let next = loop {
        let found = stream_read_at(&mut file, search.probe);
        match search.step(found) {
            SearchStep::Probe(at) => assert_eq!(at, search.probe),
            SearchStep::Found(item) => break item,
            SearchStep::Failed => return None,
        }
    };
    Some(Seekable { reader: LogReader::with_year(Vec::new(), 2021), next: Some(next), last })
}

fn stream_merge(files: &[Vec<u8>], cli: &Args) -> Vec<String> {
    let mut handles = Vec::new();
    let mut heap = MergeHeap::new();
    for data in files {
        if let Some(cursor) = stream_open(data, cli.start, 64) {
            if let Some(cursor) = is_valid(cursor, cli) {
                heap.push(cursor);
                handles.push(Cursor::new(data.clone()));
            }
        }
    }
    let mut out = Vec::new();
    while let Some((place, mut cursor)) = heap.take_next() {
        let mut handle = handles.remove(place);
        let next = cursor.next.take().unwrap();
        cursor.next = stream_read_at(&mut handle, next.pos);
        out.push(next.value);
        if heap.put_back(place, cursor, cli) {
            handles.insert(place, handle);
        }
    }
    assert!(handles.is_empty());
    out
}

fn in_memory(data: &[u8], start: Option<Timestamp>) -> Option<Seekable> {
    let reader = LogReader::with_year(data.to_vec(), 2021);
    let len = reader.len();
    Seekable::new(reader, len, start)
}

fn options(start: Option<Timestamp>, end: Option<Timestamp>) -> Args {
    Args { start, end, lines: None, files: Vec::new(), duration: None }
}

#[test]
fn read_step_finds_the_record_of_a_line() {
    match read_step(Some("  2021-01-01T10:00:05 five \r\n"), 100, 2021, true) {
        ReadStep::Found(item) => {
            assert_eq!(shown(&item), (past_ten(5), "2021-01-01T10:00:05 five".to_string(), 129))
        }
        _ => panic!("no record"),
    }
    match read_step(Some("2021-01-01T10:00:05 five"), 0, 2021, false) {
        ReadStep::Found(item) => assert_eq!(item.pos, 24),
        _ => panic!("no record"),
    }
}

#[test]
fn read_step_tries_one_more_line_and_no_more() {
    assert!(matches!(read_step(Some("no timestamp\n"), 7, 2021, true), ReadStep::Retry(20)));
    assert!(matches!(read_step(Some("no timestamp\n"), 7, 2021, false), ReadStep::Failed));
    assert!(matches!(read_step(Some(""), 7, 2021, true), ReadStep::Retry(7)));
    assert!(matches!(read_step(Some(""), 7, 2021, false), ReadStep::Failed));
}

#[test]
fn read_step_fails_on_an_unreadable_line() {
    assert!(matches!(read_step(None, 7, 2021, true), ReadStep::Failed));
    assert!(matches!(read_step(None, 7, 2021, false), ReadStep::Failed));
    assert!(matches!(read_step(Some("2021-01-01T10:00:05 x"), u64::MAX, 2021, true), ReadStep::Failed));
}

#[test]
fn items_of_lines() {
    let found = item_in(" 2021-01-01T10:00:05 five\n", 2021, 9).unwrap();
    assert_eq!(shown(&found), (past_ten(5), "2021-01-01T10:00:05 five".to_string(), 9));
    assert!(item_in("five\n", 2021, 9).is_none());
    let last = last_item("  2021-01-01T10:00:07 seven \n", 2021, 300).unwrap();
    assert_eq!(shown(&last), (past_ten(7), "2021-01-01T10:00:07 seven".to_string(), 300));
    assert!(last_item("\n", 2021, 300).is_none());
}

#[test]
fn scan_back_finds_the_last_newline_of_a_block() {
    assert_eq!(matches!(scan_back(b"ab\ncd\nef", 10), Scan::Found(16)), true);
    assert_eq!(matches!(scan_back(b"ab\ncd\n", 10), Scan::Found(16)), true);
    assert_eq!(matches!(scan_back(b"\nabcdef", 10), Scan::Found(11)), true);
    assert_eq!(matches!(scan_back(b"abcdef", 10), Scan::Before(10)), true);
    assert_eq!(matches!(scan_back(b"", 10), Scan::Before(10)), true);
    assert_eq!(matches!(scan_back(b"abcdef", 0), Scan::Found(0)), true);
    assert_eq!(matches!(scan_back(b"", 0), Scan::Found(0)), true);
    assert_eq!(matches!(scan_back(b"a\nb", 0), Scan::Found(2)), true);
}

#[test]
fn search_hands_out_the_first_record_without_a_start() {
    let mut search = Search::new(100, None, past_ten(50));
    assert_eq!(search.probe, 0);
    assert_eq!(search.phase, Phase::First);
    match search.step(Some(item(3, 20))) {
        SearchStep::Found(found) => assert_eq!(shown(&found), shown(&item(3, 20))),
        _ => panic!("not found"),
    }
    let mut early = Search::new(100, Some(past_ten(1)), past_ten(50));
    assert!(matches!(early.step(Some(item(3, 20))), SearchStep::Found(_)));
}

#[test]
fn search_fails_without_a_first_record_or_behind_the_last() {
    let mut search = Search::new(100, None, past_ten(50));
    assert!(matches!(search.step(None), SearchStep::Failed));
    let mut late = Search::new(100, Some(past_ten(51)), past_ten(50));
    assert!(matches!(late.step(Some(item(3, 20))), SearchStep::Failed));
}

#[test]
fn search_halves_the_bounds_and_reads_on() {
    let mut search = Search::new(100, Some(past_ten(30)), past_ten(50));
    // the first record lies before the start: the whole file is halved
    assert!(matches!(search.step(Some(item(0, 10))), SearchStep::Probe(50)));
    assert_eq!((search.phase, search.low, search.high, search.last_mid), (Phase::Halving, 0, 100, 100));
    // a record before the start moves the lower bound behind it
    assert!(matches!(search.step(Some(item(20, 60))), SearchStep::Probe(80)));
    assert_eq!((search.low, search.high, search.last_mid), (60, 100, 50));
    // any other moves the upper bound behind it
    assert!(matches!(search.step(Some(item(40, 90))), SearchStep::Probe(75)));
    assert_eq!((search.low, search.high, search.last_mid), (60, 90, 80));
    assert!(matches!(search.step(Some(item(40, 90))), SearchStep::Probe(75)));
    assert_eq!((search.low, search.high, search.last_mid), (60, 90, 75));
    // the probe stands where the one before stood: reading on from the lower bound
    assert!(matches!(search.step(Some(item(40, 90))), SearchStep::Probe(60)));
    assert_eq!(search.phase, Phase::Scanning);
    assert!(matches!(search.step(Some(item(25, 70))), SearchStep::Probe(70)));
    assert!(matches!(search.step(Some(item(29, 80))), SearchStep::Probe(80)));
    match search.step(Some(item(30, 90))) {
        SearchStep::Found(found) => assert_eq!(shown(&found), shown(&item(30, 90))),
        _ => panic!("not found"),
    }
}

#[test]
fn search_reads_on_when_the_bounds_meet() {
    let mut search = Search::new(100, Some(past_ten(30)), past_ten(50));
    assert!(matches!(search.step(Some(item(0, 10))), SearchStep::Probe(50)));
    assert!(matches!(search.step(Some(item(20, 100))), SearchStep::Probe(100)));
    assert_eq!((search.phase, search.low, search.high), (Phase::Scanning, 100, 100));
    assert!(matches!(search.step(None), SearchStep::Failed));
}

#[test]
fn search_fails_where_a_probe_finds_no_record() {
    let mut search = Search::new(100, Some(past_ten(30)), past_ten(50));
    assert!(matches!(search.step(Some(item(0, 10))), SearchStep::Probe(50)));
    assert!(matches!(search.step(None), SearchStep::Failed));
}

#[test]
fn reads_through_a_file_agree_with_reads_of_its_bytes() {
    for seed in 0..3 {
        let data = text_file(30, seed);
        let reader = LogReader::with_year(data.clone(), 2021);
        let mut file = Cursor::new(data.clone());
        for pos in 0..data.len() as u64 + 2 {
            assert_eq!(
                stream_read_at(&mut file, pos).as_ref().map(shown),
                read_at(&reader, pos).as_ref().map(shown),
                "seed {} pos {}",
                seed,
                pos
            );
        }
        for block_size in [1, 7, 64, 100000] {
            let line = stream_last_line(&mut file, data.len() as u64, block_size);
            assert_eq!(
                line.map(|l| l.trim_end().to_string()),
                read_last_line(&reader),
                "seed {} block {}",
                seed,
                block_size
            );
        }
    }
}

#[test]
fn cursors_through_a_file_agree_with_cursors_over_its_bytes() {
    let mut opened = 0;
    for seed in 0..4 {
        let data = text_file(40, seed);
        for s in -1..82 {
            let start = if s < 0 { None } else { Some(past_ten(s)) };
            for block_size in [5, 4096] {
                let streamed = stream_open(&data, start, block_size);
                let held = in_memory(&data, start);
                assert_eq!(streamed.is_some(), held.is_some(), "seed {} start {}", seed, s);
                if let (Some(a), Some(b)) = (streamed, held) {
                    assert_eq!(shown(a.next.as_ref().unwrap()), shown(b.next.as_ref().unwrap()));
                    assert_eq!(shown(&a.last), shown(&b.last));
                    opened += 1;
                }
            }
        }
    }
    assert!(opened > 100, "{}", opened);
}

#[test]
fn merge_through_files_agrees_with_merge_over_bytes() {
    let files: Vec<Vec<u8>> = (0..4).map(|seed| text_file(25 + seed as u32, seed)).collect();
    for (start, end) in [
        (None, None),
        (Some(past_ten(10)), None),
        (None, Some(past_ten(30))),
        (Some(past_ten(10)), Some(past_ten(30))),
        (Some(past_ten(31)), Some(past_ten(30))),
    ] {
        let cli = options(start, end);
        let readers = files.iter().map(|f| LogReader::with_year(f.clone(), 2021)).collect();
        let (heap, _) = get_heap_of_files(readers, &cli);
        let held = merge(heap, &cli);
        assert_eq!(stream_merge(&files, &cli), held);
        if start.is_none() && end.is_none() {
            assert_eq!(held.len(), 25 + 26 + 27 + 28);
        }
    }
}

#[test]
fn take_next_and_put_back_keep_the_places_of_the_row() {
    let cli = options(None, Some(past_ten(3)));
    let files = vec![text_file(3, 1), text_file(3, 2), text_file(3, 3)];
    let readers = files.iter().map(|f| LogReader::with_year(f.clone(), 2021)).collect();
    let (mut heap, _) = get_heap_of_files(readers, &cli);
    assert_eq!(heap.len(), 3);
    let (place, mut cursor) = heap.take_next().unwrap();
    assert_eq!(place, 0);
    assert_eq!(heap.len(), 2);
    assert_eq!(cursor.next.as_ref().unwrap().sort, past_ten(0));
    assert!(cursor.advance());
    assert!(heap.put_back(place, cursor, &cli));
    assert_eq!(heap.len(), 3);
    assert_eq!(heap.cursors[0].next.as_ref().unwrap().sort, past_ten(2));
    let (place, _) = heap.take_next().unwrap();
    assert_eq!(place, 1);
    let (place, mut cursor) = heap.take_next().unwrap();
    assert_eq!(place, 1);
    cursor.advance();
    cursor.advance();
    // its pending record lies behind the end of the window
    assert_eq!(cursor.next.as_ref().unwrap().sort, past_ten(4));
    assert!(!heap.put_back(place, cursor, &cli));
    assert_eq!(heap.len(), 1);
}

#[test]
fn take_next_empties_a_row_of_exhausted_cursors() {
    let mut heap = MergeHeap::new();
    assert!(heap.take_next().is_none());
    for seed in 0..2 {
        let mut cursor = in_memory(&text_file(1, seed), None).unwrap();
        cursor.advance();
        heap.push(cursor);
    }
    assert_eq!(heap.len(), 2);
    assert!(heap.take_next().is_none());
    assert!(heap.is_empty());
}
