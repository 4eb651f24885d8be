use std::collections::BTreeMap;
use std::io::Write;

use lob_lab::packing::Packer;
use lob_lab::recorder::{file_name, hour_of, RawWriter};
use lob_lab::recording::{
    is_whole_day, read_file, recorded_hour, recorded_lines, recordings, split_lines,
};

#[test]
fn rotates_once_per_utc_hour() {
    assert_eq!(hour_of(0), 0);
    assert_eq!(hour_of(3_599_999), 0);
    assert_eq!(hour_of(3_600_000), 1);
    assert_eq!(hour_of(1_590_484_156_350), 441_801);
}

#[test]
fn hours_before_the_epoch_round_down() {
    assert_eq!(hour_of(-1), -1);
    assert_eq!(hour_of(-3_600_000), -1);
    assert_eq!(hour_of(-3_600_001), -2);
    assert_eq!(hour_of(i64::MIN), i64::MIN.div_euclid(3_600_000));
}

/// Compresses what the recorder writes, one chunk of bytes at a time.
fn compress(chunks: &[Vec<u8>]) -> Vec<u8> {
    let mut encoder = zstd::stream::write::Encoder::new(Vec::new(), 3).unwrap();
    for chunk in chunks {
        encoder.write_all(chunk).unwrap();
        encoder.flush().unwrap();
    }
    encoder.finish().unwrap()
}

#[test]
fn writes_one_line_per_message() {
    let mut w = RawWriter::new();
    let first = w.write(0, "{\"a\":1}").unwrap();
    let second = w.write(10, "{\"a\":2}").unwrap();
    let closing = w.finish().unwrap().unwrap();
    assert_eq!(first.start, Some("raw-0.jsonl.zst".to_string()));
    assert_eq!(first.closing, None);
    assert_eq!(second.start, None);
    assert_eq!(second.closing, None);
    let contents = read_file([first.bytes, second.bytes, closing].concat()).unwrap();
    assert_eq!(contents.lines.len(), 2);
    assert_eq!(contents.lines, vec!["{\"a\":1}".to_string(), "{\"a\":2}".to_string()]);
    assert_eq!(contents.kept, 16);
    assert_eq!(contents.broken, None);
}

#[test]
fn every_line_can_be_read_back_at_once() {
    let mut w = RawWriter::new();
    let mut file = Vec::new();
    let mut lines = Vec::new();
    let mut len = 0;
    for i in 0..300 {
        let line = format!("{i} {}", "caf\u{e9} ".repeat(i));
        file.extend(w.write(i as i64, &line).unwrap().bytes);
        len += line.len() + 1;
        lines.push(line);
        let contents = read_file(file.clone()).unwrap();
        assert_eq!(contents.lines, lines);
        assert_eq!(contents.kept, len);
        assert!(contents.broken.is_some());
    }
    file.extend(w.finish().unwrap().unwrap());
    let contents = read_file(file).unwrap();
    assert_eq!(contents.lines, lines);
    assert_eq!(contents.broken, None);
}

#[test]
fn a_long_line_is_recorded_whole() {
    let mut line = String::new();
    let mut x: u64 = 1;
    for _ in 0..50_000 {
        x = x.wrapping_mul(6_364_136_223_846_793_005).wrapping_add(1_442_695_040_888_963_407);
        line.push_str(&format!("{:016x}", x ^ (x >> 29)));
    }
    let mut w = RawWriter::new();
    let file = w.write(0, &line).unwrap().bytes;
    assert!(file.len() > 200_000);
    assert_eq!(read_file(file).unwrap().lines, vec![line]);
}

#[test]
fn a_new_hour_starts_a_new_file() {
    let mut w = RawWriter::new();
    let first = w.write(3_599_999, "x").unwrap();
    assert_eq!(first.start, Some("raw-0.jsonl.zst".to_string()));
    assert_eq!(first.closing, None);
    let second = w.write(3_600_000, "y").unwrap();
    assert_eq!(second.start, Some("raw-1.jsonl.zst".to_string()));
    let ended = read_file([first.bytes, second.closing.unwrap()].concat()).unwrap();
    assert_eq!(ended.lines, vec!["x".to_string()]);
    assert_eq!(ended.broken, None);
    let third = w.write(3_600_001, "z").unwrap();
    assert_eq!(third.start, None);
    assert_eq!(third.closing, None);
    let open = read_file([second.bytes, third.bytes].concat()).unwrap();
    assert_eq!(open.lines, vec!["y".to_string(), "z".to_string()]);
    assert_eq!(w.write(0, "x").unwrap().start, Some("raw-0.jsonl.zst".to_string()));
    assert!(w.finish().unwrap().is_some());
    assert_eq!(w.finish().unwrap(), None);
    assert_eq!(w.write(0, "x").unwrap().start, Some("raw-0.jsonl.zst".to_string()));
}

#[test]
fn a_file_with_nothing_in_it_reads_as_nothing() {
    let packer = Packer::new().unwrap();
    let contents = read_file(packer.finish().unwrap()).unwrap();
    assert!(contents.lines.is_empty());
    assert_eq!(contents.kept, 0);
    assert_eq!(contents.broken, None);
}

#[test]
fn a_broken_file_keeps_what_was_flushed() {
    let lines: Vec<Vec<u8>> = (0..200).map(|i| format!("line {i}\n").into_bytes()).collect();
    let whole = compress(&lines);
    let full = read_file(whole.clone()).unwrap();
    assert_eq!(full.lines.len(), 200);
    assert_eq!(full.broken, None);
    // Cut the frame where a killed recorder would have left it.
    let cut = read_file(whole[..whole.len() - 9].to_vec()).unwrap();
    assert!(cut.broken.is_some());
    assert!(cut.lines.len() >= 190);
    assert_eq!(cut.lines[..], full.lines[..cut.lines.len()]);
}

#[test]
fn what_is_no_zstd_file_breaks_at_once() {
    let contents = read_file(b"not compressed at all".to_vec()).unwrap();
    assert!(contents.broken.is_some());
    assert_eq!(contents.kept, 0);
    assert!(contents.lines.is_empty());
}

#[test]
fn a_long_file_is_read_in_many_chunks() {
    let line = "x".repeat(1_000);
    let mut text = String::new();
    for _ in 0..500 {
        text.push_str(&line);
        text.push('\n');
    }
    let contents = read_file(compress(&[text.clone().into_bytes()])).unwrap();
    assert_eq!(contents.kept, text.len());
    assert_eq!(contents.lines.len(), 500);
    assert!(contents.lines.iter().all(|l| *l == line));
}

#[test]
fn a_trailing_partial_line_is_dropped() {
    assert_eq!(recorded_lines(b"one\ntwo\nthr".to_vec()), vec!["one", "two"]);
    assert_eq!(recorded_lines(b"one".to_vec()), Vec::<String>::new());
    assert_eq!(recorded_lines(Vec::new()), Vec::<String>::new());
    // The partial line may end in the middle of a character.
    assert_eq!(recorded_lines(b"caf\xC3\xA9\n\xC3".to_vec()), vec!["caf\u{e9}"]);
}

#[test]
fn bytes_that_are_no_text_are_replaced() {
    assert_eq!(recorded_lines(b"a\xFFb\nc\n".to_vec()), vec!["a\u{fffd}b", "c"]);
}

#[test]
fn lines_split_as_str_lines_does() {
    for text in ["", "a", "a\nb", "a\r\nb\r", "\n", "\n\n", "a\n\nb\n", "\r\n\r", "x\r\r\ny"] {
        let expected: Vec<String> = text.lines().map(|s| s.to_string()).collect();
        assert_eq!(split_lines(text), expected, "{text:?}");
    }
}

#[test]
fn every_hour_has_its_own_name() {
    for h in [0, 1, -1, 9, 10, 441_801, i64::MAX, i64::MIN] {
        let name = file_name(h);
        assert_eq!(name, format!("raw-{h}.jsonl.zst"));
        assert_eq!(recorded_hour(&name), Some(h));
    }
    for name in [
        "raw-.jsonl.zst",
        "raw-01.jsonl.zst",
        "raw--0.jsonl.zst",
        "raw-1x.jsonl.zst",
        "raw-9223372036854775808.jsonl.zst",
        "gaps.jsonl",
        "raw-1.jsonl",
        "",
    ] {
        assert_eq!(recorded_hour(name), None, "{name}");
    }
}

#[test]
fn files_are_read_in_hour_order() {
    let names: Vec<String> = [
        "raw-1000000.jsonl.zst",
        "gaps.jsonl",
        "raw-999999.jsonl.zst",
        "raw-x.jsonl.zst",
        "other-1.jsonl.zst",
        "raw--1.jsonl.zst",
    ]
    .iter()
    .map(|s| s.to_string())
    .collect();
    let found: Vec<String> = recordings(names).into_iter().map(|r| r.name).collect();
    assert_eq!(
        found,
        vec![
            "raw--1.jsonl.zst",
            "raw-999999.jsonl.zst",
            "raw-1000000.jsonl.zst",
            "raw-x.jsonl.zst",
        ]
    );
}

#[test]
fn a_whole_day_has_every_hour() {
    let day = |hours: Vec<i64>| is_whole_day(&recordings(hours.into_iter().map(file_name).collect()));
    assert!(day((48..72).collect()));
    assert!(day((-24..0).rev().collect()));
    assert!(day((40..80).collect()));
    assert!(!day((49..73).collect()));
    assert!(!day((48..72).filter(|h| *h != 60).collect()));
    assert!(!day(vec![]));
    assert!(!day(vec![i64::MAX, i64::MIN]));
}

/// Does what a write asks for, on files in memory.
fn apply(
    files: &mut BTreeMap<String, Vec<u8>>,
    open: &mut Option<String>,
    closing: Option<Vec<u8>>,
    start: Option<String>,
    bytes: Vec<u8>,
) {
    if let (Some(rest), Some(name)) = (closing, open.as_ref()) {
        files.get_mut(name).unwrap().extend(rest);
    }
    if let Some(name) = start {
        files.insert(name.clone(), Vec::new());
        *open = Some(name);
    }
    if let Some(name) = open.as_ref() {
        files.get_mut(name).unwrap().extend(bytes);
    }
}

#[test]
fn every_hour_is_on_disk() {
    let mut files: BTreeMap<String, Vec<u8>> = BTreeMap::new();
    let mut open: Option<String> = None;
    let mut expected: BTreeMap<String, Vec<String>> = BTreeMap::new();
    let mut w = RawWriter::new();
    for i in 0..60 {
        let ts: i64 = i * 400_000;
        let line = format!("line {i}");
        let written = w.write(ts, &line).unwrap();
        apply(&mut files, &mut open, written.closing, written.start, written.bytes);
        expected.entry(format!("raw-{}.jsonl.zst", ts / 3_600_000)).or_default().push(line);
    }
    let last = open.clone().unwrap();
    for (name, file) in &files {
        let contents = read_file(file.clone()).unwrap();
        assert_eq!(contents.lines, expected[name]);
        assert_eq!(contents.broken.is_some(), *name == last);
    }
    apply(&mut files, &mut open, w.finish().unwrap(), None, Vec::new());
    assert_eq!(files.len(), 7);
    assert_eq!(files.keys().collect::<Vec<_>>(), expected.keys().collect::<Vec<_>>());
    for (name, file) in &files {
        let contents = read_file(file.clone()).unwrap();
        assert_eq!(contents.lines, expected[name]);
        assert_eq!(contents.broken, None);
    }
    assert_eq!(w.finish().unwrap(), None);
}
