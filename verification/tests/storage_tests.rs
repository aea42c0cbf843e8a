use fileforge::storage::{
    trim_line_end, Config, MemoryMapReader, ReadError, Reader, ReaderFactory, ReaderKind,
};

#[test]
fn memory_map_reader_lines() {
    let data = b"first\r\nsecond\n\nlast";
    let mut r = MemoryMapReader::new(data);
    let a = r.next_record().unwrap().unwrap();
    assert_eq!((a.line, a.offset, a.data.as_str()), (1, 0, "first"));
    let b = r.next_record().unwrap().unwrap();
    assert_eq!((b.line, b.offset, b.data.as_str()), (2, 7, "second"));
    let c = r.next_record().unwrap().unwrap();
    assert_eq!((c.line, c.offset, c.data.as_str()), (3, 14, ""));
    let d = r.next_record().unwrap().unwrap();
    assert_eq!((d.line, d.offset, d.data.as_str()), (4, 15, "last"));
    assert!(r.next_record().unwrap().is_none());
    assert!(r.next_record().unwrap().is_none());
}

#[test]
fn memory_map_reader_bad_line_keeps_numbering() {
    let data: &[u8] = &[b'a', b'\n', 0xC3, b'\n', b'b'];
    let mut r = MemoryMapReader::new(data);
    assert_eq!(r.next_record().unwrap().unwrap().line, 1);
    assert_eq!(r.next_record().err(), Some(ReadError::InvalidUtf8));
    let c = r.next_record().unwrap().unwrap();
    assert_eq!((c.line, c.offset, c.data.as_str()), (2, 4, "b"));
}

#[test]
fn memory_map_reader_only_one_cr_stripped() {
    let mut r = MemoryMapReader::new(b"x\r\r\n");
    assert_eq!(r.next_record().unwrap().unwrap().data, "x\r");
}

#[test]
fn select_reader_thresholds() {
    assert_eq!(ReaderFactory::select_reader(0), ReaderKind::Line);
    assert_eq!(ReaderFactory::select_reader(100 * 1024 * 1024 - 1), ReaderKind::Line);
    assert_eq!(ReaderFactory::select_reader(100 * 1024 * 1024), ReaderKind::Chunk);
    assert_eq!(ReaderFactory::select_reader(10 * 1024 * 1024 * 1024 - 1), ReaderKind::Chunk);
    assert_eq!(ReaderFactory::select_reader(10 * 1024 * 1024 * 1024), ReaderKind::MemoryMap);
}

#[test]
fn line_end_trimming() {
    assert_eq!(trim_line_end("abc\r\n"), "abc");
    assert_eq!(trim_line_end("abc\n\r\n\r"), "abc");
    assert_eq!(trim_line_end("a\rb\n"), "a\rb");
    assert_eq!(trim_line_end(""), "");
}

#[test]
fn config_default() {
    let c = Config::default();
    assert_eq!(c.buffer_size, 8 * 1024 * 1024);
    assert_eq!(c.progress_update_ms, 500);
}

#[test]
fn line_cursor_numbers_and_trims() {
    let mut c = fileforge::storage::LineCursor::new();
    let r = c.record("first\r\n");
    assert_eq!((r.line, r.offset, r.data.as_str()), (1, 0, "first"));
    let r = c.record("é\n");
    assert_eq!((r.line, r.offset, r.data.as_str()), (2, 7, "é"));
    let r = c.record("last");
    assert_eq!((r.line, r.offset, r.data.as_str()), (3, 10, "last"));
    assert_eq!(c.position(), (3, 14));
}
