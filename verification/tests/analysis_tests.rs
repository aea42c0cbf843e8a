use fileforge::analysis::{
    count_lines, inspect_text, AnalysisResult, AnalyzeError, Analyzer, AnalyzerManager,
    CsvAnalyzer, FileProbe, JsonlAnalyzer, KnownAnalyzer, TextAnalyzer, to_ascii_lowercase,
};

fn probe(path: &str, contents: &[u8]) -> FileProbe {
    let header: Vec<u8> = contents.iter().take(4096).cloned().collect();
    FileProbe::new(path.to_string(), contents.len() as u64, header)
}

fn meta(r: &AnalysisResult, name: &str) -> Option<String> {
    r.metadata.iter().find(|(k, _)| k == name).map(|(_, v)| v.clone())
}

fn manager() -> AnalyzerManager<KnownAnalyzer> {
    let mut m = AnalyzerManager::new();
    m.register(KnownAnalyzer::Csv(CsvAnalyzer));
    m.register(KnownAnalyzer::Jsonl(JsonlAnalyzer));
    m.register(KnownAnalyzer::Text(TextAnalyzer));
    m
}

#[test]
fn probe_extension_lowercase() {
    let p = probe("/data/Report.CSV", b"a\n");
    assert_eq!(p.extension.as_deref(), Some("csv"));
    assert_eq!(probe("/data/README", b"").extension, None);
    assert_eq!(probe("/data/.hidden", b"").extension, None);
    assert_eq!(probe("archive.tar.gz", b"").extension.as_deref(), Some("gz"));
    assert_eq!(to_ascii_lowercase("AbÇ.TXT"), "abÇ.txt");
}

#[test]
fn analyzers_accept_by_extension() {
    assert!(CsvAnalyzer.can_open(&probe("x.csv", b"")));
    assert!(!CsvAnalyzer.can_open(&probe("x.tsv", b"")));
    assert!(JsonlAnalyzer.can_open(&probe("x.jsonl", b"")));
    assert!(JsonlAnalyzer.can_open(&probe("x.NDJSON", b"")));
    assert!(TextAnalyzer.can_open(&probe("x.log", b"")));
    assert!(TextAnalyzer.can_open(&probe("x.txt", b"")));
    assert!(!TextAnalyzer.can_open(&probe("x.md", b"")));
    assert_eq!(CsvAnalyzer.name(), "CSV");
    assert_eq!(JsonlAnalyzer.name(), "JSONL");
    assert_eq!(TextAnalyzer.name(), "Text");
    assert_eq!(TextAnalyzer.extensions(), &["txt", "log"]);
}

#[test]
fn csv_analysis() {
    let data = b"name,age\nann,3\nbob,4\n";
    let p = probe("people.Csv", data);
    let r = CsvAnalyzer.analyze(&p, data).unwrap();
    assert_eq!(r.format, "csv");
    assert_eq!(r.file.extension, "Csv");
    assert_eq!(r.file.size, data.len() as u64);
    assert_eq!(r.statistics.lines, 3);
    assert_eq!(r.statistics.objects, 2);
    assert_eq!(meta(&r, "columns").as_deref(), Some("2"));
    assert_eq!(meta(&r, "headers").as_deref(), Some("name, age"));
    assert_eq!(meta(&r, "encoding").as_deref(), Some("Utf8"));
}

#[test]
fn csv_analysis_refuses_ragged_rows() {
    let data = b"a,b\n1,2,3\n";
    let p = probe("bad.csv", data);
    assert_eq!(CsvAnalyzer.analyze(&p, data).err(), Some(AnalyzeError::Csv));
}

#[test]
fn jsonl_analysis() {
    let data = b"{\"b\":1,\"a\":2}\n\n  [1,2]  \nnot json\n{\"c\":true,\"a\":0}\n";
    let p = probe("events.jsonl", data);
    let r = JsonlAnalyzer.analyze(&p, data).unwrap();
    assert_eq!(r.format, "jsonl");
    assert_eq!(r.statistics.lines, 4);
    assert_eq!(r.statistics.objects, 3);
    assert_eq!(meta(&r, "valid_json").as_deref(), Some("3"));
    assert_eq!(meta(&r, "invalid_json").as_deref(), Some("1"));
    assert_eq!(meta(&r, "keys").as_deref(), Some("a, b, c"));
}

#[test]
fn jsonl_analysis_invalid_utf8() {
    let data: &[u8] = &[b'{', b'}', b'\n', 0xFF, b'\n'];
    let p = probe("x.jsonl", data);
    assert_eq!(JsonlAnalyzer.analyze(&p, data).err(), Some(AnalyzeError::InvalidUtf8));
}

#[test]
fn text_analysis_and_line_count() {
    let data = b"one\ntwo\r\nthree";
    let p = probe("notes.txt", data);
    let r = TextAnalyzer.analyze(&p, data).unwrap();
    assert_eq!(r.format, "text");
    assert_eq!(r.statistics.lines, 3);
    assert_eq!(count_lines(b"").unwrap(), 0);
    assert_eq!(count_lines(b"\n").unwrap(), 1);
    assert_eq!(count_lines(b"a\n").unwrap(), 1);
    let info = inspect_text(b"a\nb\n", 4).unwrap();
    assert_eq!((info.lines, info.bytes), (2, 4));
    assert_eq!(count_lines(&[0xFF]).err(), Some(AnalyzeError::InvalidUtf8));
}

#[test]
fn manager_picks_first_accepting() {
    let m = manager();
    let data = b"a,b\n1,2\n";
    let r = m.open(&probe("t.csv", data), data).unwrap();
    assert_eq!(r.format, "csv");
    let r = m.open(&probe("t.log", data), data).unwrap();
    assert_eq!(r.format, "text");
    assert_eq!(m.select(&probe("t.jsonl", data)), Some(1));
    assert_eq!(m.open(&probe("t.bin", data), data).err(), Some(AnalyzeError::NoAnalyzer));
    let empty: AnalyzerManager<KnownAnalyzer> = AnalyzerManager::default();
    assert_eq!(empty.select(&probe("t.csv", data)), None);
}
