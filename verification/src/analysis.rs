//! File analysis: what is known of a file before reading it, the analyzers for CSV, JSONL and
//! plain text, and the manager that picks the analyzer for a file.
use vstd::prelude::*;

use crate::encoding::{detect_encoding, detected_encoding, encoding_name};
use crate::csv_rows::{csv_data_row, csv_header_row, csv_row_count, CsvRows};
use crate::json::{json_shape, json_shape_of, JsonShape, JsonShapeModel};
use crate::paths::{path_extension, path_extension_of};
use crate::storage::{lemma_records_len, records_from, MemoryMapReader, ReadError, Reader, RecordModel};
use crate::text::{
    char_vecs, chars_of, decimal, insert_sorted, join, join_chars, lemma_lex_irreflexive,
    lemma_lex_trichotomy, lex_lt, push_decimal, string_from_chars, strictly_sorted, trim,
    trim_chars,
};

verus! {

/// Size, path and kind of an analyzed file.
#[derive(Debug, Clone)]
pub struct FileInfo {
    pub path: String,
    pub size: u64,
    pub extension: String,
}

/// Counts gathered by an analyzer.
#[derive(Debug, Clone, Copy)]
pub struct Statistics {
    pub lines: u64,
    pub size: u64,
    pub objects: u64,
}

/// The outcome of analyzing one file. `metadata` holds named facts, each name once.
#[derive(Debug, Clone)]
pub struct AnalysisResult {
    pub format: String,
    pub file: FileInfo,
    pub metadata: Vec<(String, String)>,
    pub statistics: Statistics,
}

/// The model of an [`AnalysisResult`].
pub struct AnalysisModel {
    pub format: Seq<char>,
    pub path: Seq<char>,
    pub size: u64,
    pub extension: Seq<char>,
    pub metadata: Seq<(Seq<char>, Seq<char>)>,
    pub lines: u64,
    pub stat_size: u64,
    pub objects: u64,
}

impl AnalysisResult {
    pub open spec fn model(self) -> AnalysisModel {
        AnalysisModel {
            format: self.format@,
            path: self.file.path@,
            size: self.file.size,
            extension: self.file.extension@,
            metadata: self.metadata@.map_values(|p: (String, String)| (p.0@, p.1@)),
            lines: self.statistics.lines,
            stat_size: self.statistics.size,
            objects: self.statistics.objects,
        }
    }
}

/// Why a file could not be analyzed.
#[derive(Debug, Clone, Copy, PartialEq, Eq, Structural)]
pub enum AnalyzeError {
    /// No registered analyzer accepts the file.
    NoAnalyzer,
    /// The file is not well-formed CSV.
    Csv,
    /// A line of the file is not well-formed UTF-8.
    InvalidUtf8,
}

pub open spec fn analysis_result_model(r: Result<AnalysisResult, AnalyzeError>) -> Result<
    AnalysisModel,
    AnalyzeError,
> {
    match r {
        Ok(a) => Ok(a.model()),
        Err(e) => Err(e),
    }
}

/// `c` with ASCII upper-case letters mapped to lower case.
pub open spec fn lower_char(c: char) -> char {
    if 'A' <= c && c <= 'Z' {
        ((c as u32) + 32) as char
    } else {
        c
    }
}

pub open spec fn lower_chars(s: Seq<char>) -> Seq<char> {
    s.map_values(|c: char| lower_char(c))
}

fn to_lower_char(c: char) -> (r: char)
    ensures
        r == lower_char(c),
{
    if 'A' <= c && c <= 'Z' {
        ((c as u8) + 32) as char
    } else {
        c
    }
}

/// `s` with ASCII letters in lower case, as `str::to_ascii_lowercase` returns it.
pub fn to_ascii_lowercase(s: &str) -> (r: String)
    ensures
        r@ == lower_chars(s@),
{
    let cs = chars_of(s);
    let mut out: Vec<char> = Vec::new();
    let mut i: usize = 0;
    while i < cs.len()
        invariant
            i <= cs@.len(),
            cs@ == s@,
            out@ == lower_chars(cs@.take(i as int)),
        decreases cs@.len() - i,
    {
        out.push(to_lower_char(cs[i]));
        assert(lower_chars(cs@.take(i + 1)) =~= lower_chars(cs@.take(i as int)).push(
            lower_char(cs@[i as int]),
        ));
        i = i + 1;
    }
    assert(cs@.take(cs@.len() as int) == cs@);
    string_from_chars(out.as_slice())
}

/// What is known of a file before an analyzer reads it: its path, its extension in lower case,
/// its size and its first bytes.
#[derive(Debug, Clone)]
pub struct FileProbe {
    pub path: String,
    pub extension: Option<String>,
    pub size: u64,
    pub header: Vec<u8>,
}

/// The lower-case extension of a path.
pub open spec fn probe_extension(path: Seq<char>) -> Option<Seq<char>> {
    match path_extension_of(path) {
        Some(e) => Some(lower_chars(e)),
        None => None,
    }
}

/// The extension of a path as written, or nothing.
pub open spec fn raw_extension(path: Seq<char>) -> Seq<char> {
    match path_extension_of(path) {
        Some(e) => e,
        None => seq![],
    }
}

pub open spec fn option_string_model(o: Option<String>) -> Option<Seq<char>> {
    match o {
        Some(s) => Some(s@),
        None => None,
    }
}

impl FileProbe {
    /// The probe of the file at `path`, of `size` bytes, that begins with `header`.
    pub fn new(path: String, size: u64, header: Vec<u8>) -> (p: FileProbe)
        ensures
            p.path@ == path@,
            option_string_model(p.extension) == probe_extension(path@),
            p.size == size,
            p.header@ == header@,
    {
        let extension = match path_extension(path.as_str()) {
            Some(e) => Some(to_ascii_lowercase(e.as_str())),
            None => None,
        };
        FileProbe { path, extension, size, header }
    }
}

/// The extension of `probe` is `ext`.
pub open spec fn has_extension(probe: FileProbe, ext: Seq<char>) -> bool {
    probe.extension matches Some(e) && e@ == ext
}

fn extension_is(probe: &FileProbe, ext: &[char]) -> (r: bool)
    ensures
        r == has_extension(*probe, ext@),
{
    match &probe.extension {
        Some(e) => {
            let cs = chars_of(e.as_str());
            if cs.len() != ext.len() {
                assert(cs@.len() != ext@.len());
                assert(e@ != ext@);
                assert(!has_extension(*probe, ext@));
                return false;
            }
            let mut i: usize = 0;
            while i < cs.len()
                invariant
                    cs@ == e@,
                    probe.extension == Some(*e),
                    cs@.len() == ext@.len(),
                    i <= cs@.len(),
                    forall|j: int| 0 <= j < i ==> cs@[j] == ext@[j],
                decreases cs@.len() - i,
            {
                if cs[i] != ext[i] {
                    assert(cs@[i as int] != ext@[i as int]);
                    assert(e@ != ext@);
                    return false;
                }
                i = i + 1;
            }
            assert(cs@ =~= ext@);
            true
        },
        None => false,
    }
}

/// An analyzer of one kind of file.
pub trait Analyzer {
    /// The files that the analyzer accepts.
    spec fn accepts(&self, probe: FileProbe) -> bool;

    /// What analyzing a file with this analyzer gives.
    spec fn analysis(&self, probe: FileProbe, contents: Seq<u8>) -> Result<
        AnalysisModel,
        AnalyzeError,
    >;

    /// The analyzer's name.
    spec fn label(&self) -> Seq<char>;

    /// The analyzer's name.
    fn name(&self) -> (n: &'static str)
        ensures
            n@ == self.label(),
    ;

    /// Whether the analyzer accepts the file.
    fn can_open(&self, probe: &FileProbe) -> (b: bool)
        ensures
            b == self.accepts(*probe),
    ;

    /// Analyzes the file of `probe`, whose bytes are `contents`.
    fn analyze(&self, probe: &FileProbe, contents: &[u8]) -> (r: Result<AnalysisResult, AnalyzeError>)
        ensures
            analysis_result_model(r) == self.analysis(*probe, contents@),
    ;
}

/// Holds the registered analyzers, in the order of registration.
pub struct AnalyzerManager<A> {
    analyzers: Vec<A>,
}

/// The index of the first analyzer that accepts `probe`.
pub open spec fn first_accepting<A: Analyzer>(analyzers: Seq<A>, probe: FileProbe) -> Option<int>
    decreases analyzers.len(),
{
    if analyzers.len() == 0 {
        None
    } else if analyzers[0].accepts(probe) {
        Some(0)
    } else {
        match first_accepting(analyzers.drop_first(), probe) {
            Some(i) => Some(i + 1),
            None => None,
        }
    }
}

proof fn lemma_first_accepting_bounds<A: Analyzer>(analyzers: Seq<A>, probe: FileProbe)
    ensures
        first_accepting(analyzers, probe) matches Some(i) ==> 0 <= i < analyzers.len(),
    decreases analyzers.len(),
{
    if analyzers.len() > 0 {
        lemma_first_accepting_bounds(analyzers.drop_first(), probe);
    }
}

proof fn lemma_first_accepting<A: Analyzer>(analyzers: Seq<A>, probe: FileProbe, i: int)
    requires
        0 <= i <= analyzers.len(),
        forall|j: int| 0 <= j < i ==> !(#[trigger] analyzers[j]).accepts(probe),
        i < analyzers.len() ==> analyzers[i].accepts(probe),
    ensures
        first_accepting(analyzers, probe) == (if i < analyzers.len() {
            Some(i)
        } else {
            None::<int>
        }),
    decreases i,
{
    if i > 0 {
        assert forall|j: int| 0 <= j < i - 1 implies !(
        #[trigger] analyzers.drop_first()[j]).accepts(probe) by {
            assert(analyzers.drop_first()[j] == analyzers[j + 1]);
        }
        if i < analyzers.len() {
            assert(analyzers.drop_first()[i - 1] == analyzers[i]);
        }
        lemma_first_accepting(analyzers.drop_first(), probe, i - 1);
        assert(!analyzers[0].accepts(probe));
    }
}

impl<A: Analyzer> AnalyzerManager<A> {
    /// The registered analyzers, in the order of registration.
    pub closed spec fn registered(self) -> Seq<A> {
        self.analyzers@
    }

    /// A manager with no analyzers.
    pub fn new() -> (m: Self)
        ensures
            m.registered() == Seq::<A>::empty(),
    {
        AnalyzerManager { analyzers: Vec::new() }
    }

    /// Adds an analyzer after those registered before.
    pub fn register(&mut self, analyzer: A)
        ensures
            final(self).registered() == old(self).registered().push(analyzer),
    {
        self.analyzers.push(analyzer);
    }

    /// The index of the first registered analyzer that accepts the file.
    pub fn select(&self, probe: &FileProbe) -> (r: Option<usize>)
        ensures
            match r {
                Some(i) => first_accepting(self.registered(), *probe) == Some(i as int),
                None => first_accepting(self.registered(), *probe) is None,
            },
    {
        let mut i: usize = 0;
        while i < self.analyzers.len()
            invariant
                i <= self.analyzers@.len(),
                forall|j: int| 0 <= j < i ==> !(#[trigger] self.analyzers@[j]).accepts(*probe),
            decreases self.analyzers@.len() - i,
        {
            if self.analyzers[i].can_open(probe) {
                proof {
                    lemma_first_accepting(self.analyzers@, *probe, i as int);
                }
                return Some(i);
            }
            i = i + 1;
        }
        proof {
            lemma_first_accepting(self.analyzers@, *probe, i as int);
        }
        None
    }

    /// Analyzes the file with the first registered analyzer that accepts it; where none does,
    /// the file is refused with `NoAnalyzer`.
    pub fn open(&self, probe: &FileProbe, contents: &[u8]) -> (r: Result<
        AnalysisResult,
        AnalyzeError,
    >)
        ensures
            match first_accepting(self.registered(), *probe) {
                Some(i) => analysis_result_model(r) == self.registered()[i].analysis(
                    *probe,
                    contents@,
                ),
                None => r == Err::<AnalysisResult, AnalyzeError>(AnalyzeError::NoAnalyzer),
            },
    {
        proof {
            lemma_first_accepting_bounds(self.analyzers@, *probe);
        }
        match self.select(probe) {
            Some(i) => self.analyzers[i].analyze(probe, contents),
            None => Err(AnalyzeError::NoAnalyzer),
        }
    }
}

impl<A: Analyzer> Default for AnalyzerManager<A> {
    /// A manager with no analyzers.
    fn default() -> (m: Self)
        ensures
            m.registered() == Seq::<A>::empty(),
    {
        AnalyzerManager::new()
    }
}

/// The name and value of a metadata entry.
fn entry(name: &[char], value: String) -> (e: (String, String))
    ensures
        e.0@ == name@,
        e.1 == value,
{
    (string_from_chars(name), value)
}

/// The encoding entry of the metadata: the name of the encoding detected from the header.
pub open spec fn encoding_entry(probe: FileProbe) -> (Seq<char>, Seq<char>) {
    (
        seq!['e', 'n', 'c', 'o', 'd', 'i', 'n', 'g'],
        encoding_name(detected_encoding(probe.header@)),
    )
}

fn encoding_metadata(probe: &FileProbe) -> (e: (String, String))
    ensures
        (e.0@, e.1@) == encoding_entry(*probe),
{
    let enc = detect_encoding(probe.header.as_slice());
    let name = vec!['e', 'n', 'c', 'o', 'd', 'i', 'n', 'g'];
    entry(name.as_slice(), enc.name())
}

fn decimal_string(n: u64) -> (s: String)
    ensures
        s@ == decimal(n as nat),
{
    let mut v: Vec<char> = Vec::new();
    push_decimal(&mut v, n);
    assert(v@ =~= decimal(n as nat));
    string_from_chars(v.as_slice())
}

fn file_info(probe: &FileProbe) -> (f: FileInfo)
    ensures
        f.path@ == probe.path@,
        f.size == probe.size,
        f.extension@ == raw_extension(probe.path@),
{
    let extension = match path_extension(probe.path.as_str()) {
        Some(e) => e,
        None => String::new(),
    };
    FileInfo { path: probe.path.clone(), size: probe.size, extension }
}

/// The character sequences of a sequence of strings.
pub open spec fn string_views(v: Seq<String>) -> Seq<Seq<char>> {
    v.map_values(|s: String| s@)
}

/// Analyzes CSV files.
pub struct CsvAnalyzer;

pub open spec fn csv_word() -> Seq<char> {
    seq!['c', 's', 'v']
}

/// What the CSV analyzer gives: the header's columns and the number of data records.
pub open spec fn csv_analysis(probe: FileProbe, contents: Seq<u8>) -> Result<
    AnalysisModel,
    AnalyzeError,
> {
    match csv_header_row(contents) {
        None => Err(AnalyzeError::Csv),
        Some(h) => if exists|n: nat| csv_row_count(contents, n) {
            let n = choose|n: nat| csv_row_count(contents, n);
            Ok(
                AnalysisModel {
                    format: csv_word(),
                    path: probe.path@,
                    size: probe.size,
                    extension: raw_extension(probe.path@),
                    metadata: seq![
                        encoding_entry(probe),
                        (seq!['c', 'o', 'l', 'u', 'm', 'n', 's'], decimal(h.len())),
                        (seq!['h', 'e', 'a', 'd', 'e', 'r', 's'], join(h, seq![',', ' '])),
                    ],
                    lines: (n + 1) as u64,
                    stat_size: probe.size,
                    objects: n as u64,
                },
            )
        } else {
            Err(AnalyzeError::Csv)
        },
    }
}

proof fn lemma_csv_count_unique(contents: Seq<u8>, n: nat, m: nat)
    requires
        csv_row_count(contents, n),
        csv_row_count(contents, m),
    ensures
        n == m,
{
    if n < m {
        assert(csv_data_row(contents, n) is Fields);
    } else if m < n {
        assert(csv_data_row(contents, m) is Fields);
    }
}

pub open spec fn metadata_model(v: Seq<(String, String)>) -> Seq<(Seq<char>, Seq<char>)> {
    v.map_values(|p: (String, String)| (p.0@, p.1@))
}

impl Analyzer for CsvAnalyzer {
    open spec fn accepts(&self, probe: FileProbe) -> bool {
        has_extension(probe, csv_word())
    }

    open spec fn analysis(&self, probe: FileProbe, contents: Seq<u8>) -> Result<
        AnalysisModel,
        AnalyzeError,
    > {
        csv_analysis(probe, contents)
    }

    open spec fn label(&self) -> Seq<char> {
        seq!['C', 'S', 'V']
    }

    fn name(&self) -> (n: &'static str) {
        proof {
            reveal_strlit("CSV");
        }
        "CSV"
    }

    /// Accepts files whose extension is `csv`.
    fn can_open(&self, probe: &FileProbe) -> (b: bool) {
        let ext = vec!['c', 's', 'v'];
        extension_is(probe, ext.as_slice())
    }

    /// Reads the header and counts the data records; malformed CSV is refused.
    fn analyze(&self, probe: &FileProbe, contents: &[u8]) -> (r: Result<
        AnalysisResult,
        AnalyzeError,
    >) {
        let (mut rows, headers) = match CsvRows::open(contents) {
            Ok(p) => p,
            Err(e) => return Err(e),
        };
        let mut count: u64 = 0;
        let len = contents.len();
        assert(len <= u64::MAX);
        loop
            invariant
                rows.bytes() == contents@,
                rows.rows_read() == count,
                len == contents@.len(),
                count == 0 || count + 1 <= len,
                forall|k: nat| k < count ==> #[trigger] csv_data_row(contents@, k) is Fields,
            ensures
                csv_data_row(contents@, count as nat) is End,
            decreases contents@.len() - count,
        {
            match rows.next_row() {
                Ok(Some(_)) => {
                    count = count + 1;
                },
                Ok(None) => break,
                Err(e) => {
                    proof {
                        assert forall|n: nat| #[trigger] csv_row_count(contents@, n) implies false by {
                            if n < count {
                                assert(csv_data_row(contents@, n) is Fields);
                            } else if n > count {
                                assert(csv_data_row(contents@, count as nat) is Fields);
                            }
                        }
                    }
                    return Err(e);
                },
            }
        }
        proof {
            assert(csv_row_count(contents@, count as nat));
            let n = choose|n: nat| csv_row_count(contents@, n);
            lemma_csv_count_unique(contents@, n, count as nat);
        }
        let header_chars = headers_chars(&headers);
        let sep = vec![',', ' '];
        let joined = join_chars(header_chars.as_slice(), sep.as_slice());
        let mut metadata: Vec<(String, String)> = Vec::new();
        metadata.push(encoding_metadata(probe));
        let columns = vec!['c', 'o', 'l', 'u', 'm', 'n', 's'];
        metadata.push(entry(columns.as_slice(), decimal_string(headers.len() as u64)));
        let heads = vec!['h', 'e', 'a', 'd', 'e', 'r', 's'];
        metadata.push(entry(heads.as_slice(), string_from_chars(joined.as_slice())));
        let format = vec!['c', 's', 'v'];
        let result = AnalysisResult {
            format: string_from_chars(format.as_slice()),
            file: file_info(probe),
            metadata,
            statistics: Statistics { lines: count + 1, size: probe.size, objects: count },
        };
        proof {
            assert(metadata_model(result.metadata@) =~= csv_analysis(*probe, contents@)->Ok_0.metadata);
        }
        Ok(result)
    }
}

fn headers_chars(h: &Vec<String>) -> (r: Vec<Vec<char>>)
    ensures
        char_vecs(r@) == string_views(h@),
{
    let mut out: Vec<Vec<char>> = Vec::new();
    let mut i: usize = 0;
    while i < h.len()
        invariant
            i <= h@.len(),
            char_vecs(out@) == string_views(h@.take(i as int)),
        decreases h@.len() - i,
    {
        let ghost before = char_vecs(out@);
        let c = chars_of(h[i].as_str());
        out.push(c);
        proof {
            assert(c@ == h@[i as int]@);
            assert(char_vecs(out@) =~= before.push(c@));
            assert(string_views(h@.take(i + 1)) =~= string_views(h@.take(i as int)).push(h@[i as int]@));
        }
        i = i + 1;
    }
    assert(h@.take(h@.len() as int) == h@);
    out
}

/// What a JSONL analysis counts: non-blank lines, lines that are JSON and lines that are not,
/// and the keys of the JSON objects.
pub struct JsonlTally {
    pub rows: nat,
    pub valid: nat,
    pub invalid: nat,
    pub keys: Set<Seq<char>>,
}

pub open spec fn empty_tally() -> JsonlTally {
    JsonlTally { rows: 0, valid: 0, invalid: 0, keys: Set::empty() }
}

/// The tally after one more line: a blank line (after trimming) is skipped.
pub open spec fn tally_line(t: JsonlTally, data: Seq<char>) -> JsonlTally {
    let line = trim(data);
    if line.len() == 0 {
        t
    } else {
        match json_shape_of(line) {
            JsonShapeModel::Object(ks) => JsonlTally {
                rows: t.rows + 1,
                valid: t.valid + 1,
                invalid: t.invalid,
                keys: t.keys + ks.to_set(),
            },
            JsonShapeModel::Other => JsonlTally {
                rows: t.rows + 1,
                valid: t.valid + 1,
                invalid: t.invalid,
                keys: t.keys,
            },
            JsonShapeModel::Invalid => JsonlTally {
                rows: t.rows + 1,
                valid: t.valid,
                invalid: t.invalid + 1,
                keys: t.keys,
            },
        }
    }
}

/// The tally of the records `items`, or `None` where one of them cannot be read.
pub open spec fn jsonl_tally(items: Seq<Result<RecordModel, ReadError>>) -> Option<JsonlTally>
    decreases items.len(),
{
    if items.len() == 0 {
        Some(empty_tally())
    } else {
        match jsonl_tally(items.drop_last()) {
            None => None,
            Some(t) => match items.last() {
                Ok(r) => Some(tally_line(t, r.data)),
                Err(_) => None,
            },
        }
    }
}

proof fn lemma_tally_fails_on(items: Seq<Result<RecordModel, ReadError>>, k: int)
    requires
        0 <= k < items.len(),
        items[k] is Err,
    ensures
        jsonl_tally(items) is None,
    decreases items.len(),
{
    if k < items.len() - 1 {
        assert(items.drop_last()[k] == items[k]);
        lemma_tally_fails_on(items.drop_last(), k);
    }
}

proof fn lemma_tally_counts(items: Seq<Result<RecordModel, ReadError>>)
    ensures
        jsonl_tally(items) matches Some(t) ==> t.rows <= items.len() && t.valid <= t.rows
            && t.invalid <= t.rows,
    decreases items.len(),
{
    if items.len() > 0 {
        lemma_tally_counts(items.drop_last());
    }
}

/// The strictly sorted sequence that holds the items of `s`.
pub open spec fn sorted_items(s: Set<Seq<char>>) -> Seq<Seq<char>> {
    choose|v: Seq<Seq<char>>| strictly_sorted(v) && v.to_set() == s
}

proof fn lemma_sorted_unique(a: Seq<Seq<char>>, b: Seq<Seq<char>>)
    requires
        strictly_sorted(a),
        strictly_sorted(b),
        a.to_set() == b.to_set(),
    ensures
        a == b,
    decreases a.len(),
{
    if a.len() == 0 {
        if b.len() > 0 {
            assert(b.to_set().contains(b[0]));
        }
        assert(b =~= a);
    } else {
        assert(a.to_set().contains(a[0]));
        assert(b.len() > 0);
        assert(b.to_set().contains(a[0]));
        assert(a.to_set().contains(b[0]));
        let j = choose|j: int| 0 <= j < b.len() && b[j] == a[0];
        let k = choose|k: int| 0 <= k < a.len() && a[k] == b[0];
        if j > 0 {
            assert(lex_lt(b[0], b[j]));
            if k > 0 {
                assert(lex_lt(a[0], a[k]));
                lemma_lex_trichotomy(a[0], b[0]);
            } else {
                lemma_lex_irreflexive(b[0]);
            }
        }
        assert(a[0] == b[0]);
        let a1 = a.drop_first();
        let b1 = b.drop_first();
        assert(strictly_sorted(a1)) by {
            assert forall|x: int, y: int| 0 <= x < y < a1.len() implies lex_lt(
                #[trigger] a1[x],
                #[trigger] a1[y],
            ) by {
                assert(a1[x] == a[x + 1] && a1[y] == a[y + 1]);
            }
        }
        assert(strictly_sorted(b1)) by {
            assert forall|x: int, y: int| 0 <= x < y < b1.len() implies lex_lt(
                #[trigger] b1[x],
                #[trigger] b1[y],
            ) by {
                assert(b1[x] == b[x + 1] && b1[y] == b[y + 1]);
            }
        }
        assert(a1.to_set() =~= b1.to_set()) by {
            assert forall|x: Seq<char>| a1.to_set().contains(x) implies b1.to_set().contains(
                x,
            ) by {
                let p = choose|p: int| 0 <= p < a1.len() && a1[p] == x;
                assert(a[p + 1] == x);
                assert(lex_lt(a[0], x));
                assert(b.to_set().contains(x));
                let q = choose|q: int| 0 <= q < b.len() && b[q] == x;
                if q == 0 {
                    lemma_lex_irreflexive(x);
                }
                assert(b1[q - 1] == x);
            }
            assert forall|x: Seq<char>| b1.to_set().contains(x) implies a1.to_set().contains(
                x,
            ) by {
                let p = choose|p: int| 0 <= p < b1.len() && b1[p] == x;
                assert(b[p + 1] == x);
                assert(lex_lt(b[0], x));
                assert(a.to_set().contains(x));
                let q = choose|q: int| 0 <= q < a.len() && a[q] == x;
                if q == 0 {
                    lemma_lex_irreflexive(x);
                }
                assert(a1[q - 1] == x);
            }
        }
        lemma_sorted_unique(a1, b1);
        assert forall|i: int| 0 <= i < a.len() implies a[i] == b[i] by {
            if i > 0 {
                assert(a[i] == a1[i - 1]);
                assert(b[i] == b1[i - 1]);
            }
        }
        assert(a =~= b);
    }
}

pub open spec fn jsonl_word() -> Seq<char> {
    seq!['j', 's', 'o', 'n', 'l']
}

/// What the JSONL analyzer gives: per non-blank line, whether it is JSON, and the keys of the
/// JSON objects in sorted order; a line that is not UTF-8 fails the analysis.
pub open spec fn jsonl_analysis(probe: FileProbe, contents: Seq<u8>) -> Result<
    AnalysisModel,
    AnalyzeError,
> {
    match jsonl_tally(records_from(contents, 0, 0)) {
        None => Err(AnalyzeError::InvalidUtf8),
        Some(t) => Ok(
            AnalysisModel {
                format: jsonl_word(),
                path: probe.path@,
                size: probe.size,
                extension: raw_extension(probe.path@),
                metadata: seq![
                    encoding_entry(probe),
                    (seq!['v', 'a', 'l', 'i', 'd', '_', 'j', 's', 'o', 'n'], decimal(t.valid)),
                    (
                        seq!['i', 'n', 'v', 'a', 'l', 'i', 'd', '_', 'j', 's', 'o', 'n'],
                        decimal(t.invalid),
                    ),
                    (seq!['k', 'e', 'y', 's'], join(sorted_items(t.keys), seq![',', ' '])),
                ],
                lines: t.rows as u64,
                stat_size: probe.size,
                objects: t.valid as u64,
            },
        ),
    }
}

/// Analyzes JSON Lines files.
pub struct JsonlAnalyzer;

/// Adds the keys `ks` to the strictly sorted `keys`.
fn merge_keys(keys: &mut Vec<Vec<char>>, ks: &Vec<String>)
    requires
        strictly_sorted(char_vecs(old(keys)@)),
    ensures
        strictly_sorted(char_vecs(final(keys)@)),
        char_vecs(final(keys)@).to_set() == char_vecs(old(keys)@).to_set() + string_views(
            ks@,
        ).to_set(),
{
    let ghost start = char_vecs(keys@).to_set();
    let mut j: usize = 0;
    assert(string_views(ks@).take(0).to_set() =~= Set::<Seq<char>>::empty());
    assert(start + Set::<Seq<char>>::empty() =~= start);
    while j < ks.len()
        invariant
            j <= ks@.len(),
            strictly_sorted(char_vecs(keys@)),
            char_vecs(keys@).to_set() == start + string_views(ks@).take(j as int).to_set(),
        decreases ks@.len() - j,
    {
        let k = chars_of(ks[j].as_str());
        let ghost before = char_vecs(keys@).to_set();
        insert_sorted(keys, k);
        proof {
            let sv = string_views(ks@);
            assert(sv.take(j + 1) =~= sv.take(j as int).push(sv[j as int]));
            assert(sv.take(j + 1).to_set() =~= sv.take(j as int).to_set().insert(sv[j as int])) by {
                let a = sv.take(j + 1);
                let b = sv.take(j as int);
                assert forall|x: Seq<char>| a.to_set().contains(x) <==> b.to_set().insert(
                    sv[j as int],
                ).contains(x) by {
                    if a.to_set().contains(x) {
                        let w = choose|w: int| 0 <= w < a.len() && a[w] == x;
                        if w < j {
                            assert(b[w] == x);
                        }
                    }
                    if b.to_set().contains(x) {
                        let w = choose|w: int| 0 <= w < b.len() && b[w] == x;
                        assert(a[w] == x);
                    }
                    if x == sv[j as int] {
                        assert(a[j as int] == x);
                    }
                }
            }
            assert(char_vecs(keys@).to_set() =~= start + sv.take(j + 1).to_set());
        }
        j = j + 1;
    }
    assert(string_views(ks@).take(ks@.len() as int) =~= string_views(ks@));
}

impl Analyzer for JsonlAnalyzer {
    open spec fn accepts(&self, probe: FileProbe) -> bool {
        has_extension(probe, jsonl_word()) || has_extension(
            probe,
            seq!['n', 'd', 'j', 's', 'o', 'n'],
        )
    }

    open spec fn analysis(&self, probe: FileProbe, contents: Seq<u8>) -> Result<
        AnalysisModel,
        AnalyzeError,
    > {
        jsonl_analysis(probe, contents)
    }

    open spec fn label(&self) -> Seq<char> {
        seq!['J', 'S', 'O', 'N', 'L']
    }

    fn name(&self) -> (n: &'static str) {
        proof {
            reveal_strlit("JSONL");
        }
        "JSONL"
    }

    /// Accepts files whose extension is `jsonl` or `ndjson`.
    fn can_open(&self, probe: &FileProbe) -> (b: bool) {
        let a = vec!['j', 's', 'o', 'n', 'l'];
        let b = vec!['n', 'd', 'j', 's', 'o', 'n'];
        extension_is(probe, a.as_slice()) || extension_is(probe, b.as_slice())
    }

    /// Reads the lines, skips blank ones, and counts the JSON and non-JSON lines and the keys
    /// of the JSON objects.
    fn analyze(&self, probe: &FileProbe, contents: &[u8]) -> (r: Result<
        AnalysisResult,
        AnalyzeError,
    >) {
        let mut reader = MemoryMapReader::new(contents);
        let ghost all = records_from(contents@, 0, 0);
        let len = contents.len();
        proof {
            lemma_records_len(contents@, 0, 0);
        }
        let mut rows: u64 = 0;
        let mut valid: u64 = 0;
        let mut invalid: u64 = 0;
        let mut keys: Vec<Vec<char>> = Vec::new();
        let ghost mut k: int = 0;
        let mut failed = false;
        assert(all.take(0) =~= Seq::<Result<RecordModel, ReadError>>::empty());
        assert(all.skip(0) == all);
        assert(char_vecs(keys@).to_set() =~= Set::<Seq<char>>::empty());
        loop
            invariant_except_break
                reader.upcoming() == all.skip(k),
                !failed,
            invariant
                all == records_from(contents@, 0, 0),
                len == contents@.len(),
                all.len() <= len,
                0 <= k <= all.len(),
                jsonl_tally(all.take(k)) matches Some(t) && t.rows == rows && t.valid == valid
                    && t.invalid == invalid && t.keys == char_vecs(keys@).to_set(),
                strictly_sorted(char_vecs(keys@)),
            ensures
                failed ==> 0 <= k < all.len() && all[k] is Err,
                !failed ==> k == all.len(),
                jsonl_tally(all.take(k)) matches Some(t) && t.rows == rows && t.valid == valid
                    && t.invalid == invalid && t.keys == char_vecs(keys@).to_set(),
                strictly_sorted(char_vecs(keys@)),
            decreases all.len() - k,
        {
            let ghost up = reader.upcoming();
            match reader.next_record() {
                Err(_) => {
                    assert(up.len() > 0 && up[0] is Err);
                    assert(all[k] == up[0]);
                    assert(k < all.len());
                    failed = true;
                    break ;
                },
                Ok(None) => {
                    assert(up.len() == 0);
                    assert(k == all.len());
                    break ;
                },
                Ok(Some(record)) => {
                    assert(all[k] == up[0]);
                    let ghost t0 = jsonl_tally(all.take(k))->Some_0;
                    proof {
                        assert(all.take(k + 1).drop_last() =~= all.take(k));
                        assert(all.take(k + 1).last() == all[k]);
                        lemma_tally_counts(all.take(k + 1));
                        assert(reader.upcoming() =~= all.skip(k + 1));
                    }
                    let cs = chars_of(record.data.as_str());
                    let line = trim_chars(cs.as_slice());
                    if line.len() > 0 {
                        let text = string_from_chars(line.as_slice());
                        rows = rows + 1;
                        match json_shape(text.as_str()) {
                            JsonShape::Object(ks) => {
                                valid = valid + 1;
                                merge_keys(&mut keys, &ks);
                            },
                            JsonShape::Other => {
                                valid = valid + 1;
                            },
                            JsonShape::Invalid => {
                                invalid = invalid + 1;
                            },
                        }
                    }
                    proof {
                        k = k + 1;
                    }
                },
            }
        }
        if failed {
            proof {
                lemma_tally_fails_on(all, k);
            }
            return Err(AnalyzeError::InvalidUtf8);
        }
        assert(all.take(k) =~= all);
        let ghost t = jsonl_tally(all)->Some_0;
        proof {
            lemma_sorted_unique(char_vecs(keys@), sorted_items(t.keys));
        }
        let mut metadata: Vec<(String, String)> = Vec::new();
        metadata.push(encoding_metadata(probe));
        let n1 = vec!['v', 'a', 'l', 'i', 'd', '_', 'j', 's', 'o', 'n'];
        metadata.push(entry(n1.as_slice(), decimal_string(valid)));
        let n2 = vec!['i', 'n', 'v', 'a', 'l', 'i', 'd', '_', 'j', 's', 'o', 'n'];
        metadata.push(entry(n2.as_slice(), decimal_string(invalid)));
        let sep = vec![',', ' '];
        let joined = join_chars(keys.as_slice(), sep.as_slice());
        let n3 = vec!['k', 'e', 'y', 's'];
        metadata.push(entry(n3.as_slice(), string_from_chars(joined.as_slice())));
        let format = vec!['j', 's', 'o', 'n', 'l'];
        let result = AnalysisResult {
            format: string_from_chars(format.as_slice()),
            file: file_info(probe),
            metadata,
            statistics: Statistics { lines: rows, size: probe.size, objects: valid },
        };
        proof {
            assert(metadata_model(result.metadata@) =~= jsonl_analysis(
                *probe,
                contents@,
            )->Ok_0.metadata);
        }
        Ok(result)
    }
}

/// The number of lines of `contents` as `BufRead::lines` yields them, or `None` where one is
/// not UTF-8.
pub open spec fn line_count(contents: Seq<u8>) -> Option<nat> {
    let items = records_from(contents, 0, 0);
    if forall|i: int| 0 <= i < items.len() ==> (#[trigger] items[i]) is Ok {
        Some(items.len())
    } else {
        None
    }
}

/// Counts the lines of `contents`; a line that is not UTF-8 is an error.
pub fn count_lines(contents: &[u8]) -> (r: Result<u64, AnalyzeError>)
    ensures
        match r {
            Ok(n) => line_count(contents@) == Some(n as nat),
            Err(e) => e == AnalyzeError::InvalidUtf8 && line_count(contents@) is None,
        },
{
    let mut reader = MemoryMapReader::new(contents);
    let ghost all = records_from(contents@, 0, 0);
    let len = contents.len();
    proof {
        lemma_records_len(contents@, 0, 0);
    }
    let mut count: u64 = 0;
    assert(all.skip(0) == all);
    loop
        invariant
            all == records_from(contents@, 0, 0),
            len == contents@.len(),
            all.len() <= len,
            0 <= count <= all.len(),
            reader.upcoming() == all.skip(count as int),
            forall|i: int| 0 <= i < count ==> (#[trigger] all[i]) is Ok,
        decreases all.len() - count,
    {
        let ghost up = reader.upcoming();
        match reader.next_record() {
            Err(_) => {
                assert(all[count as int] == up[0]);
                assert(records_from(contents@, 0, 0)[count as int] is Err);
                return Err(AnalyzeError::InvalidUtf8);
            },
            Ok(None) => {
                assert(up.len() == 0);
                assert(count == all.len());
                assert(forall|i: int|
                    0 <= i < records_from(contents@, 0, 0).len() ==> (#[trigger] records_from(
                        contents@,
                        0,
                        0,
                    )[i]) is Ok);
                return Ok(count);
            },
            Ok(Some(_)) => {
                assert(all[count as int] == up[0]);
                assert(reader.upcoming() =~= all.skip(count + 1));
                count = count + 1;
            },
        }
    }
}

/// Lines and size of a text file.
#[derive(Debug, Clone, Copy)]
pub struct TextInfo {
    pub lines: u64,
    pub bytes: u64,
}

/// Line count and size of the file whose bytes are `contents`, of `size` bytes on disk.
pub fn inspect_text(contents: &[u8], size: u64) -> (r: Result<TextInfo, AnalyzeError>)
    ensures
        match r {
            Ok(info) => line_count(contents@) == Some(info.lines as nat) && info.bytes == size,
            Err(e) => e == AnalyzeError::InvalidUtf8 && line_count(contents@) is None,
        },
{
    match count_lines(contents) {
        Ok(lines) => Ok(TextInfo { lines, bytes: size }),
        Err(e) => Err(e),
    }
}

/// Analyzes plain text and log files: it reports the format `text`, the file's size and its
/// number of lines, with no metadata and no objects; a line that is not UTF-8 fails the
/// analysis.
pub struct TextAnalyzer;

pub open spec fn text_word() -> Seq<char> {
    seq!['t', 'e', 'x', 't']
}

/// What the text analyzer gives: the number of lines.
pub open spec fn text_analysis(probe: FileProbe, contents: Seq<u8>) -> Result<
    AnalysisModel,
    AnalyzeError,
> {
    match line_count(contents) {
        None => Err(AnalyzeError::InvalidUtf8),
        Some(n) => Ok(
            AnalysisModel {
                format: text_word(),
                path: probe.path@,
                size: probe.size,
                extension: raw_extension(probe.path@),
                metadata: seq![],
                lines: n as u64,
                stat_size: probe.size,
                objects: 0,
            },
        ),
    }
}

impl TextAnalyzer {
    /// The extensions of the files that the analyzer accepts.
    pub fn extensions(&self) -> (r: &'static [&'static str])
        ensures
            r@.len() == 2,
            r@[0]@ == seq!['t', 'x', 't'],
            r@[1]@ == seq!['l', 'o', 'g'],
    {
        proof {
            reveal_strlit("txt");
            reveal_strlit("log");
        }
        &["txt", "log"]
    }
}

impl Analyzer for TextAnalyzer {
    open spec fn accepts(&self, probe: FileProbe) -> bool {
        has_extension(probe, seq!['t', 'x', 't']) || has_extension(probe, seq!['l', 'o', 'g'])
    }

    open spec fn analysis(&self, probe: FileProbe, contents: Seq<u8>) -> Result<
        AnalysisModel,
        AnalyzeError,
    > {
        text_analysis(probe, contents)
    }

    open spec fn label(&self) -> Seq<char> {
        seq!['T', 'e', 'x', 't']
    }

    fn name(&self) -> (n: &'static str) {
        proof {
            reveal_strlit("Text");
        }
        "Text"
    }

    /// Accepts files whose extension is `txt` or `log`.
    fn can_open(&self, probe: &FileProbe) -> (b: bool) {
        let a = vec!['t', 'x', 't'];
        let b = vec!['l', 'o', 'g'];
        extension_is(probe, a.as_slice()) || extension_is(probe, b.as_slice())
    }

    /// Counts the lines of the file, as `BufRead::lines` splits them; the result has the format
    /// `text`, no metadata and no objects.
    fn analyze(&self, probe: &FileProbe, contents: &[u8]) -> (r: Result<
        AnalysisResult,
        AnalyzeError,
    >) {
        let lines = match count_lines(contents) {
            Ok(n) => n,
            Err(e) => return Err(e),
        };
        let format = vec!['t', 'e', 'x', 't'];
        let result = AnalysisResult {
            format: string_from_chars(format.as_slice()),
            file: file_info(probe),
            metadata: Vec::new(),
            statistics: Statistics { lines, size: probe.size, objects: 0 },
        };
        assert(metadata_model(result.metadata@) =~= Seq::<(Seq<char>, Seq<char>)>::empty());
        Ok(result)
    }
}

/// The analyzers that the toolkit brings.
pub enum KnownAnalyzer {
    Csv(CsvAnalyzer),
    Jsonl(JsonlAnalyzer),
    Text(TextAnalyzer),
}

impl Analyzer for KnownAnalyzer {
    open spec fn accepts(&self, probe: FileProbe) -> bool {
        match self {
            KnownAnalyzer::Csv(a) => a.accepts(probe),
            KnownAnalyzer::Jsonl(a) => a.accepts(probe),
            KnownAnalyzer::Text(a) => a.accepts(probe),
        }
    }

    open spec fn analysis(&self, probe: FileProbe, contents: Seq<u8>) -> Result<
        AnalysisModel,
        AnalyzeError,
    > {
        match self {
            KnownAnalyzer::Csv(a) => a.analysis(probe, contents),
            KnownAnalyzer::Jsonl(a) => a.analysis(probe, contents),
            KnownAnalyzer::Text(a) => a.analysis(probe, contents),
        }
    }

    open spec fn label(&self) -> Seq<char> {
        match self {
            KnownAnalyzer::Csv(a) => a.label(),
            KnownAnalyzer::Jsonl(a) => a.label(),
            KnownAnalyzer::Text(a) => a.label(),
        }
    }

    fn name(&self) -> (n: &'static str) {
        match self {
            KnownAnalyzer::Csv(a) => a.name(),
            KnownAnalyzer::Jsonl(a) => a.name(),
            KnownAnalyzer::Text(a) => a.name(),
        }
    }

    fn can_open(&self, probe: &FileProbe) -> (b: bool) {
        match self {
            KnownAnalyzer::Csv(a) => a.can_open(probe),
            KnownAnalyzer::Jsonl(a) => a.can_open(probe),
            KnownAnalyzer::Text(a) => a.can_open(probe),
        }
    }

    fn analyze(&self, probe: &FileProbe, contents: &[u8]) -> (r: Result<
        AnalysisResult,
        AnalyzeError,
    >) {
        match self {
            KnownAnalyzer::Csv(a) => a.analyze(probe, contents),
            KnownAnalyzer::Jsonl(a) => a.analyze(probe, contents),
            KnownAnalyzer::Text(a) => a.analyze(probe, contents),
        }
    }
}

} // verus!
