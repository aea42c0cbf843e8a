use fileforge::engine::{
    JsonlEngine, JsonlSearchOptions, LineScan, RegexSearchEngine, RegexSearchOptions,
    SearchEngine, SearchOptions,
};
use fileforge::matcher::{
    field_matches, JsonFieldMatcher, KeywordFilter, LineMatcher, MatcherError, RegexMatcher,
};
use fileforge::json::{json_field, json_shape, JsonField, JsonShape};

#[test]
fn keyword_search_hits_and_offsets() {
    let options = SearchOptions {
        path: "app.log".to_string(),
        keywords: vec!["ERROR".to_string(), "FATAL".to_string()],
        limit: 0,
    };
    let mut scan = SearchEngine::start(&options).unwrap();
    assert!(scan.feed("INFO start").is_none());
    let hit = scan.feed("FATAL crash").unwrap();
    assert_eq!((hit.line, hit.offset, hit.text.as_str(), hit.file.as_str()), (2, 11, "FATAL crash", "app.log"));
    assert!(scan.feed("é").is_none());
    let hit = scan.feed("ERROR x").unwrap();
    assert_eq!((hit.line, hit.offset), (4, 26));
    let p = scan.progress(100);
    assert_eq!((p.read_bytes, p.total_bytes, p.matched), (34, 100, 2));
    assert!(!scan.is_done());
}

#[test]
fn keyword_search_limit() {
    let options = SearchOptions { path: "f".to_string(), keywords: vec!["x".to_string()], limit: 2 };
    let mut scan = SearchEngine::start(&options).unwrap();
    assert!(scan.feed("x1").is_some());
    assert!(!scan.is_done());
    assert!(scan.feed("x2").is_some());
    assert!(scan.is_done());
    assert_eq!(scan.matched(), 2);
    // the line that reached the limit is not counted in the offset
    assert_eq!(scan.progress(0).read_bytes, 3);
}

#[test]
fn keyword_engine_matches_any_keyword() {
    let e = fileforge::matcher::SearchEngine::new(&["foo".to_string(), "bar".to_string()]).unwrap();
    assert!(e.is_match("xx bar xx"));
    assert!(!e.is_match("xx baz xx"));
    let none = fileforge::matcher::SearchEngine::new(&[]).unwrap();
    assert!(!none.is_match("anything"));
}

#[test]
fn regex_search() {
    let options = RegexSearchOptions { path: "f".to_string(), pattern: "^E[A-Z]+ \\d+$".to_string(), limit: 0 };
    let mut scan = RegexSearchEngine::start(&options).unwrap();
    assert!(scan.feed("ERROR 42").is_some());
    assert!(scan.feed("ERROR x").is_none());
    let bad = RegexSearchOptions { path: "f".to_string(), pattern: "(".to_string(), limit: 0 };
    assert_eq!(RegexSearchEngine::start(&bad).err(), Some(MatcherError::Pattern));
    assert!(RegexMatcher::new("a+").unwrap().is_match("caat"));
}

#[test]
fn jsonl_search() {
    let options = JsonlSearchOptions {
        path: "f".to_string(),
        key: "level".to_string(),
        value: "error".to_string(),
        limit: 0,
    };
    let mut scan = JsonlEngine::start(&options);
    assert!(scan.feed("{\"level\":\"error\"}").is_some());
    assert!(scan.feed("{\"level\":\"info\"}").is_none());
    assert!(scan.feed("not json").is_none());
    let n = JsonFieldMatcher::new("code".to_string(), "42");
    assert!(n.is_match("{\"code\":42}"));
    let b = JsonFieldMatcher::new("ok".to_string(), "true");
    assert!(b.is_match("{\"ok\":true}"));
    assert!(!b.is_match("{\"ok\":\"yes\"}"));
    assert!(!b.is_match("[1,2]"));
}

#[test]
fn json_wrappers() {
    assert!(matches!(json_field("{\"a\":\"x\"}", "a"), JsonField::Text(ref s) if s == "x"));
    assert!(matches!(json_field("{\"a\":1.5}", "a"), JsonField::Number(ref s) if s == "1.5"));
    assert!(matches!(json_field("{\"a\":null}", "a"), JsonField::Other));
    assert!(matches!(json_field("{\"a\":1}", "b"), JsonField::Missing));
    assert!(matches!(json_field("{", "a"), JsonField::Invalid));
    assert!(matches!(json_shape("{\"k\":1}"), JsonShape::Object(ref ks) if ks == &vec!["k".to_string()]));
    assert!(matches!(json_shape("3"), JsonShape::Other));
    assert!(matches!(json_shape("{"), JsonShape::Invalid));
    assert!(field_matches(&JsonField::Bool(false), &['f', 'a', 'l', 's', 'e']));
}

#[test]
fn keyword_filter() {
    let f = KeywordFilter::new("WARN");
    assert!(f.is_match("a WARN b"));
    assert!(!f.is_match("a warn b"));
    let scan = LineScan::new(f, "p".to_string(), 1);
    assert_eq!(scan.matched(), 0);
}
