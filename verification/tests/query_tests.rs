use fileforge::parser::{ParseError, QueryParser};
use fileforge::query::{Expr, Query, QueryEngine, QueryScan};
use fileforge::storage::{MemoryMapReader, ReadError, Reader, Record};

fn keyword_of(q: &Query) -> Option<String> {
    match &q.expr {
        Expr::Contains(k) => Some(k.clone()),
        _ => None,
    }
}

#[test]
fn parse_contains_form() {
    let q = QueryParser::parse("contains(text,\"ERROR\")", 5).unwrap();
    assert_eq!(keyword_of(&q), Some("ERROR".to_string()));
    assert_eq!(q.limit, 5);
}

#[test]
fn parse_contains_form_with_spaces() {
    let q = QueryParser::parse("  contains( text , \"disk full\" )  ", 0).unwrap();
    assert_eq!(keyword_of(&q), Some("disk full".to_string()));
}

#[test]
fn parse_single_keyword() {
    let q = QueryParser::parse("ERROR", 10).unwrap();
    assert_eq!(keyword_of(&q), Some("ERROR".to_string()));
}

#[test]
fn parse_or_and_not() {
    let q = QueryParser::parse("ERROR OR WARN", 0).unwrap();
    assert!(q.expr.eval("an ERROR here"));
    assert!(q.expr.eval("a WARN here"));
    assert!(!q.expr.eval("all fine"));

    let q = QueryParser::parse("disk and full", 0).unwrap();
    assert!(q.expr.eval("disk is full"));
    assert!(!q.expr.eval("disk is empty"));

    let q = QueryParser::parse("not DEBUG", 0).unwrap();
    assert!(q.expr.eval("INFO start"));
    assert!(!q.expr.eval("DEBUG start"));
}

#[test]
fn parse_precedence() {
    // AND binds tighter than OR: a OR (b AND c)
    let q = QueryParser::parse("a OR b AND c", 0).unwrap();
    assert!(q.expr.eval("a"));
    assert!(!q.expr.eval("b"));
    assert!(q.expr.eval("bc"));
    match &q.expr {
        Expr::Or(_, right) => assert!(matches!(**right, Expr::And(_, _))),
        _ => panic!("expected OR at the top"),
    }
}

#[test]
fn parse_errors() {
    assert_eq!(QueryParser::parse("   ", 0).err(), Some(ParseError::EmptyQuery));
    assert_eq!(QueryParser::parse("a b", 0).err(), Some(ParseError::InvalidExpression));
    assert_eq!(QueryParser::parse("a OR b c", 0).err(), Some(ParseError::InvalidExpression));
    assert_eq!(QueryParser::parse("a OR", 0).err(), Some(ParseError::InvalidExpression));
    assert_eq!(QueryParser::parse("contains(text)", 0).err(), Some(ParseError::ContainsArity));
    assert_eq!(
        QueryParser::parse("contains(body,\"x\")", 0).err(),
        Some(ParseError::UnsupportedField)
    );
    assert_eq!(
        QueryParser::parse("contains(text,x)", 0).err(),
        Some(ParseError::UnquotedArgument)
    );
    assert_eq!(
        QueryParser::parse("a AND contains(text,\"x\"", 0).err(),
        Some(ParseError::InvalidContains)
    );
}

#[test]
fn parse_chains_of_or_and_and() {
    let q = QueryParser::parse("ERROR OR WARN OR FATAL", 0).unwrap();
    assert_eq!(q.limit, 0);
    for (t, want) in [("x ERROR", true), ("WARN", true), ("FATAL!", true), ("INFO", false)] {
        assert_eq!(q.expr.eval(t), want, "{}", t);
    }
    let q = QueryParser::parse("a AND b AND NOT c", 0).unwrap();
    assert!(q.expr.eval("ab"));
    assert!(!q.expr.eval("abc"));
    assert!(!q.expr.eval("a"));
    let q = QueryParser::parse("a AND b OR c AND d OR e", 0).unwrap();
    assert!(q.expr.eval("ab"));
    assert!(q.expr.eval("cd"));
    assert!(q.expr.eval("e"));
    assert!(!q.expr.eval("ac"));
}

#[test]
fn parse_contains_calls_joined_by_or() {
    let q = QueryParser::parse("contains(text,\"ERROR\") OR contains(text,\"WARN\")", 0).unwrap();
    match &q.expr {
        Expr::Or(a, b) => match (&**a, &**b) {
            (Expr::Contains(x), Expr::Contains(y)) => {
                assert_eq!((x.as_str(), y.as_str()), ("ERROR", "WARN"));
            }
            _ => panic!("expected two contains"),
        },
        _ => panic!("expected OR"),
    }
    // a parenthesis inside the quotes does not end the call
    let q = QueryParser::parse("contains(text, \"a) b\")", 0).unwrap();
    assert_eq!(keyword_of(&q), Some("a) b".to_string()));
}

#[test]
fn parse_comma_inside_quotes() {
    let q = QueryParser::parse("contains(text,\"a,b\")", 0).unwrap();
    assert_eq!(keyword_of(&q), Some("a,b".to_string()));
}

#[test]
fn eval_connectives() {
    let e = Expr::And(
        Box::new(Expr::Contains("x".to_string())),
        Box::new(Expr::Not(Box::new(Expr::Contains("y".to_string())))),
    );
    assert!(e.eval("xz"));
    assert!(!e.eval("xy"));
    assert!(!e.eval("z"));
    assert!(Expr::Contains(String::new()).eval(""));
    assert!(Expr::Contains("日本".to_string()).eval("こんにちは日本語"));
}

#[test]
fn query_new_and_from_expr() {
    let q = Query::new("ERROR".to_string(), 3);
    assert_eq!(keyword_of(&q), Some("ERROR".to_string()));
    assert_eq!(q.limit, 3);
    let q = Query::from_expr(Expr::Contains("a".to_string()), 7);
    assert_eq!(q.limit, 7);
}

#[test]
fn run_reports_matching_records_in_order() {
    let data = b"INFO a\nERROR b\r\nWARN c\nERROR d";
    let mut reader = MemoryMapReader::new(data);
    let q = QueryParser::parse("ERROR", 0).unwrap();
    let mut hits = Vec::new();
    assert_eq!(QueryEngine::run(&mut reader, q, &mut hits), Ok(2));
    assert_eq!(hits.len(), 2);
    assert_eq!(hits[0].line, 2);
    assert_eq!(hits[0].offset, 7);
    assert_eq!(hits[0].data, "ERROR b");
    assert_eq!(hits[1].line, 4);
    assert_eq!(hits[1].offset, 23);
    assert_eq!(hits[1].data, "ERROR d");
}

#[test]
fn run_stops_at_limit() {
    let data = b"x1\nx2\nx3\n";
    let mut reader = MemoryMapReader::new(data);
    let mut hits = Vec::new();
    assert_eq!(QueryEngine::run(&mut reader, Query::new("x".to_string(), 2), &mut hits), Ok(2));
    assert_eq!(hits.len(), 2);
    assert_eq!(hits[1].data, "x2");
    // the record after the limit stays unread
    let next = reader.next_record().unwrap().unwrap();
    assert_eq!(next.data, "x3");
}

#[test]
fn run_fails_on_invalid_utf8() {
    let data: &[u8] = &[b'a', b'\n', 0xff, b'\n', b'a'];
    let mut reader = MemoryMapReader::new(data);
    let mut hits = Vec::new();
    let r = QueryEngine::run(&mut reader, Query::new("a".to_string(), 0), &mut hits);
    assert_eq!(r, Err(ReadError::InvalidUtf8));
    // the record reported before the error is kept
    assert_eq!(hits.len(), 1);
    assert_eq!(hits[0].data, "a");
}

#[test]
fn run_limit_reached_before_bad_line() {
    let data: &[u8] = &[b'a', b'\n', 0xff, b'\n'];
    let mut reader = MemoryMapReader::new(data);
    let mut hits = Vec::new();
    assert_eq!(QueryEngine::run(&mut reader, Query::new("a".to_string(), 1), &mut hits), Ok(1));
    assert_eq!(hits.len(), 1);
}

#[test]
fn query_scan_limit_and_reporting() {
    let rec = |line: u64, text: &str| Record { line, offset: 0, data: text.to_string() };
    let mut scan = QueryScan::new(Query::new("ERROR".to_string(), 2));
    assert!(!scan.feed(&rec(1, "INFO")));
    assert!(scan.feed(&rec(2, "ERROR a")));
    assert!(!scan.is_done());
    assert!(scan.feed(&rec(3, "ERROR b")));
    assert!(scan.is_done());
    let mut unlimited = QueryScan::new(Query::new("x".to_string(), 0));
    for i in 0..5 {
        assert!(unlimited.feed(&rec(i, "x")));
    }
    assert!(!unlimited.is_done());
}

#[test]
fn query_reports_only_matching_records_within_limit() {
    let data = b"ERROR a\nINFO b\nWARN c\nERROR d\n";
    let mut reader = MemoryMapReader::new(data);
    let q = QueryParser::parse("ERROR OR WARN", 2).unwrap();
    let mut out = Vec::new();
    assert_eq!(QueryEngine::run(&mut reader, q, &mut out), Ok(2));
    let texts: Vec<&str> = out.iter().map(|r| r.data.as_str()).collect();
    assert_eq!(texts, vec!["ERROR a", "WARN c"]);
    assert_eq!((out[0].line, out[1].line, out[1].offset), (1, 3, 15));
}
