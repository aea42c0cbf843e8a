use fileforge::csv_rows::{CsvRows, CsvScan};
use fileforge::engine::keyword_list;
use fileforge::logs::{ExtractOptions, ExtractScan};

fn strings(v: &[&str]) -> Vec<String> {
    v.iter().map(|s| s.to_string()).collect()
}

#[test]
fn keyword_list_trims_and_drops_empty() {
    assert_eq!(keyword_list("ERROR,WARN,FATAL"), strings(&["ERROR", "WARN", "FATAL"]));
    assert_eq!(keyword_list(" ERROR , ,WARN,\t"), strings(&["ERROR", "WARN"]));
    assert_eq!(keyword_list(""), Vec::<String>::new());
    assert_eq!(keyword_list(",,"), Vec::<String>::new());
    assert_eq!(keyword_list("a b, c"), strings(&["a b", "c"]));
}

#[test]
fn csv_scan_finds_column_and_joins() {
    let headers = strings(&["id", "name", "city"]);
    assert!(CsvScan::new(&headers, &"zip".to_string(), "x", 10).is_none());
    let mut scan = CsvScan::new(&headers, &"city".to_string(), "ky", 10).unwrap();
    assert_eq!(scan.feed(&strings(&["1", "ann", "Tokyo"])), Some("1,ann,Tokyo".to_string()));
    assert_eq!(scan.feed(&strings(&["2", "bob", "Osaka"])), None);
    // a short record has an empty field in the column
    assert_eq!(scan.feed(&strings(&["3", "kyle"])), None);
    assert_eq!(scan.count(), 1);
    assert!(!scan.is_done());
}

#[test]
fn csv_scan_limit_zero_stops_after_first_hit() {
    let headers = strings(&["a"]);
    let mut scan = CsvScan::new(&headers, &"a".to_string(), "", 0).unwrap();
    assert_eq!(scan.feed(&strings(&["x", "y"])), Some("x,y".to_string()));
    assert!(scan.is_done());
}

#[test]
fn csv_scan_over_rows() {
    let data = b"name,city\nann,Tokyo\nbob,Kyoto\ncid,Osaka\n";
    let (mut rows, headers) = CsvRows::open(data).unwrap();
    let mut scan = CsvScan::new(&headers, &"city".to_string(), "o", 1).unwrap();
    let mut out = Vec::new();
    while let Some(fields) = rows.next_row().unwrap() {
        if let Some(line) = scan.feed(&fields) {
            out.push(line);
        }
        if scan.is_done() {
            break;
        }
    }
    assert_eq!(out, strings(&["ann,Tokyo"]));
}

#[test]
fn extract_scan_from_options() {
    let options = ExtractOptions {
        path: "in.log".to_string(),
        keyword: "ERROR".to_string(),
        output: "out.log".to_string(),
        limit: 1,
    };
    let mut scan = ExtractScan::from_options(&options);
    assert!(!scan.feed("INFO"));
    assert!(scan.feed("ERROR 1"));
    assert!(scan.is_done());
    assert_eq!(scan.count(), 1);
}

#[test]
fn csv_rows_pass_over_a_bad_record() {
    let data = b"a,b\n1,2\n3\n4,5\n";
    let (mut rows, headers) = CsvRows::open(data).unwrap();
    assert_eq!(headers, strings(&["a", "b"]));
    assert_eq!(rows.next_row().unwrap(), Some(strings(&["1", "2"])));
    assert!(rows.next_row().is_err());
    assert_eq!(rows.next_row().unwrap(), Some(strings(&["4", "5"])));
    assert_eq!(rows.next_row().unwrap(), None);
}

#[test]
fn first_cli_searches_stop_after_first_hit_with_zero_limit() {
    let mut k = fileforge::engine::keyword_scan("f".to_string(), "ERR".to_string(), 0).unwrap();
    assert!(k.feed("ok").is_none());
    assert!(k.feed("ERR 1").is_some());
    assert!(k.is_done());

    let mut r = fileforge::engine::regex_scan("f".to_string(), "^E.R$", 2).unwrap();
    assert!(r.feed("EXR").is_some());
    assert!(!r.is_done());
    assert!(r.feed("ER").is_none());
    assert!(r.feed("EZR").is_some());
    assert!(r.is_done());
    assert!(fileforge::engine::regex_scan("f".to_string(), "(", 1).is_err());

    let mut j = fileforge::engine::json_string_scan("f".to_string(), "n".to_string(), "1", 0);
    // a number equal in text is not a string
    assert!(j.feed("{\"n\":1}").is_none());
    assert!(j.feed("not json").is_none());
    assert!(j.feed("{\"n\":\"1\"}").is_some());
    assert!(j.is_done());
}
