use fileforge::paths::path_extension;

fn ext(p: &str) -> Option<String> {
    path_extension(p)
}

#[test]
fn extension_of_last_component() {
    assert_eq!(ext("data/sample.csv"), Some("csv".to_string()));
    assert_eq!(ext("x.tar.gz"), Some("gz".to_string()));
    assert_eq!(ext("a/b.TXT"), Some("TXT".to_string()));
    assert_eq!(ext("foo."), Some("".to_string()));
    assert_eq!(ext("a.csv/"), Some("csv".to_string()));
    assert_eq!(ext("a.csv/."), Some("csv".to_string()));
}

#[test]
fn no_extension() {
    assert_eq!(ext(".bashrc"), None);
    assert_eq!(ext("a.b/c"), None);
    assert_eq!(ext("plain"), None);
    assert_eq!(ext(""), None);
    assert_eq!(ext("/"), None);
    assert_eq!(ext("."), None);
    assert_eq!(ext("a.b/.."), None);
    assert_eq!(ext(".."), None);
}

#[test]
fn extension_agrees_with_std_on_unix_paths() {
    for p in ["a/b.c", "x.y.z", ".hidden", "dir/", "d.e/f", "q.", "./r.s", "t//u.v//", "..."] {
        let expected = std::path::Path::new(p).extension().and_then(|e| e.to_str()).map(|e| e.to_string());
        assert_eq!(ext(p), expected, "{}", p);
    }
}
