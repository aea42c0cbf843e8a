use fileforge::index::{
    entry_line, index_header, jump_line, jump_step, parse_entry, IndexBuilder, IndexError,
    IndexLookup, JumpStep,
};

#[test]
fn builder_writes_every_thousandth_line() {
    assert_eq!(index_header(), "FFIDX_V1");
    let mut b = IndexBuilder::new();
    let mut entries = Vec::new();
    for _ in 0..2500 {
        if let Some(e) = b.feed(10) {
            entries.push(e);
        }
    }
    assert_eq!(entries, vec!["1,0".to_string(), "1001,10000".to_string(), "2001,20000".to_string()]);
}

#[test]
fn entries_read_back() {
    assert_eq!(parse_entry(&entry_line(1001, 123456)), Ok(Some((1001, 123456))));
    assert_eq!(parse_entry(&entry_line(u64::MAX, 0)), Ok(Some((u64::MAX, 0))));
    assert_eq!(parse_entry("no comma"), Ok(None));
    assert_eq!(parse_entry("1,2,3"), Ok(None));
    assert_eq!(parse_entry("+7,8"), Ok(Some((7, 8))));
    assert_eq!(parse_entry("x,1"), Err(IndexError::BadNumber));
    assert_eq!(parse_entry("1,"), Err(IndexError::BadNumber));
    assert_eq!(parse_entry("18446744073709551616,0"), Err(IndexError::BadNumber));
}

#[test]
fn lookup_finds_nearest_entry() {
    let mut l = IndexLookup::new(2500);
    for line in ["1,0", "1001,9000", "2001,18000", "3001,27000", "4001,36000"] {
        if l.is_finished() {
            break;
        }
        l.feed(line).unwrap();
    }
    assert!(l.is_finished());
    assert_eq!(l.start(), (2001, 18000));
}

#[test]
fn jump_steps() {
    assert_eq!(jump_step(2001, 0, 2003, 2), JumpStep::Skip);
    assert_eq!(jump_step(2001, 2, 2003, 2), JumpStep::Show(2003));
    assert_eq!(jump_step(2001, 3, 2003, 2), JumpStep::Show(2004));
    assert_eq!(jump_step(2001, 4, 2003, 2), JumpStep::Stop);
    assert_eq!(jump_line(2003, "hello"), "2003: hello");
}

#[test]
fn index_round_trip_on_built_entries() {
    // 2500 lines of 5 bytes each
    let mut builder = IndexBuilder::new();
    let mut entries = Vec::new();
    for _ in 0..2500 {
        if let Some(e) = builder.feed(5) {
            entries.push(e);
        }
    }
    assert_eq!(entries, vec!["1,0".to_string(), "1001,5000".to_string(), "2001,10000".to_string()]);
    let mut lookup = IndexLookup::new(1500);
    for e in &entries {
        lookup.feed(e).unwrap();
        if lookup.is_finished() {
            break;
        }
    }
    assert_eq!(lookup.start(), (1001, 5000));
    assert_eq!(jump_step(1001, 498, 1500, 3), JumpStep::Skip);
    assert_eq!(jump_step(1001, 499, 1500, 3), JumpStep::Show(1500));
    assert_eq!(jump_step(1001, 502, 1500, 3), JumpStep::Stop);
}
