use vnscope::variables::{dated_folder, timestamps_in_listing, Update, VariableError, Variables};

fn names(list: &[&str]) -> Vec<String> {
    list.iter().map(|s| s.to_string()).collect()
}

#[test]
fn series_keep_newest_first_up_to_their_size() {
    let mut vars: Variables<u32> = Variables::new(3, 10);
    vars.create("close").unwrap();
    for v in 1..=5u32 {
        let step = vars.update("default", "close", v).unwrap();
        assert_eq!(step, Update::Stored(std::cmp::min(v as usize, 3)));
    }
    assert_eq!(vars.len("close"), Ok(3));
    assert_eq!(vars.get_by_index("close", 0), Ok(5));
    assert_eq!(vars.get_by_index("close", 1), Ok(4));
    assert_eq!(vars.get_by_index("close", 2), Ok(3));
    assert_eq!(vars.last("close"), Ok(3));
    assert_eq!(vars.get_by_index("close", 3), Err(VariableError::OutOfBounds(3, "close".to_string())));
}

#[test]
fn a_zero_size_still_keeps_the_newest_value() {
    let mut vars: Variables<u32> = Variables::new(0, 10);
    vars.create("x").unwrap();
    assert_eq!(vars.update("s", "x", 7), Ok(Update::Stored(1)));
    assert_eq!(vars.update("s", "x", 8), Ok(Update::Stored(1)));
    assert_eq!(vars.get_by_index("x", 0), Ok(8));
}

#[test]
fn missing_and_duplicate_series_are_refused() {
    let mut vars: Variables<u32> = Variables::new(3, 10);
    vars.create("a").unwrap();
    assert_eq!(vars.create("a"), Err(VariableError::AlreadyExists("a".to_string())));
    assert_eq!(vars.update("s", "b", 1), Err(VariableError::NotFound("b".to_string())));
    assert_eq!(vars.len("b"), Err(VariableError::NotFound("b".to_string())));
    assert_eq!(vars.last("a"), Err(VariableError::Empty("a".to_string())));
    assert_eq!(vars.clear("b"), Err(VariableError::NotFound("b".to_string())));
}

#[test]
fn expressions_name_a_series_and_an_index() {
    let mut vars: Variables<u32> = Variables::new(5, 10);
    vars.create("close").unwrap();
    vars.update("s", "close", 10).unwrap();
    vars.update("s", "close", 20).unwrap();
    assert_eq!(vars.get_by_expr("close[0]"), Ok(20));
    assert_eq!(vars.get_by_expr("close[1]"), Ok(10));
    assert_eq!(vars.get_by_expr("close[1]]]"), Ok(10));
    assert_eq!(vars.get_by_expr("close[+1]"), Ok(10));
    assert_eq!(vars.get_by_expr("close[2]"), Err(VariableError::OutOfBounds(2, "close".to_string())));
    assert_eq!(vars.get_by_expr("close"), Err(VariableError::InvalidExpression("close".to_string())));
    assert_eq!(vars.get_by_expr("a[b[1]"), Err(VariableError::InvalidExpression("a[b[1]".to_string())));
    assert_eq!(vars.get_by_expr("close[x]"), Err(VariableError::InvalidIndex("x".to_string())));
    assert_eq!(vars.get_by_expr("close[]"), Err(VariableError::InvalidIndex("".to_string())));
    assert_eq!(vars.get_by_expr("open[0]"), Err(VariableError::NotFound("open".to_string())));
}

#[test]
fn clearing_empties_series() {
    let mut vars: Variables<u32> = Variables::new(5, 10);
    vars.create("a").unwrap();
    vars.create("b").unwrap();
    vars.update("s", "a", 1).unwrap();
    assert_eq!(vars.list(), names(&["a", "b"]));
    vars.clear("a").unwrap();
    assert_eq!(vars.len("a"), Ok(0));
    vars.clear_all();
    assert!(vars.list().is_empty());
    assert_eq!(vars.len("a"), Err(VariableError::NotFound("a".to_string())));
}

#[test]
fn full_buffers_are_written_out_before_the_next_value() {
    let mut vars: Variables<u32> = Variables::new(10, 2);
    vars.use_s3("bucket", "tcbs");
    vars.scope("prices", &names(&["open", "close"]));
    vars.create("open").unwrap();
    vars.create("close").unwrap();
    assert!(vars.has_storage());
    assert!(vars.has_buffered_column("prices"));
    assert_eq!(vars.update("prices", "open", 1), Ok(Update::Stored(1)));
    assert_eq!(vars.update("prices", "close", 2), Ok(Update::Stored(1)));
    assert_eq!(vars.update("prices", "open", 3), Ok(Update::Stored(2)));
    assert_eq!(vars.update("prices", "close", 4), Ok(Update::Stored(2)));
    // Both buffers hold two rows: the next value waits for a write.
    assert_eq!(vars.update("prices", "open", 5), Ok(Update::FlushFirst(3)));
    let batch = vars.flush_batch("prices");
    assert_eq!(batch, vec![("open".to_string(), vec![1, 3]), ("close".to_string(), vec![2, 4])]);
    vars.clean_after_flushing("prices");
    assert!(vars.flush_batch("prices").is_empty());
    vars.append_buffer("open", 5).unwrap();
    assert_eq!(vars.flush_batch("prices"), vec![("open".to_string(), vec![5])]);
    assert_eq!(vars.get_by_index("open", 0), Ok(5));
}

#[test]
fn a_lagging_column_is_reported() {
    let mut vars: Variables<u32> = Variables::new(10, 5);
    vars.use_s3("bucket", "vps");
    vars.create("a").unwrap();
    vars.create("b").unwrap();
    assert_eq!(vars.update("default", "a", 1), Ok(Update::Stored(1)));
    assert_eq!(vars.update("default", "a", 2), Ok(Update::Stored(2)));
    assert_eq!(vars.update("default", "a", 3), Err(VariableError::MissingValue("b".to_string())));
    // The series took the value all the same.
    assert_eq!(vars.len("a"), Ok(3));
}

#[test]
fn series_cannot_be_added_once_buffers_are_out_of_step() {
    let mut vars: Variables<u32> = Variables::new(10, 5);
    vars.create("a").unwrap();
    vars.use_s3("bucket", "vps");
    assert_eq!(vars.create("b"), Err(VariableError::CannotCreate("b".to_string())));
    assert_eq!(vars.append_buffer("a", 1), Err(VariableError::BufferNotFound("a".to_string())));
}

#[test]
fn written_files_are_named_and_listed_back() {
    let mut vars: Variables<u32> = Variables::new(10, 5);
    assert_eq!(vars.name_of_parquet("investing/2024-01-01", "default", 1), Err(VariableError::NameNotSet));
    vars.use_s3("bucket", "tcbs");
    let folder = dated_folder(1_704_067_200_123).unwrap();
    assert_eq!(folder, "investing/2024-01-01");
    let key = vars.name_of_parquet(&folder, "default", 1_704_067_200_123).unwrap();
    assert_eq!(key, "investing/2024-01-01/tcbs-default-1704067200123.parquet");
    let listing = Some(vec![
        Some(key.clone()),
        Some("tcbs-default-5.parquet".to_string()),
        Some("investing/2024-01-01/tcbs-other-7.parquet".to_string()),
        None,
        Some("investing/2024-01-02/tcbs-default-8".to_string()),
        Some("investing/x/tcbs-default-abc.parquet".to_string()),
    ]);
    assert_eq!(timestamps_in_listing(&listing, "default"), Ok(vec![1_704_067_200_123, 8]));
    assert_eq!(timestamps_in_listing(&listing, "nothing"), Err(VariableError::NoTimestamps("nothing".to_string())));
    assert_eq!(timestamps_in_listing(&None, "default"), Err(VariableError::FolderEmpty));
}

#[test]
fn times_before_the_epoch_round_toward_zero() {
    assert_eq!(dated_folder(-1_500).unwrap(), "investing/1969-12-31");
    assert_eq!(dated_folder(-999).unwrap(), "investing/1970-01-01");
}

#[test]
fn everything_is_written_through_the_default_scope_when_none_is_set() {
    let mut vars: Variables<u32> = Variables::new(10, 5);
    assert_eq!(vars.flush_scopes(), names(&["default"]));
    vars.scope("a", &names(&["x"]));
    vars.scope("b", &names(&["y"]));
    vars.scope("a", &names(&["z"]));
    assert_eq!(vars.flush_scopes(), names(&["a", "b"]));
}

#[test]
fn instants_within_the_calendar_have_a_folder() {
    assert!(dated_folder(8_000_000_000_000_000).is_some());
    assert!(dated_folder(-8_000_000_000_000_000).is_some());
    assert!(dated_folder(i64::MAX).is_none());
}
