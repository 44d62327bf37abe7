use script_store::{
    after_plan, WriteStep, COLLISION_RETRIES,
    build_file_name, check_namespace, collect_files, file_names, generate_file_name,
    is_valid_identifier, latest, latest_info, list_versions, namespace_dir, parse_file_name,
    plan_write, same_payload, sentinel, stamp_from_unix, versions_to_prune, History, StoreError,
    VersionStamp, WriteOutcome, KEEP,
};

fn stamp(year: u32, month: u32, day: u32, hour: u32, minute: u32, second: u32) -> VersionStamp {
    VersionStamp { year, month, day, hour, minute, second }
}

fn at(second: u32) -> VersionStamp {
    stamp(2024, 3, 9, 12, 30, second)
}

#[test]
fn id_and_file_name_are_zero_padded() {
    let st = stamp(2023, 5, 7, 9, 3, 1);
    assert_eq!(st.id(), "2023-05-07-09-03-01");
    assert_eq!(st.file_name(), "2023-05-07-09-03-01.lua");
    assert_eq!(stamp(7, 10, 11, 0, 59, 0).id(), "0007-10-11-00-59-00");
}

#[test]
fn file_name_reads_back() {
    let st = stamp(2023, 12, 31, 23, 59, 58);
    assert_eq!(parse_file_name(&st.file_name()), Some(st));
}

#[test]
fn other_names_are_not_versions() {
    assert_eq!(parse_file_name("notes.txt"), None);
    assert_eq!(parse_file_name("2023-05-07-09-03-01.txt"), None);
    assert_eq!(parse_file_name("2023-5-07-09-03-01.lua"), None);
    assert_eq!(parse_file_name("2023-05-07-09-03-01"), None);
    assert_eq!(parse_file_name("2023-05-07-09-03-0x.lua"), None);
    assert_eq!(parse_file_name(""), None);
}

#[test]
fn order_follows_time() {
    assert!(at(1).is_before(&at(2)));
    assert!(!at(2).is_before(&at(2)));
    assert!(stamp(2023, 12, 31, 23, 59, 59).is_before(&stamp(2024, 1, 1, 0, 0, 0)));
    assert_eq!(at(4).order_key(), 20240309123004);
}

#[test]
fn unix_time_to_stamp() {
    assert_eq!(stamp_from_unix(0), Some(stamp(1970, 1, 1, 0, 0, 0)));
    assert_eq!(stamp_from_unix(1_700_000_000), Some(stamp(2023, 11, 14, 22, 13, 20)));
    assert_eq!(stamp_from_unix(-1), Some(stamp(1969, 12, 31, 23, 59, 59)));
    assert_eq!(stamp_from_unix(i64::MAX), None);
}

#[test]
fn index_filters_sorts_and_dedups() {
    let names = vec![
        "2024-03-09-12-30-05.lua".to_string(),
        "readme.md".to_string(),
        "2024-03-09-12-30-01.lua".to_string(),
        "2023-01-01-00-00-00.lua".to_string(),
        "2024-03-09-12-30-05.lua".to_string(),
    ];
    let v = list_versions(&names);
    assert_eq!(v, vec![stamp(2023, 1, 1, 0, 0, 0), at(1), at(5)]);
    assert_eq!(latest(&v), Some(at(5)));
    assert_eq!(latest(&Vec::new()), None);
    assert_eq!(
        collect_files(&names),
        vec![
            "2023-01-01-00-00-00.lua".to_string(),
            "2024-03-09-12-30-01.lua".to_string(),
            "2024-03-09-12-30-05.lua".to_string(),
        ]
    );
    assert_eq!(file_names(&vec![at(7)]), vec!["2024-03-09-12-30-07.lua".to_string()]);
}

#[test]
fn empty_directory_has_empty_index() {
    assert_eq!(list_versions(&Vec::new()), Vec::new());
    assert_eq!(collect_files(&vec!["x.lua".to_string()]), Vec::<String>::new());
}

#[test]
fn retention_drops_the_oldest() {
    let five = vec![at(1), at(2), at(3), at(4), at(5)];
    assert_eq!(versions_to_prune(&five, KEEP), vec![at(1), at(2)]);
    assert_eq!(versions_to_prune(&vec![at(1), at(2)], KEEP), Vec::new());
    assert_eq!(versions_to_prune(&vec![at(1), at(2), at(3)], KEEP), Vec::new());
    assert_eq!(versions_to_prune(&five, 0), five);
}

#[test]
fn payload_comparison() {
    assert!(same_payload(&b"print(1)".to_vec(), &b"print(1)".to_vec()));
    assert!(!same_payload(&b"print(1)".to_vec(), &b"print(2)".to_vec()));
    assert!(!same_payload(&b"print(1)".to_vec(), &b"print(1) ".to_vec()));
    assert!(same_payload(&Vec::new(), &Vec::new()));
}

#[test]
fn planning_a_write() {
    let a = b"a".to_vec();
    let b = b"b".to_vec();
    assert_eq!(plan_write(&Vec::new(), None, &a, at(1)), Ok(WriteOutcome::Created(at(1))));
    let one = vec![at(1)];
    assert_eq!(plan_write(&one, Some(&a), &a, at(2)), Ok(WriteOutcome::Deduplicated));
    assert_eq!(plan_write(&one, Some(&a), &b, at(2)), Ok(WriteOutcome::Created(at(2))));
    assert_eq!(plan_write(&one, Some(&a), &b, at(1)), Err(StoreError::Conflict));
    assert_eq!(plan_write(&one, Some(&a), &b, at(0)), Err(StoreError::Conflict));
}

#[test]
fn distinct_writes_keep_the_last_three() {
    let mut h = History::new();
    for i in 1..=5u32 {
        let payload = format!("print({})", i).into_bytes();
        assert_eq!(h.put(payload, at(i)), Ok(WriteOutcome::Created(at(i))));
        let expected: Vec<VersionStamp> = (i.saturating_sub(2).max(1)..=i).map(at).collect();
        assert_eq!(h.list_versions(), expected);
        assert_eq!(h.list_versions().len(), (i as usize).min(3));
    }
    assert_eq!(h.list_versions(), vec![at(3), at(4), at(5)]);
}

#[test]
fn same_payload_twice_is_deduplicated() {
    let mut h = History::new();
    assert_eq!(h.put(b"x".to_vec(), at(1)), Ok(WriteOutcome::Created(at(1))));
    assert_eq!(h.put(b"x".to_vec(), at(2)), Ok(WriteOutcome::Deduplicated));
    assert_eq!(h.list_versions(), vec![at(1)]);
    assert_eq!(h.put(b"y".to_vec(), at(3)), Ok(WriteOutcome::Created(at(3))));
    assert_eq!(h.put(b"y".to_vec(), at(3)), Ok(WriteOutcome::Deduplicated));
    assert_eq!(h.list_versions(), vec![at(1), at(3)]);
}

#[test]
fn same_second_write_is_a_conflict() {
    let mut h = History::new();
    assert_eq!(h.put(b"x".to_vec(), at(1)), Ok(WriteOutcome::Created(at(1))));
    assert_eq!(h.put(b"y".to_vec(), at(1)), Err(StoreError::Conflict));
    assert_eq!(h.list_versions(), vec![at(1)]);
    assert_eq!(h.put(b"y".to_vec(), at(2)), Ok(WriteOutcome::Created(at(2))));
}

#[test]
fn latest_content_of_empty_and_written() {
    let mut h = History::new();
    assert_eq!(h.latest_content(), Err(StoreError::NotFound));
    h.put(b"return 42".to_vec(), at(9)).unwrap();
    assert_eq!(h.latest_content(), Ok((at(9), b"return 42".to_vec())));
}

#[test]
fn latest_info_of_empty_and_written() {
    let mut h = History::new();
    assert_eq!(h.latest_info(), "1990-01-01-01-01-01");
    assert_eq!(sentinel().id(), "1990-01-01-01-01-01");
    h.put(b"return 1".to_vec(), stamp(2024, 1, 2, 3, 4, 5)).unwrap();
    assert_eq!(h.latest_info(), "2024-01-02-03-04-05");
    assert_eq!(latest_info(&vec![at(1), at(8)]), "2024-03-09-12-30-08");
    assert_eq!(latest_info(&Vec::new()), "1990-01-01-01-01-01");
}

#[test]
fn parent_directory_is_rejected() {
    assert_eq!(check_namespace("..", "e"), Err(StoreError::InvalidIdentifier));
    assert_eq!(check_namespace("g", ".."), Err(StoreError::InvalidIdentifier));
    assert_eq!(check_namespace("g/../x", "e"), Err(StoreError::InvalidIdentifier));
    assert_eq!(check_namespace("g", "a\\b"), Err(StoreError::InvalidIdentifier));
    assert_eq!(check_namespace("", "e"), Err(StoreError::InvalidIdentifier));
    assert_eq!(check_namespace(".", "e"), Err(StoreError::InvalidIdentifier));
    assert_eq!(check_namespace("games", "lobby"), Ok(()));
    assert!(is_valid_identifier("a..b"));
    assert!(is_valid_identifier("..."));
    assert!(!is_valid_identifier(".."));
    assert_eq!(namespace_dir("..", "e"), Err(StoreError::InvalidIdentifier));
    assert_eq!(build_file_name("g", "..", "x.lua"), Err(StoreError::InvalidIdentifier));
    assert_eq!(build_file_name("g", "e", ".."), Err(StoreError::InvalidIdentifier));
}

#[test]
fn paths_inside_the_storage_root() {
    assert_eq!(namespace_dir("games", "lobby"), Ok("./data_storage/games/lobby".to_string()));
    assert_eq!(
        build_file_name("games", "lobby", "2024-01-02-03-04-05.lua"),
        Ok("./data_storage/games/lobby/2024-01-02-03-04-05.lua".to_string())
    );
    assert_eq!(
        generate_file_name("g", "e", stamp(2023, 11, 14, 22, 13, 20)),
        Ok("./data_storage/g/e/2023-11-14-22-13-20.lua".to_string())
    );
    assert_eq!(
        generate_file_name("g", "..", at(1)),
        Err(StoreError::InvalidIdentifier)
    );
}

#[test]
fn string_order_is_time_order() {
    let stamps = vec![
        stamp(2024, 1, 1, 0, 0, 0),
        stamp(2023, 12, 31, 23, 59, 59),
        stamp(999, 9, 9, 9, 9, 9),
        stamp(2024, 1, 1, 0, 0, 1),
        stamp(2024, 1, 10, 0, 0, 0),
    ];
    let mut names: Vec<String> = stamps.iter().map(|s| s.file_name()).collect();
    names.sort();
    assert_eq!(names, collect_files(&names));
    assert_eq!(names[0], "0999-09-09-09-09-09.lua");
    assert_eq!(names[4], "2024-01-10-00-00-00.lua");
}

#[test]
fn conflicts_are_retried_a_bounded_number_of_times() {
    assert_eq!(COLLISION_RETRIES, 3);
    assert_eq!(after_plan(0, Err(StoreError::Conflict)), WriteStep::Retry);
    assert_eq!(after_plan(2, Err(StoreError::Conflict)), WriteStep::Retry);
    assert_eq!(after_plan(3, Err(StoreError::Conflict)), WriteStep::Fail(StoreError::Conflict));
    assert_eq!(after_plan(0, Err(StoreError::Storage)), WriteStep::Fail(StoreError::Storage));
    assert_eq!(
        after_plan(5, Ok(WriteOutcome::Created(at(1)))),
        WriteStep::Done(WriteOutcome::Created(at(1)))
    );
    assert_eq!(
        after_plan(0, Ok(WriteOutcome::Deduplicated)),
        WriteStep::Done(WriteOutcome::Deduplicated)
    );
}

#[test]
fn clock_outside_four_digit_years() {
    assert_eq!(stamp_from_unix(253_402_300_799), Some(stamp(9999, 12, 31, 23, 59, 59)));
    assert_eq!(stamp_from_unix(253_402_300_800), None);
    assert_eq!(stamp_from_unix(-62_167_219_200), Some(stamp(0, 1, 1, 0, 0, 0)));
    assert_eq!(stamp_from_unix(-62_167_219_201), None);
}
