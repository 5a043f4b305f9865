use changelog_bot::types::ChangeLogList;

#[test]
fn test_key() {
    let change_log_list = ChangeLogList::new(42);
    assert!(change_log_list.log_of("19.5.501").is_none());
}

#[test]
fn test_add_log() {
    let mut change_log_list = ChangeLogList::new(42);
    change_log_list.add_log("19.5.501", "lop", "sphere");
    let log = change_log_list.log_of("19.5.501").unwrap();
    assert_eq!(
        log.entries(),
        &vec![("lop".to_owned(), vec!["sphere".to_owned()])]
    )
}

#[test]
fn add_log_keeps_repeats_in_order() {
    let mut list = ChangeLogList::new(7);
    list.add_log("19.5.501", "sop", "b");
    list.add_log("19.5.501", "sop", "a");
    list.add_log("19.5.501", "sop", "b");
    list.add_log("19.5.501", "dop", "c");
    assert_eq!(list.id(), 7);
    let log = list.log_of("19.5.501").unwrap();
    assert_eq!(
        log.entries(),
        &vec![
            ("dop".to_owned(), vec!["c".to_owned()]),
            (
                "sop".to_owned(),
                vec!["b".to_owned(), "a".to_owned(), "b".to_owned()]
            ),
        ]
    );
}

#[test]
fn last_log_is_greatest_build() {
    let mut list = ChangeLogList::new(1);
    list.add_log("19.5.510", "sop", "x");
    list.add_log("19.5.501", "sop", "y");
    list.add_log("20.0.100", "lop", "z");
    let (build, log) = list.last_log();
    assert_eq!(build, "20.0.100");
    assert_eq!(log.entries(), &vec![("lop".to_owned(), vec!["z".to_owned()])]);
}
