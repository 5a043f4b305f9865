use changelog_bot::bot::notification_text;
use changelog_bot::log::{ChangeLog, Info, UpdateError};

fn snapshot(entries: &[(&str, &str, &str)]) -> ChangeLog {
    let mut log = ChangeLog::new();
    for (build, category, description) in entries {
        log.fill(build, category, description);
    }
    log
}

fn records(log: &ChangeLog) -> Vec<(String, Vec<(String, Vec<String>)>)> {
    log.to_records()
}

fn record(build: &str, cats: &[(&str, &[&str])]) -> (String, Vec<(String, Vec<String>)>) {
    (
        build.to_owned(),
        cats.iter()
            .map(|(c, items)| (c.to_string(), items.iter().map(|s| s.to_string()).collect()))
            .collect(),
    )
}

fn info(entries: &[(&str, &str)]) -> Info {
    let mut info = Info::new();
    for (category, description) in entries {
        info.add(category, description);
    }
    info
}

#[test]
fn fill_twice_has_the_effect_of_once() {
    let once = snapshot(&[("19.5.501", "sop", "Fix bugs")]);
    let twice = snapshot(&[("19.5.501", "sop", "Fix bugs"), ("19.5.501", "sop", "Fix bugs")]);
    assert_eq!(records(&once), records(&twice));
    assert_eq!(records(&once), vec![record("19.5.501", &[("sop", &["Fix bugs"])])]);
}

#[test]
fn diff_of_a_set_with_itself_is_empty() {
    let a = info(&[("sop", "Fix bugs"), ("sop", "Fix crash"), ("dop", "Faster")]);
    let d = Info::diff(&a, &a);
    assert!(d.is_empty());
    assert!(d.categories().is_empty());
}

#[test]
fn diff_keeps_only_what_is_new() {
    let prev = info(&[("sop", "Fix bugs"), ("dop", "Faster")]);
    let next = info(&[("sop", "Fix bugs"), ("sop", "Fix crash"), ("dop", "Faster"), ("lop", "New")]);
    let d = Info::diff(&prev, &next);
    assert_eq!(d.categories(), vec!["lop".to_owned(), "sop".to_owned()]);
    assert_eq!(d.description_by("sop"), Some(&vec!["Fix crash".to_owned()]));
    assert_eq!(d.description_by("lop"), Some(&vec!["New".to_owned()]));
    assert_eq!(d.description_by("dop"), None);
}

#[test]
fn update_same_build_keeps_only_new_entries() {
    let prev = snapshot(&[("19.5.501", "sop", "Fix bugs")]);
    let mut next = snapshot(&[("19.5.501", "sop", "Fix bugs"), ("19.5.501", "sop", "Fix crash")]);
    assert_eq!(next.update(&prev), Ok(()));
    assert_eq!(records(&next), vec![record("19.5.501", &[("sop", &["Fix crash"])])]);
    let (build, delta) = next.last_record().unwrap();
    let post = notification_text(build, delta);
    assert!(post.contains("Fix crash"));
    assert!(!post.contains("Fix bugs"));
}

#[test]
fn update_new_build_keeps_everything() {
    let prev = snapshot(&[("19.5.501", "sop", "Fix bugs")]);
    let mut next = snapshot(&[("19.5.510", "sop", "New feature")]);
    assert_eq!(next.update(&prev), Ok(()));
    assert_eq!(records(&next), vec![record("19.5.510", &[("sop", &["New feature"])])]);
}

#[test]
fn update_new_build_does_not_subtract() {
    let prev = snapshot(&[("19.5.501", "sop", "Fix bugs")]);
    let mut next = snapshot(&[("19.5.510", "sop", "Fix bugs"), ("19.5.510", "dop", "Faster")]);
    assert_eq!(next.update(&prev), Ok(()));
    assert_eq!(
        records(&next),
        vec![record("19.5.510", &[("dop", &["Faster"]), ("sop", &["Fix bugs"])])]
    );
}

#[test]
fn update_keeps_only_latest_build() {
    let prev = snapshot(&[("19.5.501", "sop", "Fix bugs")]);
    let mut next = snapshot(&[("19.5.400", "sop", "Old"), ("19.5.501", "sop", "Fix bugs"), ("19.5.501", "pop", "Fix")]);
    assert_eq!(next.update(&prev), Ok(()));
    assert_eq!(records(&next), vec![record("19.5.501", &[("pop", &["Fix"])])]);
}

#[test]
fn update_down_to_nothing_leaves_an_empty_set() {
    let prev = snapshot(&[("19.5.501", "sop", "Fix bugs")]);
    let mut next = snapshot(&[("19.5.501", "sop", "Fix bugs")]);
    assert_eq!(next.update(&prev), Ok(()));
    let (build, delta) = next.last_record().unwrap();
    assert_eq!(build, "19.5.501");
    assert!(delta.is_empty());
    assert_eq!(delta.description_by("sop"), None);
    assert_eq!(records(&next), vec![record("19.5.501", &[])]);
}

#[test]
fn update_without_history_treats_all_as_new() {
    let prev = ChangeLog::new();
    let mut next = snapshot(&[("19.5.501", "sop", "Fix bugs"), ("19.5.501", "sop", "Fix crash")]);
    assert_eq!(next.update(&prev), Ok(()));
    assert_eq!(
        records(&next),
        vec![record("19.5.501", &[("sop", &["Fix bugs", "Fix crash"])])]
    );
}

#[test]
fn update_of_empty_snapshot_fails() {
    let prev = snapshot(&[("19.5.501", "sop", "Fix bugs")]);
    let mut next = ChangeLog::new();
    assert_eq!(next.update(&prev), Err(UpdateError::PreconditionViolation));
    assert!(next.last_record().is_none());
}

#[test]
fn records_round_trip() {
    let log = snapshot(&[
        ("19.5.510", "sop", "Fix crash"),
        ("19.5.501", "sop", "Fix bugs"),
        ("19.5.501", "dop", "Faster"),
        ("19.5.501", "sop", "Alpha"),
    ]);
    let stored = records(&log);
    assert_eq!(
        stored,
        vec![
            record("19.5.501", &[("dop", &["Faster"]), ("sop", &["Alpha", "Fix bugs"])]),
            record("19.5.510", &[("sop", &["Fix crash"])]),
        ]
    );
    let loaded = ChangeLog::from_records(&stored);
    assert_eq!(records(&loaded), stored);
}

#[test]
fn from_records_merges_repeats() {
    let doc = vec![
        record("19.5.501", &[("sop", &["b", "a", "b"]), ("lop", &[])]),
        record("19.5.501", &[("sop", &["c"])]),
    ];
    let log = ChangeLog::from_records(&doc);
    assert_eq!(
        records(&log),
        vec![record("19.5.501", &[("lop", &[]), ("sop", &["a", "b", "c"])])]
    );
}

#[test]
fn first_and_last_record() {
    let log = snapshot(&[("19.5.510", "sop", "x"), ("19.5.501", "sop", "y"), ("20.0.1", "lop", "z")]);
    assert_eq!(log.first_record().unwrap().0, "19.5.501");
    assert_eq!(log.last_record().unwrap().0, "20.0.1");
    assert!(ChangeLog::new().first_record().is_none());
}

#[test]
fn with_data_holds_one_build() {
    let log = ChangeLog::with_data("19.5.501", info(&[("sop", "Fix bugs")]));
    assert_eq!(records(&log), vec![record("19.5.501", &[("sop", &["Fix bugs"])])]);
}

#[test]
fn categories_come_in_key_order() {
    let i = info(&[("sop", "a"), ("dop", "b"), ("Lop", "c"), ("sop", "d")]);
    assert_eq!(i.categories(), vec!["Lop".to_owned(), "dop".to_owned(), "sop".to_owned()]);
    assert_eq!(i.description_by("sop"), Some(&vec!["a".to_owned(), "d".to_owned()]));
    assert_eq!(i.description_by("zzz"), None);
    assert!(!i.is_empty());
    assert!(Info::new().is_empty());
}

#[test]
fn render_formats_each_category() {
    let i = info(&[("sop", "Fix `foo bar` crash"), ("sop", "Line one\nLine two"), ("zzz", "Other")]);
    assert_eq!(
        i.render(),
        "\u{1f9e0}#<b>SOP</b>:\n- Fix <code>foo bar</code> crash\n\n- Line one\n\n- Line two\n\n#<b>ZZZ</b>:\n- Other\n\n"
    );
}

#[test]
fn render_is_the_same_on_each_call_and_fill_order() {
    let a = info(&[("sop", "Fix bugs"), ("lop", "New"), ("sop", "Fix crash")]);
    let b = info(&[("sop", "Fix crash"), ("sop", "Fix bugs"), ("lop", "New")]);
    assert_eq!(a.render(), a.render());
    assert_eq!(a.render(), b.render());
}

#[test]
fn render_of_empty_set_is_empty() {
    assert_eq!(Info::new().render(), "");
}

#[test]
fn notification_names_the_build() {
    let i = info(&[("lop", "New `usd` node")]);
    assert_eq!(
        notification_text("19.5.501", &i),
        "<b>Daily Build: 19.5.501</b>\n\n\u{1f4a1}#<b>LOP</b>:\n- New <code>usd</code> node\n\n"
    );
}
