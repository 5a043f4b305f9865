use changelog_bot::parsers::{
    build_category, build_description, build_paragraph, build_version, parse_change_log,
    ParseChangeLogError, Row,
};

fn row(source: Option<&str>, cells: &[&str], paragraphs: &[&str]) -> Row {
    Row {
        source: source.map(|s| s.to_owned()),
        cells: cells.iter().map(|s| s.to_string()).collect(),
        paragraphs: paragraphs.iter().map(|s| s.to_string()).collect(),
    }
}

#[test]
fn category_comes_from_icon_name() {
    assert_eq!(build_category(&Some("/images/icon_sop.png".to_owned())), Ok("sop".to_owned()));
    assert_eq!(build_category(&Some("icon_lop.svg".to_owned())), Ok("lop".to_owned()));
    assert_eq!(build_category(&None), Err(ParseChangeLogError::Source));
    assert_eq!(build_category(&Some("/images/logo.png".to_owned())), Err(ParseChangeLogError::Source));
    assert_eq!(build_category(&Some("/images/".to_owned())), Err(ParseChangeLogError::Source));
}

#[test]
fn version_is_second_cell() {
    assert_eq!(build_version(&vec!["a".to_owned(), "19.5.501".to_owned()]), Ok("19.5.501".to_owned()));
    assert_eq!(build_version(&vec!["a".to_owned()]), Err(ParseChangeLogError::Build));
}

#[test]
fn paragraph_is_trimmed_and_spaced() {
    assert_eq!(build_paragraph("  Fix   the\tbug  "), "Fix the\tbug");
    assert_eq!(build_paragraph("   "), "");
}

#[test]
fn description_joins_paragraphs_by_line() {
    let paragraphs = vec![" Fixed  a crash ".to_owned(), "When  saving".to_owned()];
    assert_eq!(build_description(&paragraphs), "Fixed a crash\nWhen saving");
    assert_eq!(build_description(&Vec::new()), "");
}

#[test]
fn rows_fill_a_snapshot() {
    let rows = vec![
        row(Some("/i/icon_sop.png"), &["x", "19.5.501"], &["Fix  bugs"]),
        row(Some("/i/icon_sop.png"), &["x", "19.5.501"], &["Fix crash"]),
        row(Some("/i/icon_dop.png"), &["x", "19.5.510"], &["Faster"]),
    ];
    let log = parse_change_log(&rows).unwrap();
    assert_eq!(
        log.to_records(),
        vec![
            ("19.5.501".to_owned(), vec![("sop".to_owned(), vec!["Fix bugs".to_owned(), "Fix crash".to_owned()])]),
            ("19.5.510".to_owned(), vec![("dop".to_owned(), vec!["Faster".to_owned()])]),
        ]
    );
}

#[test]
fn rows_fail_on_first_bad_row() {
    let good = row(Some("/i/icon_sop.png"), &["x", "19.5.501"], &["Fix"]);
    let no_source = row(None, &["x", "19.5.501"], &["Fix"]);
    let no_build = row(Some("/i/icon_sop.png"), &["x"], &["Fix"]);
    let no_text = row(Some("/i/icon_sop.png"), &["x", "19.5.501"], &["   "]);
    assert_eq!(parse_change_log(&vec![good, no_source]).err(), Some(ParseChangeLogError::Source));
    let no_build_first = row(None, &["x"], &["Fix"]);
    assert_eq!(parse_change_log(&vec![no_build]).err(), Some(ParseChangeLogError::Build));
    assert_eq!(parse_change_log(&vec![no_build_first]).err(), Some(ParseChangeLogError::Source));
    assert_eq!(parse_change_log(&vec![no_text]).err(), Some(ParseChangeLogError::Description));
    assert!(parse_change_log(&Vec::new()).unwrap().last_record().is_none());
}
