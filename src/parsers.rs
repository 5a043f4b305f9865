//! Turning the rows of a changelog page into a snapshot.
use vstd::prelude::*;
use crate::log::{filled, ChangeLog};
use crate::text::{
    file_stem, file_stem_of, join_lines, join_words, joined, split_on, split_text, strip_prefix,
    trim, trimmed_of, views,
};

verus! {

/// What makes a row of the page unusable.
#[derive(PartialEq, Eq, Structural, Clone, Copy, Debug)]
pub enum ParseChangeLogError {
    /// The row names no build.
    Build,
    /// The row's icon names no category.
    Source,
    /// The row describes nothing.
    Description,
}

/// A row of the changelog table that carries a category icon, as read off
/// the page: the icon's source path, the text of each cell, and the text of
/// each paragraph or list item in its cells.
pub struct Row {
    pub source: Option<String>,
    pub cells: Vec<String>,
    pub paragraphs: Vec<String>,
}

/// The view of an optional string.
pub open spec fn opt_view(s: Option<String>) -> Option<Seq<char>> {
    match s {
        Some(t) => Some(t@),
        None => None,
    }
}

/// The category that an icon path names: the file stem after `icon_`.
pub open spec fn category_of(source: Option<Seq<char>>) -> Option<Seq<char>> {
    match source {
        None => None,
        Some(path) => match file_stem_of(path) {
            None => None,
            Some(stem) => if "icon_"@.is_prefix_of(stem) {
                Some(stem.subrange(5, stem.len() as int))
            } else {
                None
            },
        },
    }
}

/// The build that a row names: the text of its second cell.
pub open spec fn version_of(cells: Seq<Seq<char>>) -> Option<Seq<char>> {
    if cells.len() > 1 {
        Some(cells[1])
    } else {
        None
    }
}

/// A word is a non-empty piece between spaces.
pub open spec fn is_word(w: Seq<char>) -> bool {
    w.len() > 0
}

/// A paragraph with its white space at both ends trimmed and each run of
/// spaces inside it made one.
pub open spec fn paragraph_of(text: Seq<char>) -> Seq<char> {
    joined(split_on(trimmed_of(text), ' ').filter(|w: Seq<char>| is_word(w)), " "@)
}

/// The description of a row: its paragraphs, each normalised, one per line.
pub open spec fn description_of(paragraphs: Seq<Seq<char>>) -> Seq<char> {
    joined(paragraphs.map_values(|p: Seq<char>| paragraph_of(p)), "\n"@)
}

/// The build, category and description of a row, or why it has none.
pub open spec fn row_entry(row: Row) -> Result<
    (Seq<char>, Seq<char>, Seq<char>),
    ParseChangeLogError,
> {
    match category_of(opt_view(row.source)) {
        None => Err(ParseChangeLogError::Source),
        Some(category) => match version_of(views(row.cells@)) {
            None => Err(ParseChangeLogError::Build),
            Some(build) => {
                let description = description_of(views(row.paragraphs@));
                if description.len() == 0 {
                    Err(ParseChangeLogError::Description)
                } else {
                    Ok((build, category, description))
                }
            },
        },
    }
}

/// The snapshot that the rows give, filed in order, or the error of the
/// first row that has one.
pub open spec fn parsed(rows: Seq<Row>) -> Result<
    Map<Seq<char>, Map<Seq<char>, Set<Seq<char>>>>,
    ParseChangeLogError,
>
    decreases rows.len(),
{
    if rows.len() == 0 {
        Ok(Map::empty())
    } else {
        match parsed(rows.drop_last()) {
            Err(e) => Err(e),
            Ok(m) => match row_entry(rows.last()) {
                Err(e) => Err(e),
                Ok((b, c, d)) => Ok(filled(m, b, c, d)),
            },
        }
    }
}

/// Fills a snapshot from the rows of a changelog page.
pub fn parse_change_log(rows: &Vec<Row>) -> (r: Result<ChangeLog, ParseChangeLogError>)
    ensures
        match r {
            Ok(log) => log.wf() && parsed(rows@) == Ok::<
                Map<Seq<char>, Map<Seq<char>, Set<Seq<char>>>>,
                ParseChangeLogError,
            >(log@),
            Err(e) => parsed(rows@) == Err::<
                Map<Seq<char>, Map<Seq<char>, Set<Seq<char>>>>,
                ParseChangeLogError,
            >(e),
        },
{
    let mut logs = ChangeLog::new();
    let mut i: usize = 0;
    while i < rows.len()
        invariant
            i <= rows@.len(),
            logs.wf(),
            parsed(rows@.subrange(0, i as int)) == Ok::<
                Map<Seq<char>, Map<Seq<char>, Set<Seq<char>>>>,
                ParseChangeLogError,
            >(logs@),
        decreases rows@.len() - i,
    {
        let ghost done = rows@.subrange(0, i + 1);
        assert(done.drop_last() =~= rows@.subrange(0, i as int));
        let row = &rows[i];
        let category = match build_category(&row.source) {
            Ok(c) => c,
            Err(e) => {
                proof {
                    lemma_parsed_stops(rows@, i as int);
                    assert(rows@.subrange(0, rows@.len() as int) =~= rows@);
                }
                return Err(e);
            },
        };
        let version = match build_version(&row.cells) {
            Ok(v) => v,
            Err(e) => {
                proof {
                    lemma_parsed_stops(rows@, i as int);
                    assert(rows@.subrange(0, rows@.len() as int) =~= rows@);
                }
                return Err(e);
            },
        };
        let description = build_description(&row.paragraphs);
        if description.as_str().is_empty() {
            proof {
                lemma_parsed_stops(rows@, i as int);
                assert(rows@.subrange(0, rows@.len() as int) =~= rows@);
            }
            return Err(ParseChangeLogError::Description);
        }
        logs.fill(version.as_str(), category.as_str(), description.as_str());
        i = i + 1;
    }
    assert(rows@.subrange(0, i as int) =~= rows@);
    Ok(logs)
}

/// Once a row fails, so do the rows up to any later one.
proof fn lemma_parsed_stops(rows: Seq<Row>, i: int)
    requires
        0 <= i < rows.len(),
        parsed(rows.subrange(0, i)) is Ok,
        row_entry(rows[i]) is Err,
    ensures
        forall|n: int|
            i < n <= rows.len() ==> #[trigger] parsed(rows.subrange(0, n)) == Err::<
                Map<Seq<char>, Map<Seq<char>, Set<Seq<char>>>>,
                ParseChangeLogError,
            >(row_entry(rows[i])->Err_0),
{
    assert forall|n: int| i < n <= rows.len() implies #[trigger] parsed(rows.subrange(0, n))
        == Err::<Map<Seq<char>, Map<Seq<char>, Set<Seq<char>>>>, ParseChangeLogError>(
        row_entry(rows[i])->Err_0,
    ) by {
        lemma_parsed_stops_at(rows, i, n);
    }
}

proof fn lemma_parsed_stops_at(rows: Seq<Row>, i: int, n: int)
    requires
        0 <= i < n <= rows.len(),
        parsed(rows.subrange(0, i)) is Ok,
        row_entry(rows[i]) is Err,
    ensures
        parsed(rows.subrange(0, n)) == Err::<
            Map<Seq<char>, Map<Seq<char>, Set<Seq<char>>>>,
            ParseChangeLogError,
        >(row_entry(rows[i])->Err_0),
    decreases n - i,
{
    assert(rows.subrange(0, n).drop_last() =~= rows.subrange(0, n - 1));
    if n > i + 1 {
        lemma_parsed_stops_at(rows, i, n - 1);
    } else {
        assert(rows.subrange(0, n).last() == rows[i]);
    }
}

/// The category that a row's icon names.
pub fn build_category(source: &Option<String>) -> (r: Result<String, ParseChangeLogError>)
    ensures
        match category_of(opt_view(*source)) {
            Some(c) => r matches Ok(s) && s@ == c,
            None => r == Err::<String, ParseChangeLogError>(ParseChangeLogError::Source),
        },
{
    let path = match source {
        Some(p) => p,
        None => {
            return Err(ParseChangeLogError::Source);
        },
    };
    let stem = match file_stem(path.as_str()) {
        Some(s) => s,
        None => {
            return Err(ParseChangeLogError::Source);
        },
    };
    proof {
        reveal_strlit("icon_");
    }
    match strip_prefix(stem.as_str(), "icon_") {
        Some(rest) => Ok(rest),
        None => Err(ParseChangeLogError::Source),
    }
}

/// The build that a row names: the text of its second cell.
pub fn build_version(cells: &Vec<String>) -> (r: Result<String, ParseChangeLogError>)
    ensures
        match version_of(views(cells@)) {
            Some(v) => r matches Ok(s) && s@ == v,
            None => r == Err::<String, ParseChangeLogError>(ParseChangeLogError::Build),
        },
{
    if cells.len() > 1 {
        Ok(cells[1].clone())
    } else {
        Err(ParseChangeLogError::Build)
    }
}

/// A paragraph trimmed, with each run of spaces inside it made one.
pub fn build_paragraph(text: &str) -> (r: String)
    ensures
        r@ == paragraph_of(text@),
{
    let trimmed = trim(text);
    let pieces = split_text(trimmed.as_str(), ' ');
    let ghost ps = views(pieces@);
    let mut words: Vec<String> = Vec::new();
    let mut i: usize = 0;
    while i < pieces.len()
        invariant
            i <= pieces@.len(),
            ps == views(pieces@),
            views(words@) == ps.subrange(0, i as int).filter(|w: Seq<char>| is_word(w)),
        decreases pieces@.len() - i,
    {
        let ghost before = ps.subrange(0, i as int);
        assert(ps.subrange(0, i + 1) =~= before.push(ps[i as int]));
        proof {
            before.lemma_filter_push(ps[i as int], |w: Seq<char>| is_word(w));
        }
        if !pieces[i].as_str().is_empty() {
            let ghost kept = views(words@);
            words.push(pieces[i].clone());
            assert(views(words@) =~= kept.push(ps[i as int]));
        }
        i = i + 1;
    }
    assert(ps.subrange(0, i as int) =~= ps);
    join_words(&words, " ")
}

/// The description of a row: its paragraphs, each normalised, one per line.
pub fn build_description(paragraphs: &Vec<String>) -> (r: String)
    ensures
        r@ == description_of(views(paragraphs@)),
{
    let mut lines: Vec<String> = Vec::new();
    let mut i: usize = 0;
    while i < paragraphs.len()
        invariant
            i <= paragraphs@.len(),
            views(lines@) == views(paragraphs@).subrange(0, i as int).map_values(
                |p: Seq<char>| paragraph_of(p),
            ),
        decreases paragraphs@.len() - i,
    {
        let ghost before = views(lines@);
        lines.push(build_paragraph(paragraphs[i].as_str()));
        assert(views(lines@) =~= before.push(paragraph_of(views(paragraphs@)[i as int])));
        assert(views(lines@) =~= views(paragraphs@).subrange(0, i + 1).map_values(
            |p: Seq<char>| paragraph_of(p),
        ));
        i = i + 1;
    }
    assert(views(paragraphs@).subrange(0, i as int) =~= views(paragraphs@));
    join_lines(&lines, "\n")
}

} // verus!
