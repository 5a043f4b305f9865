//! Text operations over strings: the calls into std and outside crates that
//! the library relies on, with what each one is known to return, and the
//! verified pieces built on them.
use vstd::prelude::*;
use vstd::string::StringExecFns;

verus! {

/// The pieces of `s` between occurrences of `sep`, as `str::split` yields
/// them: one empty piece for an empty string, and an empty piece after a
/// trailing separator.
pub open spec fn split_on(s: Seq<char>, sep: char) -> Seq<Seq<char>>
    decreases s.len(),
{
    if s.len() == 0 {
        seq![Seq::<char>::empty()]
    } else if s.last() == sep {
        split_on(s.drop_last(), sep).push(Seq::<char>::empty())
    } else {
        let p = split_on(s.drop_last(), sep);
        p.update(p.len() - 1, p.last().push(s.last()))
    }
}

/// The pieces of `parts` with `sep` between each two.
pub open spec fn joined(parts: Seq<Seq<char>>, sep: Seq<char>) -> Seq<char>
    decreases parts.len(),
{
    if parts.len() == 0 {
        Seq::<char>::empty()
    } else if parts.len() == 1 {
        parts[0]
    } else {
        joined(parts.drop_last(), sep) + sep + parts.last()
    }
}

/// The character sequences of a list of strings.
pub open spec fn views(v: Seq<String>) -> Seq<Seq<char>> {
    v.map_values(|s: String| s@)
}

/// Relies on `str::split` with a `char` pattern: the pieces between the
/// occurrences of `sep`, in order.
#[verifier::external_body]
pub(crate) fn split_text(s: &str, sep: char) -> (r: Vec<String>)
    ensures
        views(r@) == split_on(s@, sep),
{
    s.split(sep).map(|p| p.to_string()).collect()
}

/// The upper-case form of a string, as `str::to_uppercase` gives it.
pub uninterp spec fn upper_of(s: Seq<char>) -> Seq<char>;

/// Relies on `str::to_uppercase`: the result depends on the characters alone.
#[verifier::external_body]
pub(crate) fn uppercase(s: &str) -> (r: String)
    ensures
        r@ == upper_of(s@),
{
    s.to_uppercase()
}

/// A string without its leading and trailing white space, as `str::trim`
/// gives it.
pub uninterp spec fn trimmed_of(s: Seq<char>) -> Seq<char>;

/// Relies on `str::trim`: the result depends on the characters alone.
#[verifier::external_body]
pub(crate) fn trim(s: &str) -> (r: String)
    ensures
        r@ == trimmed_of(s@),
{
    s.trim().to_string()
}

/// Relies on `str::strip_prefix`: the rest of `s` after `prefix`, where `s`
/// starts with it.
#[verifier::external_body]
pub(crate) fn strip_prefix(s: &str, prefix: &str) -> (r: Option<String>)
    ensures
        r is Some <==> prefix@.is_prefix_of(s@),
        r is Some ==> r->0@ == s@.subrange(prefix@.len() as int, s@.len() as int),
{
    s.strip_prefix(prefix).map(|rest| rest.to_string())
}

/// The stem of the last component of a path, as `Path::file_stem` gives it.
pub uninterp spec fn file_stem_of(path: Seq<char>) -> Option<Seq<char>>;

/// Relies on `Path::file_stem`: the file name without its extension, absent
/// where the path has no file name; the stem of a `str` path is valid UTF-8.
#[verifier::external_body]
pub(crate) fn file_stem(path: &str) -> (r: Option<String>)
    ensures
        r matches Some(stem) ==> file_stem_of(path@) == Some(stem@),
        r is None ==> file_stem_of(path@) is None,
{
    std::path::Path::new(path).file_stem().and_then(|s| s.to_str()).map(|s| s.to_string())
}

/// Relies on `itertools::Itertools::join`: the items with `sep` between each two.
#[verifier::external_body]
pub(crate) fn join_words(parts: &Vec<String>, sep: &str) -> (r: String)
    ensures
        r@ == joined(views(parts@), sep@),
{
    itertools::Itertools::join(&mut parts.iter(), sep)
}

/// Whether a regular expression compiles, as `regex::Regex::new` decides it.
pub uninterp spec fn regex_compiles(pattern: Seq<char>) -> bool;

/// `text` with every match of `pattern` replaced by `replacement`, whose
/// `$n` stand for the capture groups, as `regex::Regex::replace_all` gives it.
pub uninterp spec fn regex_replaced(
    pattern: Seq<char>,
    text: Seq<char>,
    replacement: Seq<char>,
) -> Seq<char>;

/// Relies on `regex::Regex::new` and `regex::Regex::replace_all`: the
/// pattern compiles or not by its text alone, and the replacement depends on
/// the three strings alone.
#[verifier::external_body]
pub(crate) fn replace_matches(pattern: &str, text: &str, replacement: &str) -> (r: Option<String>)
    ensures
        r is Some <==> regex_compiles(pattern@),
        r matches Some(s) ==> s@ == regex_replaced(pattern@, text@, replacement@),
{
    regex::Regex::new(pattern).ok().map(|re| re.replace_all(text, replacement).into_owned())
}

/// Joins strings with `sep` between each two.
pub fn join_lines(parts: &Vec<String>, sep: &str) -> (r: String)
    ensures
        r@ == joined(views(parts@), sep@),
{
    let mut r = String::new();
    let mut i: usize = 0;
    while i < parts.len()
        invariant
            i <= parts@.len(),
            r@ == joined(views(parts@).subrange(0, i as int), sep@),
        decreases parts@.len() - i,
    {
        let ghost before = views(parts@).subrange(0, i as int);
        let ghost after = views(parts@).subrange(0, i + 1);
        assert(after.drop_last() =~= before);
        if i > 0 {
            r.append(sep);
        }
        r.append(parts[i].as_str());
        if i == 0 {
            assert(r@ =~= joined(after, sep@));
        } else {
            assert(r@ =~= joined(after, sep@));
        }
        i = i + 1;
    }
    assert(views(parts@).subrange(0, i as int) =~= views(parts@));
    r
}

} // verus!
