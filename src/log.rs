//! Category sets and the changelog snapshot that keys them by build.
use vstd::prelude::*;
use crate::assoc::{
    assoc, keys_of, lemma_assoc_at, lemma_assoc_empty, lemma_assoc_insert, lemma_assoc_push,
    lemma_assoc_update, lemma_insert_to_set, locate, locate_str, strs,
};
use crate::icons::{category_icon, icon_of};
use crate::order::{
    lemma_is_sorted_form, lemma_sorted_insert, lemma_sorted_no_duplicates, sorted_form, str_lt,
    strictly_sorted,
};
use crate::text::{
    regex_compiles, regex_replaced, replace_matches, split_on, split_text,
    upper_of, uppercase, views,
};
use vstd::string::StringExecFns;

verus! {

/// The descriptions of each category, as sets.
pub open spec fn item_sets(e: Seq<(String, Vec<String>)>) -> Seq<Set<Seq<char>>> {
    e.map_values(|p: (String, Vec<String>)| strs(p.1@).to_set())
}

/// A category set after `description` is added under `category`.
pub open spec fn added(
    m: Map<Seq<char>, Set<Seq<char>>>,
    category: Seq<char>,
    description: Seq<char>,
) -> Map<Seq<char>, Set<Seq<char>>> {
    m.insert(
        category,
        if m.contains_key(category) {
            m[category].insert(description)
        } else {
            set![description]
        },
    )
}

/// What is new under `category` in `next` against `prev`.
pub open spec fn kept(
    prev: Map<Seq<char>, Set<Seq<char>>>,
    next: Map<Seq<char>, Set<Seq<char>>>,
    category: Seq<char>,
) -> Set<Seq<char>> {
    if prev.contains_key(category) {
        next[category].difference(prev[category])
    } else {
        next[category]
    }
}

/// The entries of `next` that `prev` does not hold, with the categories
/// that are left empty removed.
pub open spec fn diff_of(
    prev: Map<Seq<char>, Set<Seq<char>>>,
    next: Map<Seq<char>, Set<Seq<char>>>,
) -> Map<Seq<char>, Set<Seq<char>>> {
    Map::new(
        |c: Seq<char>| next.contains_key(c) && kept(prev, next, c) != Set::<Seq<char>>::empty(),
        |c: Seq<char>| kept(prev, next, c),
    )
}

/// `next` without its empty categories.
pub open spec fn pruned(next: Map<Seq<char>, Set<Seq<char>>>) -> Map<Seq<char>, Set<Seq<char>>> {
    diff_of(Map::empty(), next)
}

/// The pattern of an inline code span: a back-tick, words and spaces, a back-tick.
pub open spec fn code_span_pattern() -> Seq<char> {
    "`(\\w+(\\w+|[ ])*)`"@
}

/// What a code span becomes: its text between code tags.
pub open spec fn code_span_replacement() -> Seq<char> {
    "<code>$1</code>"@
}

/// A line of a description with its code spans marked.
pub open spec fn marked(line: Seq<char>) -> Seq<char> {
    if regex_compiles(code_span_pattern()) {
        regex_replaced(code_span_pattern(), line, code_span_replacement())
    } else {
        line
    }
}

/// One bullet for each line.
pub open spec fn render_lines(lines: Seq<Seq<char>>) -> Seq<char>
    decreases lines.len(),
{
    if lines.len() == 0 {
        Seq::<char>::empty()
    } else {
        render_lines(lines.drop_last()) + "- "@ + marked(lines.last()) + "\n\n"@
    }
}

/// The bullets of each description, a description split at its line breaks.
pub open spec fn render_items(items: Seq<Seq<char>>) -> Seq<char>
    decreases items.len(),
{
    if items.len() == 0 {
        Seq::<char>::empty()
    } else {
        render_items(items.drop_last()) + render_lines(split_on(items.last(), '\n'))
    }
}

/// The header line of a category: its icon and its upper-cased name in bold.
pub open spec fn header(name: Seq<char>) -> Seq<char> {
    icon_of(name) + "#<b>"@ + upper_of(name) + "</b>:\n"@
}

/// The report of the categories `names` of `m`, in that order.
pub open spec fn render_categories(
    names: Seq<Seq<char>>,
    m: Map<Seq<char>, Set<Seq<char>>>,
) -> Seq<char>
    decreases names.len(),
{
    if names.len() == 0 {
        Seq::<char>::empty()
    } else {
        render_categories(names.drop_last(), m) + header(names.last()) + render_items(
            sorted_form(m[names.last()]),
        )
    }
}

/// The report of a category set: its categories in key order, the
/// descriptions of each in order.
pub open spec fn rendered(m: Map<Seq<char>, Set<Seq<char>>>) -> Seq<char> {
    render_categories(sorted_form(m.dom()), m)
}

/// Marks the code spans of a line.
fn mark_code(line: &str) -> (r: String)
    ensures
        r@ == marked(line@),
{
    match replace_matches("`(\\w+(\\w+|[ ])*)`", line, "<code>$1</code>") {
        Some(t) => t,
        None => line.to_owned(),
    }
}

/// Appends the bullets of one description.
fn render_description(out: &mut String, description: &str)
    ensures
        final(out)@ == old(out)@ + render_lines(split_on(description@, '\n')),
{
    let lines = split_text(description, '\n');
    let ghost start = out@;
    let mut k: usize = 0;
    while k < lines.len()
        invariant
            k <= lines@.len(),
            views(lines@) == split_on(description@, '\n'),
            out@ == start + render_lines(views(lines@).subrange(0, k as int)),
        decreases lines@.len() - k,
    {
        let ghost done = views(lines@).subrange(0, k + 1);
        assert(done.drop_last() =~= views(lines@).subrange(0, k as int));
        out.append("- ");
        let m = mark_code(lines[k].as_str());
        out.append(m.as_str());
        out.append("\n\n");
        assert(out@ =~= start + render_lines(done));
        k = k + 1;
    }
    assert(views(lines@).subrange(0, k as int) =~= views(lines@));
}

/// Appends the bullets of a list of descriptions.
fn render_descriptions(out: &mut String, items: &Vec<String>)
    ensures
        final(out)@ == old(out)@ + render_items(strs(items@)),
{
    let ghost start = out@;
    let mut j: usize = 0;
    while j < items.len()
        invariant
            j <= items@.len(),
            out@ == start + render_items(strs(items@).subrange(0, j as int)),
        decreases items@.len() - j,
    {
        let ghost done = strs(items@).subrange(0, j + 1);
        assert(done.drop_last() =~= strs(items@).subrange(0, j as int));
        render_description(out, items[j].as_str());
        assert(out@ =~= start + render_items(done));
        j = j + 1;
    }
    assert(strs(items@).subrange(0, j as int) =~= strs(items@));
}

/// The categories of one build and the descriptions of the fixes under
/// each, kept in key order.
pub struct Info {
    category: Vec<(String, Vec<String>)>,
}

impl View for Info {
    type V = Map<Seq<char>, Set<Seq<char>>>;

    closed spec fn view(&self) -> Map<Seq<char>, Set<Seq<char>>> {
        assoc(keys_of(self.category@), item_sets(self.category@))
    }
}

/// Adds `s` to a strictly sorted list of strings, where it is not there yet.
fn insert_item(v: &mut Vec<String>, s: &str)
    requires
        strictly_sorted(strs(old(v)@)),
    ensures
        strictly_sorted(strs(final(v)@)),
        strs(final(v)@).to_set() == strs(old(v)@).to_set().insert(s@),
{
    match locate_str(v, s) {
        Ok(i) => {
            assert(strs(v@)[i as int] == s@);
            assert(strs(v@).to_set().insert(s@) =~= strs(v@).to_set());
        },
        Err(p) => {
            let ghost before = strs(v@);
            v.insert(p, s.to_owned());
            assert(strs(v@) =~= before.insert(p as int, s@));
            proof {
                lemma_sorted_insert(before, p as int, s@);
                lemma_insert_to_set(before, p as int, s@);
            }
        },
    }
}

/// The strings of `items` that `remove` does not hold, in the order of `items`.
fn retain_absent(items: &Vec<String>, remove: &Vec<String>) -> (r: Vec<String>)
    requires
        strictly_sorted(strs(items@)),
        strictly_sorted(strs(remove@)),
    ensures
        strictly_sorted(strs(r@)),
        strs(r@).to_set() == strs(items@).to_set().difference(strs(remove@).to_set()),
{
    let mut r: Vec<String> = Vec::new();
    let mut i: usize = 0;
    while i < items.len()
        invariant
            i <= items@.len(),
            strictly_sorted(strs(items@)),
            strictly_sorted(strs(remove@)),
            strictly_sorted(strs(r@)),
            forall|k: int, j: int|
                0 <= k < r@.len() && i <= j < items@.len() ==> str_lt(
                    #[trigger] strs(r@)[k],
                    #[trigger] strs(items@)[j],
                ),
            strs(r@).to_set() == strs(items@).subrange(0, i as int).to_set().difference(
                strs(remove@).to_set(),
            ),
        decreases items@.len() - i,
    {
        let ghost before = strs(r@);
        let ghost s = strs(items@);
        assert(s.subrange(0, i + 1) =~= s.subrange(0, i as int).push(s[i as int]));
        proof {
            s.subrange(0, i as int).lemma_push_to_set_commute(s[i as int]);
        }
        match locate_str(remove, items[i].as_str()) {
            Ok(j) => {
                assert(strs(remove@)[j as int] == s[i as int]);
                assert(strs(r@).to_set() =~= s.subrange(0, i + 1).to_set().difference(
                    strs(remove@).to_set(),
                ));
            },
            Err(_) => {
                r.push(items[i].clone());
                assert(strs(r@) =~= before.push(s[i as int]));
                proof {
                    before.lemma_push_to_set_commute(s[i as int]);
                }
                assert(strs(r@).to_set() =~= s.subrange(0, i + 1).to_set().difference(
                    strs(remove@).to_set(),
                ));
            },
        }
        i = i + 1;
    }
    assert(strs(items@).subrange(0, i as int) =~= strs(items@));
    r
}

impl Info {
    /// Well-formed: categories in strict key order, and the descriptions of
    /// each in strict order.
    pub closed spec fn wf(&self) -> bool {
        &&& strictly_sorted(keys_of(self.category@))
        &&& forall|i: int|
            0 <= i < self.category@.len() ==> strictly_sorted(strs(#[trigger] self.category@[i].1@))
    }

    /// An empty category set.
    pub fn new() -> (r: Self)
        ensures
            r.wf(),
            r@ == Map::<Seq<char>, Set<Seq<char>>>::empty(),
    {
        let r = Info { category: Vec::new() };
        proof {
            lemma_assoc_empty(keys_of(r.category@), item_sets(r.category@));
        }
        r
    }

    /// Adds `description` under `category`, creating the category if it is absent.
    pub fn add(&mut self, category: &str, description: &str)
        requires
            old(self).wf(),
        ensures
            final(self).wf(),
            final(self)@ == added(old(self)@, category@, description@),
    {
        let ghost e = self.category@;
        proof {
            lemma_sorted_no_duplicates(keys_of(e));
        }
        match locate(&self.category, category) {
            Ok(i) => {
                let (name, mut items) = self.category.remove(i);
                assert(strictly_sorted(strs(e[i as int].1@)));
                insert_item(&mut items, description);
                self.category.insert(i, (name, items));
                assert(self.category@ =~= e.update(i as int, (name, items)));
                assert(keys_of(self.category@) =~= keys_of(e));
                assert(item_sets(self.category@) =~= item_sets(e).update(
                    i as int,
                    strs(items@).to_set(),
                ));
                proof {
                    lemma_assoc_at(keys_of(e), item_sets(e), i as int);
                    lemma_assoc_update(keys_of(e), item_sets(e), i as int, strs(items@).to_set());
                }
            },
            Err(p) => {
                let mut items: Vec<String> = Vec::new();
                items.push(description.to_owned());
                let ghost one = strs(items@);
                assert(one =~= seq![description@]);
                assert(one.to_set() =~= set![description@]) by {
                    assert(one[0] == description@);
                }
                self.category.insert(p, (category.to_owned(), items));
                assert(keys_of(self.category@) =~= keys_of(e).insert(p as int, category@));
                assert(item_sets(self.category@) =~= item_sets(e).insert(
                    p as int,
                    set![description@],
                ));
                proof {
                    lemma_sorted_insert(keys_of(e), p as int, category@);
                    lemma_assoc_insert(
                        keys_of(e),
                        item_sets(e),
                        p as int,
                        category@,
                        set![description@],
                    );
                }
                assert forall|i: int| 0 <= i < self.category@.len() implies strictly_sorted(
                    strs(#[trigger] self.category@[i].1@),
                ) by {
                    if i < p {
                        assert(self.category@[i] == e[i]);
                    } else if i > p {
                        assert(self.category@[i] == e[i - 1]);
                    }
                }
            },
        }
    }

    /// The categories present, in key order.
    pub fn categories(&self) -> (r: Vec<String>)
        requires
            self.wf(),
        ensures
            strictly_sorted(strs(r@)),
            strs(r@).to_set() == self@.dom(),
    {
        let mut r: Vec<String> = Vec::new();
        let mut i: usize = 0;
        while i < self.category.len()
            invariant
                self.wf(),
                i <= self.category@.len(),
                strs(r@) == keys_of(self.category@).subrange(0, i as int),
            decreases self.category@.len() - i,
        {
            let ghost before = strs(r@);
            r.push(self.category[i].0.clone());
            assert(strs(r@) =~= before.push(self.category@[i as int].0@));
            assert(strs(r@) =~= keys_of(self.category@).subrange(0, i + 1));
            i = i + 1;
        }
        let ghost ks = keys_of(self.category@);
        assert(strs(r@) =~= ks);
        assert(strs(r@).to_set() =~= self@.dom());
        r
    }

    /// The descriptions under `category`, in order, if the category is present.
    pub fn description_by(&self, category: &str) -> (r: Option<&Vec<String>>)
        requires
            self.wf(),
        ensures
            r is Some <==> self@.contains_key(category@),
            r is Some ==> strictly_sorted(strs(r->0@)) && strs(r->0@).to_set()
                == self@[category@],
    {
        proof {
            lemma_sorted_no_duplicates(keys_of(self.category@));
        }
        match locate(&self.category, category) {
            Ok(i) => {
                proof {
                    lemma_assoc_at(keys_of(self.category@), item_sets(self.category@), i as int);
                }
                Some(&self.category[i].1)
            },
            Err(_) => None,
        }
    }

    /// True when no category is present.
    pub fn is_empty(&self) -> (r: bool)
        ensures
            r <==> self@.dom().is_empty(),
    {
        if self.category.len() == 0 {
            assert(self@.dom() =~= Set::<Seq<char>>::empty());
            true
        } else {
            assert(self@.dom().contains(keys_of(self.category@)[0]));
            false
        }
    }

    /// The report of this category set: for each category in key order, a
    /// header line with its icon and its upper-cased name in bold, then one
    /// bullet for each line of each of its descriptions, with inline code
    /// spans marked.
    pub fn render(&self) -> (r: String)
        requires
            self.wf(),
        ensures
            r@ == rendered(self@),
    {
        let ghost ks = keys_of(self.category@);
        let ghost m = self@;
        let mut r = String::new();
        let mut i: usize = 0;
        proof {
            lemma_sorted_no_duplicates(ks);
        }
        while i < self.category.len()
            invariant
                self.wf(),
                ks == keys_of(self.category@),
                ks.no_duplicates(),
                m == self@,
                i <= self.category@.len(),
                r@ == render_categories(ks.subrange(0, i as int), m),
            decreases self.category@.len() - i,
        {
            let ghost done = ks.subrange(0, i + 1);
            assert(done.drop_last() =~= ks.subrange(0, i as int));
            let name = &self.category[i].0;
            let items = &self.category[i].1;
            proof {
                lemma_assoc_at(ks, item_sets(self.category@), i as int);
                lemma_is_sorted_form(strs(items@));
            }
            r.append(category_icon(name.as_str()));
            r.append("#<b>");
            let upper = uppercase(name.as_str());
            r.append(upper.as_str());
            r.append("</b>:\n");
            render_descriptions(&mut r, items);
            assert(r@ =~= render_categories(done, m));
            i = i + 1;
        }
        proof {
            assert(ks.subrange(0, i as int) =~= ks);
            assert(ks.to_set() =~= m.dom());
            lemma_is_sorted_form(ks);
        }
        r
    }

    /// The entries of `next` that are not in `prev`: under a category that
    /// both hold, the descriptions that `prev` lacks; under one that only
    /// `next` holds, all of them. Categories left empty are dropped.
    pub fn diff(prev: &Info, next: &Info) -> (r: Info)
        requires
            prev.wf(),
            next.wf(),
        ensures
            r.wf(),
            r@ == diff_of(prev@, next@),
    {
        let ghost ks = keys_of(next.category@);
        let mut r = Info { category: Vec::new() };
        let mut i: usize = 0;
        proof {
            lemma_assoc_empty(keys_of(r.category@), item_sets(r.category@));
            lemma_sorted_no_duplicates(ks);
            lemma_sorted_no_duplicates(keys_of(prev.category@));
            assert(r@ =~= diff_of(prev@, next@).restrict(ks.subrange(0, 0).to_set()));
        }
        while i < next.category.len()
            invariant
                prev.wf(),
                next.wf(),
                r.wf(),
                ks == keys_of(next.category@),
                ks.no_duplicates(),
                keys_of(prev.category@).no_duplicates(),
                i <= next.category@.len(),
                forall|k: int, j: int|
                    0 <= k < r.category@.len() && i <= j < ks.len() ==> str_lt(
                        #[trigger] keys_of(r.category@)[k],
                        #[trigger] ks[j],
                    ),
                r@ == diff_of(prev@, next@).restrict(ks.subrange(0, i as int).to_set()),
            decreases next.category@.len() - i,
        {
            let ghost c = ks[i as int];
            let ghost before = r.category@;
            proof {
                lemma_assoc_at(ks, item_sets(next.category@), i as int);
                assert(ks.subrange(0, i + 1) =~= ks.subrange(0, i as int).push(c));
                ks.subrange(0, i as int).lemma_push_to_set_commute(c);
            }
            let name = &next.category[i].0;
            let items = &next.category[i].1;
            assert(strictly_sorted(strs(items@)));
            let fresh = match locate(&prev.category, name.as_str()) {
                Ok(j) => {
                    proof {
                        lemma_assoc_at(keys_of(prev.category@), item_sets(prev.category@), j as int);
                    }
                    assert(strictly_sorted(strs(prev.category@[j as int].1@)));
                    retain_absent(items, &prev.category[j].1)
                },
                Err(_) => {
                    assert(strs(items@).to_set().difference(Set::<Seq<char>>::empty())
                        =~= strs(items@).to_set());
                    retain_absent(items, &Vec::new())
                },
            };
            assert(strs(fresh@).to_set() == kept(prev@, next@, c));
            if fresh.len() > 0 {
                assert(strs(fresh@).to_set().contains(strs(fresh@)[0]));
                proof {
                    assert(!keys_of(before).contains(c)) by {
                        if keys_of(before).contains(c) {
                            let k = choose|k: int|
                                0 <= k < keys_of(before).len() && keys_of(before)[k] == c;
                            assert(str_lt(keys_of(before)[k], ks[i as int]));
                            crate::order::lemma_str_lt_asymmetric(c, c);
                        }
                    }
                    lemma_assoc_push(
                        keys_of(before),
                        item_sets(before),
                        c,
                        strs(fresh@).to_set(),
                    );
                }
                r.category.push((name.clone(), fresh));
                assert(keys_of(r.category@) =~= keys_of(before).push(c));
                assert(item_sets(r.category@) =~= item_sets(before).push(
                    strs(fresh@).to_set(),
                ));
                assert(r@ =~= diff_of(prev@, next@).restrict(ks.subrange(0, i + 1).to_set()));
                assert forall|k: int, j: int|
                    0 <= k < r.category@.len() && i + 1 <= j < ks.len() implies str_lt(
                    #[trigger] keys_of(r.category@)[k],
                    #[trigger] ks[j],
                ) by {
                    if k == r.category@.len() - 1 {
                        assert(keys_of(r.category@)[k] == ks[i as int]);
                    } else {
                        assert(keys_of(r.category@)[k] == keys_of(before)[k]);
                    }
                }
                assert forall|a: int, b: int|
                    0 <= a < b < keys_of(r.category@).len() implies str_lt(
                    #[trigger] keys_of(r.category@)[a],
                    #[trigger] keys_of(r.category@)[b],
                ) by {
                    assert(keys_of(r.category@)[a] == keys_of(before)[a]);
                    if b < r.category@.len() - 1 {
                        assert(keys_of(r.category@)[b] == keys_of(before)[b]);
                    }
                }
                assert forall|a: int| 0 <= a < r.category@.len() implies strictly_sorted(
                    strs(#[trigger] r.category@[a].1@),
                ) by {
                    if a < r.category@.len() - 1 {
                        assert(r.category@[a] == before[a]);
                    }
                }
            } else {
                assert(strs(fresh@).to_set() =~= Set::<Seq<char>>::empty()) by {
                    if strs(fresh@).to_set().len() > 0 {
                        let x = strs(fresh@).to_set().choose();
                        assert(strs(fresh@).to_set().contains(x));
                    }
                }
                assert(r@ =~= diff_of(prev@, next@).restrict(ks.subrange(0, i + 1).to_set()));
            }
            i = i + 1;
        }
        proof {
            assert(ks.subrange(0, i as int) =~= ks);
            assert forall|c: Seq<char>| diff_of(prev@, next@).contains_key(c) implies ks.to_set().contains(c) by {
                assert(next@.contains_key(c));
            }
            assert(r@ =~= diff_of(prev@, next@));
        }
        r
    }
}

/// The category sets of a list of keyed builds.
pub open spec fn info_views(e: Seq<(String, Info)>) -> Seq<Map<Seq<char>, Set<Seq<char>>>> {
    e.map_values(|p: (String, Info)| p.1@)
}

/// `k` is a key of `m`, and every other key comes before it.
pub open spec fn is_latest<X>(m: Map<Seq<char>, X>, k: Seq<char>) -> bool {
    m.contains_key(k) && forall|o: Seq<char>| m.contains_key(o) && o != k ==> str_lt(o, k)
}

/// `k` is a key of `m`, and every other key comes after it.
pub open spec fn is_earliest<X>(m: Map<Seq<char>, X>, k: Seq<char>) -> bool {
    m.contains_key(k) && forall|o: Seq<char>| m.contains_key(o) && o != k ==> str_lt(k, o)
}

/// The greatest key of a map.
pub open spec fn latest<X>(m: Map<Seq<char>, X>) -> Seq<char> {
    choose|k: Seq<char>| is_latest(m, k)
}

/// A snapshot after `description` is filed under `category` of `build`.
pub open spec fn filled(
    m: Map<Seq<char>, Map<Seq<char>, Set<Seq<char>>>>,
    build: Seq<char>,
    category: Seq<char>,
    description: Seq<char>,
) -> Map<Seq<char>, Map<Seq<char>, Set<Seq<char>>>> {
    m.insert(
        build,
        added(
            if m.contains_key(build) {
                m[build]
            } else {
                Map::empty()
            },
            category,
            description,
        ),
    )
}

/// What is new in the latest build of `next` against the snapshot `prev`:
/// against the latest build of `prev` when both name the same build, else
/// all of it; empty categories dropped either way.
pub open spec fn delta(
    prev: Map<Seq<char>, Map<Seq<char>, Set<Seq<char>>>>,
    next: Map<Seq<char>, Map<Seq<char>, Set<Seq<char>>>>,
) -> Map<Seq<char>, Set<Seq<char>>> {
    let nb = latest(next);
    if !prev.dom().is_empty() && latest(prev) == nb {
        diff_of(prev[nb], next[nb])
    } else {
        pruned(next[nb])
    }
}

pub proof fn lemma_latest_unique<X>(m: Map<Seq<char>, X>, k: Seq<char>)
    requires
        is_latest(m, k),
    ensures
        latest(m) == k,
{
    let l = latest(m);
    assert(is_latest(m, l));
    if l != k {
        assert(str_lt(l, k));
        assert(str_lt(k, l));
        crate::order::lemma_str_lt_asymmetric(l, k);
    }
}

/// Why a snapshot could not be brought up to date.
#[derive(PartialEq, Eq, Structural, Clone, Copy, Debug)]
pub enum UpdateError {
    /// The snapshot to update holds no build.
    PreconditionViolation,
}

/// The builds seen, each with its category set, kept in build order.
pub struct ChangeLog {
    data: Vec<(String, Info)>,
}

impl View for ChangeLog {
    type V = Map<Seq<char>, Map<Seq<char>, Set<Seq<char>>>>;

    closed spec fn view(&self) -> Self::V {
        assoc(keys_of(self.data@), info_views(self.data@))
    }
}

impl ChangeLog {
    /// Well-formed: builds in strict key order, each category set well-formed.
    pub closed spec fn wf(&self) -> bool {
        &&& strictly_sorted(keys_of(self.data@))
        &&& forall|i: int| 0 <= i < self.data@.len() ==> (#[trigger] self.data@[i]).1.wf()
    }

    proof fn lemma_ends(&self)
        requires
            self.wf(),
            self.data@.len() > 0,
        ensures
            is_latest(self@, self.data@.last().0@),
            is_earliest(self@, self.data@[0].0@),
            self@[self.data@.last().0@] == self.data@.last().1@,
            self@[self.data@[0].0@] == self.data@[0].1@,
    {
        let ks = keys_of(self.data@);
        let n = ks.len();
        lemma_sorted_no_duplicates(ks);
        lemma_assoc_at(ks, info_views(self.data@), n - 1);
        lemma_assoc_at(ks, info_views(self.data@), 0);
        assert forall|o: Seq<char>| self@.contains_key(o) && o != ks[n - 1] implies str_lt(
            o,
            ks[n - 1],
        ) by {
            let j = choose|j: int| 0 <= j < ks.len() && ks[j] == o;
            assert(j != n - 1);
        }
        assert forall|o: Seq<char>| self@.contains_key(o) && o != ks[0] implies str_lt(
            ks[0],
            o,
        ) by {
            let j = choose|j: int| 0 <= j < ks.len() && ks[j] == o;
            assert(j != 0);
        }
    }

    /// An empty snapshot.
    pub fn new() -> (r: Self)
        ensures
            r.wf(),
            r@ == Map::<Seq<char>, Map<Seq<char>, Set<Seq<char>>>>::empty(),
    {
        let r = ChangeLog { data: Vec::new() };
        proof {
            lemma_assoc_empty(keys_of(r.data@), info_views(r.data@));
        }
        r
    }

    /// A snapshot that holds `log` under `build` and nothing else.
    pub fn with_data(build: &str, log: Info) -> (r: Self)
        requires
            log.wf(),
        ensures
            r.wf(),
            r@ == Map::<Seq<char>, Map<Seq<char>, Set<Seq<char>>>>::empty().insert(build@, log@),
    {
        let mut data: Vec<(String, Info)> = Vec::new();
        let ghost lv = log@;
        data.push((build.to_owned(), log));
        let r = ChangeLog { data };
        proof {
            let ks = keys_of(r.data@);
            assert(ks =~= seq![build@]);
            assert(info_views(r.data@) =~= seq![lv]);
            lemma_sorted_no_duplicates(ks);
            lemma_assoc_at(ks, info_views(r.data@), 0);
            assert(r@ =~= Map::<Seq<char>, Map<Seq<char>, Set<Seq<char>>>>::empty().insert(
                build@,
                lv,
            ));
        }
        r
    }

    /// Files `description` under `category` of `build`, creating the build
    /// and the category where they are absent.
    pub fn fill(&mut self, build: &str, category: &str, description: &str)
        requires
            old(self).wf(),
        ensures
            final(self).wf(),
            final(self)@ == filled(old(self)@, build@, category@, description@),
    {
        let ghost e = self.data@;
        proof {
            lemma_sorted_no_duplicates(keys_of(e));
        }
        match locate(&self.data, build) {
            Ok(i) => {
                let (name, mut info) = self.data.remove(i);
                assert(e[i as int].1.wf());
                info.add(category, description);
                let ghost iv = info@;
                self.data.insert(i, (name, info));
                assert(self.data@ =~= e.update(i as int, (name, info)));
                assert(keys_of(self.data@) =~= keys_of(e));
                assert(info_views(self.data@) =~= info_views(e).update(i as int, iv));
                proof {
                    lemma_assoc_at(keys_of(e), info_views(e), i as int);
                    lemma_assoc_update(keys_of(e), info_views(e), i as int, iv);
                }
            },
            Err(p) => {
                let mut info = Info::new();
                info.add(category, description);
                let ghost iv = info@;
                self.data.insert(p, (build.to_owned(), info));
                assert(keys_of(self.data@) =~= keys_of(e).insert(p as int, build@));
                assert(info_views(self.data@) =~= info_views(e).insert(p as int, iv));
                proof {
                    lemma_sorted_insert(keys_of(e), p as int, build@);
                    lemma_assoc_insert(keys_of(e), info_views(e), p as int, build@, iv);
                }
                assert forall|i: int| 0 <= i < self.data@.len() implies (
                #[trigger] self.data@[i]).1.wf() by {
                    if i < p {
                        assert(self.data@[i] == e[i]);
                    } else if i > p {
                        assert(self.data@[i] == e[i - 1]);
                    }
                }
            },
        }
    }

    /// The build with the smallest key and its category set, if any.
    pub fn first_record(&self) -> (r: Option<(&String, &Info)>)
        requires
            self.wf(),
        ensures
            r is None <==> self@.dom().is_empty(),
            r matches Some((k, v)) ==> is_earliest(self@, k@) && self@[k@] == v@ && v.wf(),
    {
        if self.data.len() == 0 {
            assert(self@.dom() =~= Set::<Seq<char>>::empty());
            None
        } else {
            proof {
                self.lemma_ends();
            }
            Some((&self.data[0].0, &self.data[0].1))
        }
    }

    /// The build with the greatest key and its category set, if any.
    pub fn last_record(&self) -> (r: Option<(&String, &Info)>)
        requires
            self.wf(),
        ensures
            r is None <==> self@.dom().is_empty(),
            r matches Some((k, v)) ==> is_latest(self@, k@) && self@[k@] == v@ && v.wf(),
    {
        let n = self.data.len();
        if n == 0 {
            assert(self@.dom() =~= Set::<Seq<char>>::empty());
            None
        } else {
            proof {
                self.lemma_ends();
            }
            Some((&self.data[n - 1].0, &self.data[n - 1].1))
        }
    }

    /// Brings the snapshot down to what is new against `prev`, the snapshot
    /// of the previous run: only the latest build is kept, with the entries
    /// that `prev` already held for that same build removed and empty
    /// categories dropped. A `prev` with no build leaves every entry new.
    pub fn update(&mut self, prev: &ChangeLog) -> (r: Result<(), UpdateError>)
        requires
            old(self).wf(),
            prev.wf(),
        ensures
            final(self).wf(),
            r is Err <==> old(self)@.dom().is_empty(),
            r is Err ==> r == Err::<(), UpdateError>(UpdateError::PreconditionViolation)
                && final(self)@ == old(self)@,
            r is Ok ==> final(self)@ == Map::<
                Seq<char>,
                Map<Seq<char>, Set<Seq<char>>>,
            >::empty().insert(latest(old(self)@), delta(prev@, old(self)@)),
    {
        let (next_build, next_info) = match self.last_record() {
            Some(record) => record,
            None => {
                return Err(UpdateError::PreconditionViolation);
            },
        };
        proof {
            lemma_latest_unique(self@, next_build@);
        }
        let fresh = match prev.last_record() {
            Some((prev_build, prev_info)) => {
                proof {
                    lemma_latest_unique(prev@, prev_build@);
                }
                if crate::order::compare_str(prev_build.as_str(), next_build.as_str())
                    == crate::order::KeyOrder::Equal {
                    Info::diff(prev_info, next_info)
                } else {
                    Info::diff(&Info::new(), next_info)
                }
            },
            None => Info::diff(&Info::new(), next_info),
        };
        let build = next_build.clone();
        *self = ChangeLog::with_data(build.as_str(), fresh);
        Ok(())
    }
}

/// One category of a stored document: its name and its descriptions.
pub open spec fn category_record_view(c: (String, Vec<String>)) -> (Seq<char>, Seq<Seq<char>>) {
    (c.0@, strs(c.1@))
}

/// One build of a stored document: its key and its categories.
pub open spec fn record_view(r: (String, Vec<(String, Vec<String>)>)) -> (
    Seq<char>,
    Seq<(Seq<char>, Seq<Seq<char>>)>,
) {
    (r.0@, r.1@.map_values(|c: (String, Vec<String>)| category_record_view(c)))
}

/// The builds of a stored document.
pub open spec fn records_view(rs: Seq<(String, Vec<(String, Vec<String>)>)>) -> Seq<
    (Seq<char>, Seq<(Seq<char>, Seq<Seq<char>>)>),
> {
    rs.map_values(|r: (String, Vec<(String, Vec<String>)>)| record_view(r))
}

/// A category set with `items` added under `category`; the category is
/// there afterwards even where `items` is empty.
pub open spec fn merge_category(
    m: Map<Seq<char>, Set<Seq<char>>>,
    category: Seq<char>,
    items: Seq<Seq<char>>,
) -> Map<Seq<char>, Set<Seq<char>>> {
    m.insert(
        category,
        if m.contains_key(category) {
            m[category]
        } else {
            Set::empty()
        }.union(items.to_set()),
    )
}

/// A category set with the categories of a document merged in, in order.
pub open spec fn merge_categories(
    m: Map<Seq<char>, Set<Seq<char>>>,
    cats: Seq<(Seq<char>, Seq<Seq<char>>)>,
) -> Map<Seq<char>, Set<Seq<char>>>
    decreases cats.len(),
{
    if cats.len() == 0 {
        m
    } else {
        merge_category(merge_categories(m, cats.drop_last()), cats.last().0, cats.last().1)
    }
}

/// A snapshot with the builds of a document merged in, in order: repeated
/// builds, categories and descriptions come together.
pub open spec fn merge_builds(
    m: Map<Seq<char>, Map<Seq<char>, Set<Seq<char>>>>,
    rs: Seq<(Seq<char>, Seq<(Seq<char>, Seq<Seq<char>>)>)>,
) -> Map<Seq<char>, Map<Seq<char>, Set<Seq<char>>>>
    decreases rs.len(),
{
    if rs.len() == 0 {
        m
    } else {
        let p = merge_builds(m, rs.drop_last());
        let b = rs.last().0;
        p.insert(
            b,
            merge_categories(
                if p.contains_key(b) {
                    p[b]
                } else {
                    Map::empty()
                },
                rs.last().1,
            ),
        )
    }
}

/// The document of a category set: its categories in key order, the
/// descriptions of each in order.
pub open spec fn categories_of(m: Map<Seq<char>, Set<Seq<char>>>) -> Seq<
    (Seq<char>, Seq<Seq<char>>),
> {
    sorted_form(m.dom()).map_values(|c: Seq<char>| (c, sorted_form(m[c])))
}

/// The document of a snapshot: its builds in key order, each with the
/// document of its category set.
pub open spec fn records_of(m: Map<Seq<char>, Map<Seq<char>, Set<Seq<char>>>>) -> Seq<
    (Seq<char>, Seq<(Seq<char>, Seq<Seq<char>>)>),
> {
    sorted_form(m.dom()).map_values(|b: Seq<char>| (b, categories_of(m[b])))
}

/// A copy of a list of strings.
fn copy_strings(v: &Vec<String>) -> (r: Vec<String>)
    ensures
        r@ == v@,
{
    let mut r: Vec<String> = Vec::new();
    let mut i: usize = 0;
    while i < v.len()
        invariant
            i <= v@.len(),
            r@ == v@.subrange(0, i as int),
        decreases v@.len() - i,
    {
        r.push(v[i].clone());
        assert(r@ =~= v@.subrange(0, i + 1));
        i = i + 1;
    }
    assert(v@.subrange(0, i as int) =~= v@);
    r
}

/// Merging the document of a list of categories with distinct keys into an
/// empty set gives the map of those keys.
proof fn lemma_merge_distinct(cats: Seq<(Seq<char>, Seq<Seq<char>>)>)
    requires
        cats.map_values(|c: (Seq<char>, Seq<Seq<char>>)| c.0).no_duplicates(),
    ensures
        merge_categories(Map::empty(), cats) == assoc(
            cats.map_values(|c: (Seq<char>, Seq<Seq<char>>)| c.0),
            cats.map_values(|c: (Seq<char>, Seq<Seq<char>>)| c.1.to_set()),
        ),
    decreases cats.len(),
{
    let ks = cats.map_values(|c: (Seq<char>, Seq<Seq<char>>)| c.0);
    let vs = cats.map_values(|c: (Seq<char>, Seq<Seq<char>>)| c.1.to_set());
    if cats.len() == 0 {
        lemma_assoc_empty(ks, vs);
    } else {
        let init = cats.drop_last();
        let iks = init.map_values(|c: (Seq<char>, Seq<Seq<char>>)| c.0);
        let ivs = init.map_values(|c: (Seq<char>, Seq<Seq<char>>)| c.1.to_set());
        assert(iks =~= ks.drop_last());
        assert(ivs =~= vs.drop_last());
        assert(iks.no_duplicates());
        lemma_merge_distinct(init);
        let k = cats.last().0;
        assert(!iks.contains(k)) by {
            if iks.contains(k) {
                let j = choose|j: int| 0 <= j < iks.len() && iks[j] == k;
                assert(ks[j] == ks[ks.len() - 1]);
            }
        }
        lemma_assoc_push(iks, ivs, k, cats.last().1.to_set());
        assert(iks.push(k) =~= ks);
        assert(ivs.push(cats.last().1.to_set()) =~= vs);
        assert(assoc(iks, ivs).contains_key(k) == iks.contains(k));
        assert(Set::<Seq<char>>::empty().union(cats.last().1.to_set()) =~= cats.last().1.to_set());
    }
}

/// Merging the document of a list of builds with distinct keys into an
/// empty snapshot gives the map of those keys.
proof fn lemma_merge_builds_distinct(rs: Seq<(Seq<char>, Seq<(Seq<char>, Seq<Seq<char>>)>)>)
    requires
        rs.map_values(|r: (Seq<char>, Seq<(Seq<char>, Seq<Seq<char>>)>)| r.0).no_duplicates(),
    ensures
        merge_builds(Map::empty(), rs) == assoc(
            rs.map_values(|r: (Seq<char>, Seq<(Seq<char>, Seq<Seq<char>>)>)| r.0),
            rs.map_values(
                |r: (Seq<char>, Seq<(Seq<char>, Seq<Seq<char>>)>)|
                    merge_categories(Map::empty(), r.1),
            ),
        ),
    decreases rs.len(),
{
    let ks = rs.map_values(|r: (Seq<char>, Seq<(Seq<char>, Seq<Seq<char>>)>)| r.0);
    let vs = rs.map_values(
        |r: (Seq<char>, Seq<(Seq<char>, Seq<Seq<char>>)>)| merge_categories(Map::empty(), r.1),
    );
    if rs.len() == 0 {
        lemma_assoc_empty(ks, vs);
    } else {
        let init = rs.drop_last();
        let iks = init.map_values(|r: (Seq<char>, Seq<(Seq<char>, Seq<Seq<char>>)>)| r.0);
        let ivs = init.map_values(
            |r: (Seq<char>, Seq<(Seq<char>, Seq<Seq<char>>)>)| merge_categories(Map::empty(), r.1),
        );
        assert(iks =~= ks.drop_last());
        assert(ivs =~= vs.drop_last());
        assert(iks.no_duplicates());
        lemma_merge_builds_distinct(init);
        let k = rs.last().0;
        assert(!iks.contains(k)) by {
            if iks.contains(k) {
                let j = choose|j: int| 0 <= j < iks.len() && iks[j] == k;
                assert(ks[j] == ks[ks.len() - 1]);
            }
        }
        lemma_assoc_push(iks, ivs, k, merge_categories(Map::empty(), rs.last().1));
        assert(iks.push(k) =~= ks);
        assert(ivs.push(merge_categories(Map::empty(), rs.last().1)) =~= vs);
    }
}

impl Info {
    /// The categories in key order, each with its descriptions in order.
    pub fn to_entries(&self) -> (r: Vec<(String, Vec<String>)>)
        requires
            self.wf(),
        ensures
            r@.map_values(|c: (String, Vec<String>)| category_record_view(c)) == categories_of(
                self@,
            ),
    {
        let mut r: Vec<(String, Vec<String>)> = Vec::new();
        let mut i: usize = 0;
        while i < self.category.len()
            invariant
                i <= self.category@.len(),
                r@.map_values(|c: (String, Vec<String>)| category_record_view(c))
                    == self.category@.subrange(0, i as int).map_values(
                    |c: (String, Vec<String>)| category_record_view(c),
                ),
            decreases self.category@.len() - i,
        {
            let ghost before = r@;
            let name = self.category[i].0.clone();
            let items = copy_strings(&self.category[i].1);
            r.push((name, items));
            let ghost cur = category_record_view(self.category@[i as int]);
            assert(category_record_view(r@.last()) == cur);
            assert(r@.map_values(|c: (String, Vec<String>)| category_record_view(c))
                =~= before.map_values(|c: (String, Vec<String>)| category_record_view(c)).push(cur));
            assert(self.category@.subrange(0, i + 1).map_values(
                |c: (String, Vec<String>)| category_record_view(c),
            ) =~= self.category@.subrange(0, i as int).map_values(
                |c: (String, Vec<String>)| category_record_view(c),
            ).push(cur));
            i = i + 1;
        }
        proof {
            assert(self.category@.subrange(0, i as int) =~= self.category@);
            self.lemma_categories_of();
        }
        r
    }

    /// The document of a well-formed set is its own list of categories.
    proof fn lemma_categories_of(&self)
        requires
            self.wf(),
        ensures
            categories_of(self@) == self.category@.map_values(
                |c: (String, Vec<String>)| category_record_view(c),
            ),
    {
        let e = self.category@;
        let ks = keys_of(e);
        lemma_sorted_no_duplicates(ks);
        assert(ks.to_set() =~= self@.dom());
        lemma_is_sorted_form(ks);
        assert forall|i: int| 0 <= i < e.len() implies #[trigger] sorted_form(self@[ks[i]]) == strs(
            e[i].1@,
        ) by {
            lemma_assoc_at(ks, item_sets(e), i);
            lemma_is_sorted_form(strs(e[i].1@));
        }
        assert(categories_of(self@) =~= e.map_values(
            |c: (String, Vec<String>)| category_record_view(c),
        ));
    }

    /// Merging its own document into an empty set gives a well-formed set back.
    proof fn lemma_entries_round_trip(&self)
        requires
            self.wf(),
        ensures
            merge_categories(Map::empty(), categories_of(self@)) == self@,
    {
        self.lemma_categories_of();
        let cats = categories_of(self@);
        let e = self.category@;
        assert(cats.map_values(|c: (Seq<char>, Seq<Seq<char>>)| c.0) =~= keys_of(e));
        assert(cats.map_values(|c: (Seq<char>, Seq<Seq<char>>)| c.1.to_set()) =~= item_sets(e));
        lemma_sorted_no_duplicates(keys_of(e));
        lemma_merge_distinct(cats);
    }

    /// Adds `items` under `category`, creating the category even where
    /// `items` is empty.
    pub fn merge(&mut self, category: &str, items: &Vec<String>)
        requires
            old(self).wf(),
        ensures
            final(self).wf(),
            final(self)@ == merge_category(old(self)@, category@, strs(items@)),
    {
        let ghost start = self@;
        let ghost base = if start.contains_key(category@) {
            start[category@]
        } else {
            Set::<Seq<char>>::empty()
        };
        let ghost e = self.category@;
        proof {
            lemma_sorted_no_duplicates(keys_of(e));
        }
        match locate(&self.category, category) {
            Ok(i) => {
                proof {
                    lemma_assoc_at(keys_of(e), item_sets(e), i as int);
                    assert(start.insert(category@, base) =~= start);
                }
            },
            Err(p) => {
                self.category.insert(p, (category.to_owned(), Vec::new()));
                assert(strs(Seq::<String>::empty()).to_set() =~= Set::<Seq<char>>::empty());
                assert(keys_of(self.category@) =~= keys_of(e).insert(p as int, category@));
                assert(item_sets(self.category@) =~= item_sets(e).insert(
                    p as int,
                    Set::<Seq<char>>::empty(),
                ));
                proof {
                    lemma_sorted_insert(keys_of(e), p as int, category@);
                    lemma_assoc_insert(
                        keys_of(e),
                        item_sets(e),
                        p as int,
                        category@,
                        Set::<Seq<char>>::empty(),
                    );
                }
                assert forall|i: int| 0 <= i < self.category@.len() implies strictly_sorted(
                    strs(#[trigger] self.category@[i].1@),
                ) by {
                    if i < p {
                        assert(self.category@[i] == e[i]);
                    } else if i > p {
                        assert(self.category@[i] == e[i - 1]);
                    } else {
                        assert(strs(self.category@[i].1@) =~= Seq::<Seq<char>>::empty());
                    }
                }
            },
        }
        assert(strs(items@).subrange(0, 0).to_set() =~= Set::<Seq<char>>::empty());
        assert(base.union(Set::<Seq<char>>::empty()) =~= base);
        let mut k: usize = 0;
        while k < items.len()
            invariant
                self.wf(),
                k <= items@.len(),
                self@ == start.insert(category@, base.union(strs(items@).subrange(0, k as int).to_set())),
            decreases items@.len() - k,
        {
            let ghost done = strs(items@).subrange(0, k as int);
            assert(strs(items@).subrange(0, k + 1) =~= done.push(items@[k as int]@));
            proof {
                done.lemma_push_to_set_commute(items@[k as int]@);
            }
            self.add(category, items[k].as_str());
            assert(base.union(done.to_set()).insert(items@[k as int]@) =~= base.union(
                strs(items@).subrange(0, k + 1).to_set(),
            ));
            assert(self@ =~= start.insert(
                category@,
                base.union(strs(items@).subrange(0, k + 1).to_set()),
            ));
            k = k + 1;
        }
        assert(strs(items@).subrange(0, k as int) =~= strs(items@));
    }
}

impl ChangeLog {
    /// The document of this snapshot: the builds in key order, each with its
    /// categories in key order and their descriptions in order.
    pub fn to_records(&self) -> (r: Vec<(String, Vec<(String, Vec<String>)>)>)
        requires
            self.wf(),
        ensures
            records_view(r@) == records_of(self@),
    {
        let mut r: Vec<(String, Vec<(String, Vec<String>)>)> = Vec::new();
        let mut i: usize = 0;
        while i < self.data.len()
            invariant
                self.wf(),
                i <= self.data@.len(),
                records_view(r@) == self.data@.subrange(0, i as int).map_values(
                    |d: (String, Info)| (d.0@, categories_of(d.1@)),
                ),
            decreases self.data@.len() - i,
        {
            let ghost before = r@;
            assert(self.data@[i as int].1.wf());
            let name = self.data[i].0.clone();
            let cats = self.data[i].1.to_entries();
            r.push((name, cats));
            let ghost cur = (self.data@[i as int].0@, categories_of(self.data@[i as int].1@));
            assert(record_view(r@.last()) == cur);
            assert(records_view(r@) =~= records_view(before).push(cur));
            assert(self.data@.subrange(0, i + 1).map_values(
                |d: (String, Info)| (d.0@, categories_of(d.1@)),
            ) =~= self.data@.subrange(0, i as int).map_values(
                |d: (String, Info)| (d.0@, categories_of(d.1@)),
            ).push(cur));
            i = i + 1;
        }
        proof {
            assert(self.data@.subrange(0, i as int) =~= self.data@);
            let e = self.data@;
            let ks = keys_of(e);
            lemma_sorted_no_duplicates(ks);
            assert(ks.to_set() =~= self@.dom());
            lemma_is_sorted_form(ks);
            assert forall|j: int| 0 <= j < e.len() implies #[trigger] self@[ks[j]] == e[j].1@ by {
                lemma_assoc_at(ks, info_views(e), j);
            }
            assert(records_view(r@) =~= records_of(self@));
        }
        r
    }

    /// Merges one build of a document into the snapshot.
    pub fn merge_record(&mut self, build: &str, cats: &Vec<(String, Vec<String>)>)
        requires
            old(self).wf(),
        ensures
            final(self).wf(),
            final(self)@ == old(self)@.insert(
                build@,
                merge_categories(
                    if old(self)@.contains_key(build@) {
                        old(self)@[build@]
                    } else {
                        Map::empty()
                    },
                    cats@.map_values(|c: (String, Vec<String>)| category_record_view(c)),
                ),
            ),
    {
        let ghost e = self.data@;
        let ghost cv = cats@.map_values(|c: (String, Vec<String>)| category_record_view(c));
        proof {
            lemma_sorted_no_duplicates(keys_of(e));
        }
        let found = locate(&self.data, build);
        let (name, mut info) = match found {
            Ok(i) => {
                proof {
                    lemma_assoc_at(keys_of(e), info_views(e), i as int);
                }
                assert(e[i as int].1.wf());
                self.data.remove(i)
            },
            Err(_) => (build.to_owned(), Info::new()),
        };
        let ghost base = info@;
        let mut j: usize = 0;
        while j < cats.len()
            invariant
                info.wf(),
                j <= cats@.len(),
                cv == cats@.map_values(|c: (String, Vec<String>)| category_record_view(c)),
                info@ == merge_categories(base, cv.subrange(0, j as int)),
            decreases cats@.len() - j,
        {
            assert(cv.subrange(0, j + 1).drop_last() =~= cv.subrange(0, j as int));
            info.merge(cats[j].0.as_str(), &cats[j].1);
            j = j + 1;
        }
        assert(cv.subrange(0, j as int) =~= cv);
        let ghost iv = info@;
        match found {
            Ok(i) => {
                self.data.insert(i, (name, info));
                assert(self.data@ =~= e.update(i as int, (name, info)));
                assert(keys_of(self.data@) =~= keys_of(e));
                assert(info_views(self.data@) =~= info_views(e).update(i as int, iv));
                proof {
                    lemma_assoc_update(keys_of(e), info_views(e), i as int, iv);
                }
            },
            Err(p) => {
                self.data.insert(p, (name, info));
                assert(keys_of(self.data@) =~= keys_of(e).insert(p as int, build@));
                assert(info_views(self.data@) =~= info_views(e).insert(p as int, iv));
                proof {
                    lemma_sorted_insert(keys_of(e), p as int, build@);
                    lemma_assoc_insert(keys_of(e), info_views(e), p as int, build@, iv);
                }
                assert forall|i: int| 0 <= i < self.data@.len() implies (
                #[trigger] self.data@[i]).1.wf() by {
                    if i < p {
                        assert(self.data@[i] == e[i]);
                    } else if i > p {
                        assert(self.data@[i] == e[i - 1]);
                    }
                }
            },
        }
    }

    /// The snapshot that a stored document holds: its builds merged in order,
    /// repeated builds, categories and descriptions coming together.
    pub fn from_records(records: &Vec<(String, Vec<(String, Vec<String>)>)>) -> (r: ChangeLog)
        ensures
            r.wf(),
            r@ == merge_builds(Map::empty(), records_view(records@)),
    {
        let mut log = ChangeLog::new();
        let ghost rv = records_view(records@);
        let mut i: usize = 0;
        while i < records.len()
            invariant
                log.wf(),
                i <= records@.len(),
                rv == records_view(records@),
                log@ == merge_builds(Map::empty(), rv.subrange(0, i as int)),
            decreases records@.len() - i,
        {
            assert(rv.subrange(0, i + 1).drop_last() =~= rv.subrange(0, i as int));
            log.merge_record(records[i].0.as_str(), &records[i].1);
            i = i + 1;
        }
        assert(rv.subrange(0, i as int) =~= rv);
        log
    }

    /// Merging the document of a well-formed snapshot into an empty one
    /// gives it back.
    pub(crate) proof fn lemma_records_round_trip(&self)
        requires
            self.wf(),
        ensures
            merge_builds(Map::empty(), records_of(self@)) == self@,
    {
        let e = self.data@;
        let ks = keys_of(e);
        lemma_sorted_no_duplicates(ks);
        assert(ks.to_set() =~= self@.dom());
        lemma_is_sorted_form(ks);
        let rs = records_of(self@);
        assert forall|j: int| 0 <= j < e.len() implies #[trigger] self@[ks[j]] == e[j].1@ by {
            lemma_assoc_at(ks, info_views(e), j);
        }
        assert(rs.map_values(|r: (Seq<char>, Seq<(Seq<char>, Seq<Seq<char>>)>)| r.0) =~= ks);
        lemma_merge_builds_distinct(rs);
        let vs = rs.map_values(
            |r: (Seq<char>, Seq<(Seq<char>, Seq<Seq<char>>)>)| merge_categories(Map::empty(), r.1),
        );
        assert forall|j: int| 0 <= j < e.len() implies #[trigger] vs[j] == info_views(e)[j] by {
            assert(e[j].1.wf());
            e[j].1.lemma_entries_round_trip();
        }
        assert(vs =~= info_views(e));
    }
}

} // verus!
