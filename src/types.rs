//! A changelog that keeps every description in the order it came, with
//! repeats, keyed by build and category.
use vstd::prelude::*;
use crate::assoc::{
    assoc, keys_of, lemma_assoc_at, lemma_assoc_empty, lemma_assoc_insert, lemma_assoc_update,
    locate, strs,
};
use crate::log::is_latest;
use crate::order::{lemma_sorted_insert, lemma_sorted_no_duplicates, strictly_sorted};

verus! {

/// The description lists of a list of keyed categories.
pub open spec fn item_lists(e: Seq<(String, Vec<String>)>) -> Seq<Seq<Seq<char>>> {
    e.map_values(|p: (String, Vec<String>)| strs(p.1@))
}

/// The category lists of a list of keyed builds.
pub open spec fn log_views(e: Seq<(String, ChangeLog)>) -> Seq<Map<Seq<char>, Seq<Seq<char>>>> {
    e.map_values(|p: (String, ChangeLog)| p.1@)
}

/// A list of builds after `description` is appended under `category` of `build`.
pub open spec fn appended(
    m: Map<Seq<char>, Map<Seq<char>, Seq<Seq<char>>>>,
    build: Seq<char>,
    category: Seq<char>,
    description: Seq<char>,
) -> Map<Seq<char>, Map<Seq<char>, Seq<Seq<char>>>> {
    let inner = if m.contains_key(build) {
        m[build]
    } else {
        Map::empty()
    };
    m.insert(
        build,
        inner.insert(
            category,
            if inner.contains_key(category) {
                inner[category]
            } else {
                Seq::empty()
            }.push(description),
        ),
    )
}

/// The descriptions of one build under each category, in the order they came.
#[derive(Debug)]
pub struct ChangeLog {
    category: Vec<(String, Vec<String>)>,
}

impl View for ChangeLog {
    type V = Map<Seq<char>, Seq<Seq<char>>>;

    closed spec fn view(&self) -> Self::V {
        assoc(keys_of(self.category@), item_lists(self.category@))
    }
}

impl ChangeLog {
    pub closed spec fn wf(&self) -> bool {
        strictly_sorted(keys_of(self.category@))
    }

    pub fn new() -> (r: Self)
        ensures
            r.wf(),
            r@ == Map::<Seq<char>, Seq<Seq<char>>>::empty(),
    {
        let r = ChangeLog { category: Vec::new() };
        proof {
            lemma_assoc_empty(keys_of(r.category@), item_lists(r.category@));
        }
        r
    }

    /// The categories in key order, each with its descriptions.
    pub fn entries(&self) -> (r: &Vec<(String, Vec<String>)>)
        requires
            self.wf(),
        ensures
            strictly_sorted(keys_of(r@)),
            assoc(keys_of(r@), item_lists(r@)) == self@,
    {
        &self.category
    }

    fn push(&mut self, category: &str, description: &str)
        requires
            old(self).wf(),
        ensures
            final(self).wf(),
            final(self)@ == old(self)@.insert(
                category@,
                if old(self)@.contains_key(category@) {
                    old(self)@[category@]
                } else {
                    Seq::empty()
                }.push(description@),
            ),
    {
        let ghost e = self.category@;
        proof {
            lemma_sorted_no_duplicates(keys_of(e));
        }
        match locate(&self.category, category) {
            Ok(i) => {
                let (name, mut items) = self.category.remove(i);
                let ghost old_items = strs(items@);
                items.push(description.to_owned());
                assert(strs(items@) =~= old_items.push(description@));
                self.category.insert(i, (name, items));
                assert(self.category@ =~= e.update(i as int, (name, items)));
                assert(keys_of(self.category@) =~= keys_of(e));
                assert(item_lists(self.category@) =~= item_lists(e).update(i as int, strs(items@)));
                proof {
                    lemma_assoc_at(keys_of(e), item_lists(e), i as int);
                    lemma_assoc_update(keys_of(e), item_lists(e), i as int, strs(items@));
                }
            },
            Err(p) => {
                let mut items: Vec<String> = Vec::new();
                items.push(description.to_owned());
                assert(strs(items@) =~= Seq::<Seq<char>>::empty().push(description@));
                self.category.insert(p, (category.to_owned(), items));
                assert(keys_of(self.category@) =~= keys_of(e).insert(p as int, category@));
                assert(item_lists(self.category@) =~= item_lists(e).insert(p as int, strs(items@)));
                proof {
                    lemma_sorted_insert(keys_of(e), p as int, category@);
                    lemma_assoc_insert(keys_of(e), item_lists(e), p as int, category@, strs(items@));
                }
            },
        }
    }
}

/// Builds, each with the descriptions of its categories, under a list id.
#[derive(Debug)]
pub struct ChangeLogList {
    id: i32,
    build: Vec<(String, ChangeLog)>,
}

impl View for ChangeLogList {
    type V = Map<Seq<char>, Map<Seq<char>, Seq<Seq<char>>>>;

    closed spec fn view(&self) -> Self::V {
        assoc(keys_of(self.build@), log_views(self.build@))
    }
}

impl ChangeLogList {
    pub closed spec fn wf(&self) -> bool {
        &&& strictly_sorted(keys_of(self.build@))
        &&& forall|i: int| 0 <= i < self.build@.len() ==> (#[trigger] self.build@[i]).1.wf()
    }

    pub closed spec fn id_view(&self) -> i32 {
        self.id
    }

    /// An empty list under `id`.
    pub fn new(id: i32) -> (r: Self)
        ensures
            r.wf(),
            r.id_view() == id,
            r@ == Map::<Seq<char>, Map<Seq<char>, Seq<Seq<char>>>>::empty(),
    {
        let r = ChangeLogList { id, build: Vec::new() };
        proof {
            lemma_assoc_empty(keys_of(r.build@), log_views(r.build@));
        }
        r
    }

    pub fn id(&self) -> (r: i32)
        ensures
            r == self.id_view(),
    {
        self.id
    }

    /// Appends `description` under `category` of `build`, creating the build
    /// and the category where they are absent.
    pub fn add_log(&mut self, build: &str, category: &str, description: &str)
        requires
            old(self).wf(),
        ensures
            final(self).wf(),
            final(self).id_view() == old(self).id_view(),
            final(self)@ == appended(old(self)@, build@, category@, description@),
    {
        let ghost e = self.build@;
        proof {
            lemma_sorted_no_duplicates(keys_of(e));
        }
        match locate(&self.build, build) {
            Ok(i) => {
                let (name, mut log) = self.build.remove(i);
                assert(e[i as int].1.wf());
                log.push(category, description);
                let ghost lv = log@;
                self.build.insert(i, (name, log));
                assert(self.build@ =~= e.update(i as int, (name, log)));
                assert(keys_of(self.build@) =~= keys_of(e));
                assert(log_views(self.build@) =~= log_views(e).update(i as int, lv));
                proof {
                    lemma_assoc_at(keys_of(e), log_views(e), i as int);
                    lemma_assoc_update(keys_of(e), log_views(e), i as int, lv);
                }
            },
            Err(p) => {
                let mut log = ChangeLog::new();
                log.push(category, description);
                let ghost lv = log@;
                self.build.insert(p, (build.to_owned(), log));
                assert(keys_of(self.build@) =~= keys_of(e).insert(p as int, build@));
                assert(log_views(self.build@) =~= log_views(e).insert(p as int, lv));
                proof {
                    lemma_sorted_insert(keys_of(e), p as int, build@);
                    lemma_assoc_insert(keys_of(e), log_views(e), p as int, build@, lv);
                }
                assert forall|i: int| 0 <= i < self.build@.len() implies (
                #[trigger] self.build@[i]).1.wf() by {
                    if i < p {
                        assert(self.build@[i] == e[i]);
                    } else if i > p {
                        assert(self.build@[i] == e[i - 1]);
                    }
                }
            },
        }
    }

    /// The log of `build`, if the list holds it.
    pub fn log_of(&self, build: &str) -> (r: Option<&ChangeLog>)
        requires
            self.wf(),
        ensures
            r is Some <==> self@.contains_key(build@),
            r matches Some(log) ==> log@ == self@[build@] && log.wf(),
    {
        proof {
            lemma_sorted_no_duplicates(keys_of(self.build@));
        }
        match locate(&self.build, build) {
            Ok(i) => {
                proof {
                    lemma_assoc_at(keys_of(self.build@), log_views(self.build@), i as int);
                }
                Some(&self.build[i].1)
            },
            Err(_) => None,
        }
    }

    /// The build with the greatest key and its log.
    pub fn last_log(&self) -> (r: (&String, &ChangeLog))
        requires
            self.wf(),
            !self@.dom().is_empty(),
        ensures
            is_latest(self@, r.0@),
            self@[r.0@] == r.1@,
    {
        let ghost ks = keys_of(self.build@);
        if self.build.len() == 0 {
            assert(self@.dom() =~= Set::<Seq<char>>::empty());
        }
        let n = self.build.len();
        proof {
            lemma_sorted_no_duplicates(ks);
            lemma_assoc_at(ks, log_views(self.build@), n - 1);
            assert forall|o: Seq<char>| self@.contains_key(o) && o != ks[n - 1] implies crate::order::str_lt(
                o,
                ks[n - 1],
            ) by {
                let j = choose|j: int| 0 <= j < ks.len() && ks[j] == o;
                assert(j != n - 1);
            }
        }
        (&self.build[n - 1].0, &self.build[n - 1].1)
    }
}

} // verus!
