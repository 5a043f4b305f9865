//! Properties that relate the operations on category sets and snapshots.
use vstd::prelude::*;
use crate::log::{
    added, delta, diff_of, latest, merge_builds, pruned, records_of, rendered, ChangeLog, Info,
};

verus! {

/// Adding the same description under the same category twice has the
/// effect of adding it once.
pub proof fn add_is_idempotent(s: Info, category: Seq<char>, description: Seq<char>)
    ensures
        added(added(s@, category, description), category, description) == added(
            s@,
            category,
            description,
        ),
{
    let once = added(s@, category, description);
    assert(once[category].insert(description) =~= once[category]);
    assert(added(once, category, description) =~= once);
}

/// A category set holds nothing new against itself.
pub proof fn diff_of_self_is_empty(a: Info)
    ensures
        diff_of(a@, a@) == Map::<Seq<char>, Set<Seq<char>>>::empty(),
{
    assert forall|c: Seq<char>| !diff_of(a@, a@).contains_key(c) by {
        if a@.contains_key(c) {
            assert(a@[c].difference(a@[c]) =~= Set::<Seq<char>>::empty());
        }
    }
    assert(diff_of(a@, a@) =~= Map::<Seq<char>, Set<Seq<char>>>::empty());
}

/// Under a category that the previous set holds, the difference holds none
/// of the previous descriptions.
pub proof fn diff_excludes_previous(a: Info, b: Info, category: Seq<char>)
    requires
        a@.contains_key(category),
        diff_of(a@, b@).contains_key(category),
    ensures
        diff_of(a@, b@)[category].disjoint(a@[category]),
{
    assert(diff_of(a@, b@)[category] == b@[category].difference(a@[category]));
}

/// When the latest builds differ, or the previous snapshot holds no build,
/// the update keeps the whole latest build, only without its empty
/// categories.
pub proof fn new_build_keeps_everything(prev: ChangeLog, next: ChangeLog)
    requires
        !next@.dom().is_empty(),
        prev@.dom().is_empty() || latest(prev@) != latest(next@),
    ensures
        delta(prev@, next@) == pruned(next@[latest(next@)]),
{
}

/// A category set's report depends on its content alone: equal sets,
/// however they were filled, give the same text.
pub proof fn render_is_deterministic(a: Info, b: Info)
    requires
        a@ == b@,
    ensures
        rendered(a@) == rendered(b@),
{
}

/// Loading what was stored gives the snapshot back: the document that
/// `to_records` writes, read by `from_records`, holds the same builds,
/// categories and descriptions.
pub proof fn store_then_load_round_trips(s: ChangeLog)
    requires
        s.wf(),
    ensures
        merge_builds(Map::empty(), records_of(s@)) == s@,
{
    s.lemma_records_round_trip();
}

} // verus!
