//! Walks over collections.
use vstd::prelude::*;

use crate::ledger::flattened;
use crate::state::{Army, ArmyView, Battlefield, BattlefieldView};
use crate::storage::battlefield_walk;

verus! {

/// Drops the entries that could not be read.
pub(crate) fn flatten<T>(walk: Vec<Option<T>>) -> (rows: Vec<T>)
    ensures
        rows@ == flattened(walk@),
{
    let mut rows: Vec<T> = Vec::new();
    for entry in it: walk
        invariant
            it.seq() == walk@,
            rows@ == flattened(walk@.take(it.index() as int)),
    {
        proof {
            assert(walk@.take(it.index() + 1).drop_last() =~= walk@.take(it.index() as int));
        }
        if let Some(row) = entry {
            rows.push(row);
        }
    }
    proof {
        assert(walk@.take(walk@.len() as int) =~= walk@);
    }
    rows
}

/// Rows of battlefields, by their views.
pub open spec fn battlefield_rows(rows: Seq<(u8, Battlefield)>) -> Seq<(u8, BattlefieldView)> {
    rows.map_values(|row: (u8, Battlefield)| (row.0, row.1@))
}

/// Armies, by their views.
pub open spec fn army_views(armies: Seq<Army>) -> Seq<ArmyView> {
    armies.map_values(|a: Army| a@)
}

/// Battlefields, by their views.
pub open spec fn battlefield_views(fields: Seq<Battlefield>) -> Seq<BattlefieldView> {
    fields.map_values(|b: Battlefield| b@)
}

pub(crate) proof fn lemma_flattened_battlefields(walk: Seq<Option<(u8, Battlefield)>>)
    ensures
        flattened(battlefield_walk(walk)) == battlefield_rows(flattened(walk)),
    decreases walk.len(),
{
    if walk.len() > 0 {
        lemma_flattened_battlefields(walk.drop_last());
        assert(battlefield_walk(walk).drop_last() =~= battlefield_walk(walk.drop_last()));
    }
    assert(flattened(battlefield_walk(walk)) =~= battlefield_rows(flattened(walk)));
}

/// Whether every entry of a walk could be read.
pub(crate) fn complete<T>(walk: &Vec<Option<T>>) -> (r: bool)
    ensures
        r <==> forall|i: int| 0 <= i < walk@.len() ==> (#[trigger] walk@[i]) is Some,
{
    let mut i: usize = 0;
    while i < walk.len()
        invariant
            i <= walk@.len(),
            forall|j: int| 0 <= j < i ==> (#[trigger] walk@[j]) is Some,
        decreases walk@.len() - i,
    {
        if walk[i].is_none() {
            return false;
        }
        i += 1;
    }
    true
}

} // verus!
