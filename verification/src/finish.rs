//! The engine's first and last state: the lemma that sets the invariant up,
//! and the writing out of the result.

use crate::model::{
    at, project_index,  ApplicantId, ApplicantInfo, Claimant, LotteryResult,
    ProjectId, ProjectInfo,
};
use crate::outcome::{enumerates, lists, seated_in};
use crate::progress::{
    applicants_of, at_start, holds, ids_of, place_of, refused_upto, tracked_one, well_tracked,
    Spot, Track,
};
use crate::seats::{heap_ids, heap_items, SeatOrder};
use std::collections::HashMap;
use binary_heap_plus::BinaryHeap;
use vstd::multiset::Multiset;
use vstd::prelude::*;

verus! {

/// At the start the lined-up stack holds exactly the pending applicants,
/// which are all of them.
pub proof fn lemma_start(apps: Seq<ApplicantInfo>, projects: Seq<ProjectInfo>, stack: Seq<Claimant>)
    requires
        apps.len() <= usize::MAX,
        stack.len() == apps.len(),
        forall|i: int|
            0 <= i < apps.len() ==> #[trigger] stack[i] == (Claimant {
                id: apps[i].id,
                applicant: i as usize,
                cursor: 0,
            }),
    ensures
        well_tracked(apps, projects, at_start(stack)),
        holds(at_start(stack), stack.to_multiset(), Spot::Pending),
        holds(at_start(stack), Seq::<Claimant>::empty().to_multiset(), Spot::Unassigned),
        forall|s: int|
            holds(at_start(stack), Seq::<Claimant>::empty().to_multiset(), Spot::Seated(s)),
        forall|i: int| 0 <= i < apps.len() ==> refused_upto(at_start(stack), i) == 0,
{
    broadcast use vstd::multiset::group_multiset_axioms;

    let t = at_start(stack);
    assert forall|i: int| 0 <= i < apps.len() implies #[trigger] tracked_one(
        apps,
        projects,
        t,
        i,
    ) by {
        assert(stack[i].applicant == i);
    }
    assert forall|i: int, j: int|
        0 <= i < stack.len() && 0 <= j < stack.len() && i != j implies stack[i] != stack[j] by {
        assert(stack[i].applicant == i);
        assert(stack[j].applicant == j);
    }
    stack.lemma_multiset_has_no_duplicates();
    stack.to_multiset_ensures();
    assert forall|c: Claimant| #[trigger] stack.to_multiset().count(c) > 0 implies {
        &&& at(c.applicant) < t.cur.len()
        &&& t.cur[at(c.applicant)] == c
        &&& t.spot[at(c.applicant)] == Spot::Pending
    } by {
        assert(stack.contains(c));
        let k = choose|k: int| 0 <= k < stack.len() && stack[k] == c;
        assert(stack[k].applicant == k);
    }
    let lined = stack.to_multiset();
    assert forall|i: int|
        0 <= i < t.cur.len() && #[trigger] t.spot[i] == Spot::Pending implies lined.count(
        t.cur[i],
    ) == 1 by {
        assert(stack.contains(stack[i]));
        assert(stack.to_multiset().contains(stack[i]));
    }
    Seq::<Claimant>::empty().to_multiset_ensures();
    assert(Seq::<Claimant>::empty().to_multiset() =~= Multiset::<Claimant>::empty());
}

/// A sequence of claimants that holds exactly the applicants at `w` lists,
/// by its identifiers, the applicants that the placement puts at `target`,
/// where being at `w` and being put at `target` are the same.
pub proof fn lemma_listing(
    apps: Seq<ApplicantInfo>,
    projects: Seq<ProjectInfo>,
    t: Track,
    items: Seq<Claimant>,
    w: Spot,
    target: Option<ProjectId>,
)
    requires
        well_tracked(apps, projects, t),
        holds(t, items.to_multiset(), w),
        forall|i: int|
            0 <= i < apps.len() ==> (#[trigger] t.spot[i] == w <==> seated_in(
                apps,
                place_of(t),
                i,
            ) == target),
    ensures
        lists(apps, place_of(t), target, ids_of(items)),
{
    broadcast use vstd::multiset::group_multiset_axioms;

    let who = applicants_of(items);
    let ids = ids_of(items);
    let place = place_of(t);
    items.to_multiset_ensures();
    assert forall|k: int| 0 <= k < items.len() implies {
        &&& at((#[trigger] items[k]).applicant) < t.cur.len()
        &&& t.cur[at(items[k].applicant)] == items[k]
        &&& t.spot[at(items[k].applicant)] == w
    } by {
        assert(items.contains(items[k]));
        assert(items.to_multiset().count(items[k]) > 0);
    }
    assert forall|x: Claimant| items.to_multiset().contains(x) implies items.to_multiset().count(
        x,
    ) == 1 by {
        assert(items.to_multiset().count(x) > 0);
        assert(t.spot[at(x.applicant)] == w);
    }
    items.lemma_multiset_has_no_duplicates_conv();
    assert forall|k1: int, k2: int|
        0 <= k1 < who.len() && 0 <= k2 < who.len() && k1 != k2 implies who[k1] != who[k2] by {
        assert(items[k1] != items[k2]);
        assert(t.cur[at(items[k1].applicant)] == items[k1]);
        assert(t.cur[at(items[k2].applicant)] == items[k2]);
    }
    assert forall|k: int| 0 <= k < who.len() implies {
        &&& 0 <= #[trigger] who[k] < apps.len()
        &&& seated_in(apps, place, who[k]) == target
        &&& ids[k] == apps[who[k]].id
    } by {
        let i = who[k];
        assert(t.cur[at(items[k].applicant)] == items[k]);
        assert(tracked_one(apps, projects, t, i));
        assert(t.spot[i] == w);
    }
    assert forall|i: int|
        0 <= i < apps.len() && #[trigger] seated_in(apps, place, i) == target implies who.contains(
        i,
    ) by {
        assert(t.spot[i] == w);
        assert(items.to_multiset().count(t.cur[i]) == 1);
        assert(items.contains(t.cur[i]));
        let k = choose|k: int| 0 <= k < items.len() && items[k] == t.cur[i];
        assert(tracked_one(apps, projects, t, i));
        assert(who[k] == i);
    }
    assert(enumerates(apps, place, target, who, ids));
}

/// The lists of the first `k` projects are written: there is one for each
/// of their numbers, with the identifiers that the project's heap holds.
pub open spec fn written(
    projects: Seq<ProjectInfo>,
    heaps: Seq<BinaryHeap<Claimant, SeatOrder<'_>>>,
    k: int,
    assignments: Map<i32, Vec<ApplicantId>>,
) -> bool {
    &&& assignments.dom() =~= project_index(projects, k).dom()
    &&& forall|n: i32| #[trigger]
        assignments.contains_key(n) ==> assignments[n]@ == ids_of(
            heap_items(heaps[at(project_index(projects, k)[n])]),
        )
}

/// The lists of all the projects are written.
pub open spec fn written_all(
    projects: Seq<ProjectInfo>,
    heaps: Seq<BinaryHeap<Claimant, SeatOrder<'_>>>,
    assignments: Map<i32, Vec<ApplicantId>>,
) -> bool {
    written(projects, heaps, projects.len() as int, assignments)
}

/// Writes the result out: one list for each project number, read from the
/// project's heap, and the list of the applicants given up.
pub(crate) fn write_out(
    projects: &Vec<ProjectInfo>,
    heaps: &Vec<BinaryHeap<Claimant, SeatOrder<'_>>>,
    unassigned: Vec<ApplicantId>,
) -> (result: LotteryResult)
    requires
        heaps@.len() == projects@.len(),
    ensures
        result.unassigned@ == unassigned@,
        written_all(projects@, heaps@, result.assignments@),
{
    broadcast use vstd::std_specs::hash::group_hash_axioms;

    let mut assignments: HashMap<i32, Vec<ApplicantId>> = HashMap::new();
    let mut s: usize = 0;
    while s < projects.len()
        invariant
            s <= projects.len(),
            heaps@.len() == projects@.len(),
            written(projects@, heaps@, s as int, assignments@),
        decreases projects.len() - s,
    {
        let ids = heap_ids(&heaps[s]);
        proof {
            assert(ids@ =~= ids_of(heap_items(heaps@[s as int])));
        }
        assignments.insert(projects[s].id.0, ids);
        s += 1;
    }
    LotteryResult { assignments, unassigned }
}

} // verus!
