//! Getting ready: the lookup table, the work stack, and the check of the
//! configuration.

use crate::model::{
    is_admissible, is_configured, lemma_seat_index, project_index, seat_index, wish,
    ApplicantInfo, Claimant, ProjectInfo,
};
use std::collections::HashMap;
use vstd::prelude::*;

verus! {

/// Builds the lookup table from project numbers to positions in `projects`.
pub fn build_index(projects: &Vec<ProjectInfo>) -> (index: HashMap<i32, usize>)
    ensures
        index@ == seat_index(projects@),
{
    broadcast use vstd::std_specs::hash::group_hash_axioms;

    let mut index: HashMap<i32, usize> = HashMap::new();
    let mut s: usize = 0;
    while s < projects.len()
        invariant
            s <= projects.len(),
            index@ == project_index(projects@, s as int),
        decreases projects.len() - s,
    {
        index.insert(projects[s].id.0, s);
        s += 1;
    }
    index
}

/// The work stack at the start: every applicant, in the configured order,
/// with its cursor on its first preference.
pub fn line_up(apps: &Vec<ApplicantInfo>) -> (stack: Vec<Claimant>)
    ensures
        stack@.len() == apps@.len(),
        forall|i: int|
            0 <= i < apps@.len() ==> #[trigger] stack@[i] == (Claimant {
                id: apps@[i].id,
                applicant: i as usize,
                cursor: 0,
            }),
{
    let mut stack: Vec<Claimant> = Vec::new();
    let mut i: usize = 0;
    while i < apps.len()
        invariant
            i <= apps.len(),
            stack@.len() == i,
            forall|k: int|
                0 <= k < i ==> #[trigger] stack@[k] == (Claimant {
                    id: apps@[k].id,
                    applicant: k as usize,
                    cursor: 0,
                }),
        decreases apps.len() - i,
    {
        stack.push(Claimant { id: apps[i].id, applicant: i, cursor: 0 });
        i += 1;
    }
    stack
}

/// Whether a project with `seats` seats, `taken` of them occupied, has room.
pub fn has_room(taken: usize, seats: i32) -> (yes: bool)
    ensures
        yes == (taken < seats),
{
    seats > 0 && taken < seats as usize
}

/// Whether the engine can take this input: no project has a negative number
/// of seats, and every preference names a configured project.
pub fn check_configuration(apps: &Vec<ApplicantInfo>, projects: &Vec<ProjectInfo>) -> (ok: bool)
    ensures
        ok == is_admissible(apps@, projects@),
{
    broadcast use vstd::std_specs::hash::group_hash_axioms;

    let count: usize = projects.len();
    let mut s: usize = 0;
    while s < count
        invariant
            count == projects@.len(),
            s <= count,
            forall|k: int| 0 <= k < s ==> (#[trigger] projects@[k]).seats >= 0,
        decreases count - s,
    {
        if projects[s].seats < 0 {
            return false;
        }
        s += 1;
    }
    let index = build_index(projects);
    proof {
        lemma_seat_index(projects@);
    }
    let mut i: usize = 0;
    while i < apps.len()
        invariant
            i <= apps.len(),
            index@ == seat_index(projects@),
            projects@.len() <= usize::MAX,
            forall|k: int| 0 <= k < projects@.len() ==> (#[trigger] projects@[k]).seats >= 0,
            forall|a: int, j: int|
                0 <= a < i && 0 <= j < apps@[a].preferences@.len() ==> is_configured(
                    projects@,
                    #[trigger] wish(apps@, a, j),
                ),
        decreases apps.len() - i,
    {
        let wishes = &apps[i].preferences;
        let mut j: usize = 0;
        while j < wishes.len()
            invariant
                j <= wishes.len(),
                i < apps.len(),
                wishes@ == apps@[i as int].preferences@,
                index@ == seat_index(projects@),
                projects@.len() <= usize::MAX,
                forall|k: int|
                    0 <= k < j ==> is_configured(projects@, #[trigger] wish(apps@, i as int, k)),
            decreases wishes.len() - j,
        {
            let known = index.contains_key(&wishes[j].0);
            proof {
                lemma_seat_index(projects@);
                let p = wish(apps@, i as int, j as int);
                if known {
                    let at = seat_index(projects@)[p.0] as int;
                    assert(projects@[at].id == p);
                } else {
                    if is_configured(projects@, p) {
                        let at = choose|at: int|
                            0 <= at < projects@.len() && (#[trigger] projects@[at]).id == p;
                        assert(seat_index(projects@).contains_key(projects@[at].id.0));
                    }
                }
            }
            if !known {
                return false;
            }
            j += 1;
        }
        i += 1;
    }
    true
}

} // verus!
