//! Matchings of applicants to projects, and what makes one fair.

use crate::model::{seat_index, wish, ApplicantId, ApplicantInfo, ProjectId, ProjectInfo};
use crate::outcome::seats_of;
use crate::ranking::orders_strictly;
use std::cmp::Ordering;
use vstd::prelude::*;

verus! {

/// A matching gives some applicants a project each. In `mu`, applicant `a`
/// has a seat in `p`.
pub open spec fn holds_seat(mu: Map<ApplicantId, ProjectId>, a: ApplicantId, p: ProjectId) -> bool {
    mu.contains_key(a) && mu[a] == p
}

/// In `mu` every applicant named in `s` has a seat in `p`.
pub open spec fn all_hold(
    mu: Map<ApplicantId, ProjectId>,
    s: Seq<ApplicantId>,
    p: ProjectId,
) -> bool {
    forall|k: int| 0 <= k < s.len() ==> holds_seat(mu, #[trigger] s[k], p)
}

/// The matching seats in no configured project more applicants than the
/// project has seats.
pub open spec fn within_capacity(
    projects: Seq<ProjectInfo>,
    mu: Map<ApplicantId, ProjectId>,
) -> bool {
    forall|p: ProjectId, s: Seq<ApplicantId>|
        seat_index(projects).contains_key(p.0) && s.no_duplicates() && #[trigger] all_hold(mu, s, p)
            ==> s.len() <= seats_of(projects, p.0)
}

/// Applicant `i` would rather have the project of its slot `j` than what
/// `mu` gives it: `mu` gives it none of its wishes up to that slot.
pub open spec fn would_rather(
    apps: Seq<ApplicantInfo>,
    i: int,
    j: int,
    mu: Map<ApplicantId, ProjectId>,
) -> bool {
    forall|k: int| 0 <= k <= j ==> !holds_seat(mu, apps[i].id, #[trigger] wish(apps, i, k))
}

/// Nobody has cause for envy: whoever would rather have a project is not
/// strictly stronger, for that project, than anybody seated there.
pub open spec fn without_envy(
    apps: Seq<ApplicantInfo>,
    t: Map<(ProjectId, ApplicantId, ApplicantId), Ordering>,
    mu: Map<ApplicantId, ProjectId>,
) -> bool {
    forall|i: int, j: int, c: ApplicantId|
        0 <= i < apps.len() && 0 <= j < apps[i].preferences@.len() && #[trigger] would_rather(
            apps,
            i,
            j,
            mu,
        ) && #[trigger] holds_seat(mu, c, wish(apps, i, j)) ==> t[(wish(apps, i, j), apps[i].id, c)]
            != Ordering::Greater
}

/// A fair matching keeps to the capacities and gives nobody cause for envy.
pub open spec fn is_fair(
    apps: Seq<ApplicantInfo>,
    projects: Seq<ProjectInfo>,
    t: Map<(ProjectId, ApplicantId, ApplicantId), Ordering>,
    mu: Map<ApplicantId, ProjectId>,
) -> bool {
    &&& within_capacity(projects, mu)
    &&& without_envy(apps, t, mu)
}

/// No two applicants share an identifier.
pub open spec fn distinct_ids(apps: Seq<ApplicantInfo>) -> bool {
    forall|i: int, j: int|
        0 <= i < apps.len() && 0 <= j < apps.len() && i != j ==> (#[trigger] apps[i]).id
            != (#[trigger] apps[j]).id
}

/// The table is a strict total order for every configured project.
pub open spec fn strict_everywhere(
    projects: Seq<ProjectInfo>,
    t: Map<(ProjectId, ApplicantId, ApplicantId), Ordering>,
) -> bool {
    forall|s: int| 0 <= s < projects.len() ==> orders_strictly(t, (#[trigger] projects[s]).id)
}

/// The position of the applicant with identifier `a` that has a seat in the
/// placement.
pub open spec fn seat_holder(
    apps: Seq<ApplicantInfo>,
    place: Seq<Option<int>>,
    a: ApplicantId,
) -> int {
    choose|i: int| 0 <= i < apps.len() && apps[i].id == a && place[i] is Some
}

/// The placement as a matching: every seated applicant has the project of
/// its seat.
pub open spec fn matching_of(apps: Seq<ApplicantInfo>, place: Seq<Option<int>>) -> Map<
    ApplicantId,
    ProjectId,
> {
    Map::new(
        |a: ApplicantId| exists|i: int| 0 <= i < apps.len() && apps[i].id == a && place[i] is Some,
        |a: ApplicantId|
            wish(apps, seat_holder(apps, place, a), place[seat_holder(apps, place, a)]->0),
    )
}

/// Where no two applicants share an identifier, the matching of a placement
/// seats exactly the seated applicants, each in the project of its seat.
pub proof fn lemma_matching_of(apps: Seq<ApplicantInfo>, place: Seq<Option<int>>)
    requires
        distinct_ids(apps),
        place.len() == apps.len(),
    ensures
        forall|i: int|
            0 <= i < apps.len() ==> (match #[trigger] place[i] {
                Some(k) => holds_seat(matching_of(apps, place), apps[i].id, wish(apps, i, k)),
                None => !matching_of(apps, place).contains_key(apps[i].id),
            }),
        forall|c: ApplicantId| #[trigger]
            matching_of(apps, place).contains_key(c) ==> {
                let i = seat_holder(apps, place, c);
                &&& 0 <= i < apps.len()
                &&& apps[i].id == c
                &&& place[i] is Some
                &&& matching_of(apps, place)[c] == wish(apps, i, place[i]->0)
            },
{
    let mu = matching_of(apps, place);
    assert forall|i: int| 0 <= i < apps.len() implies (match #[trigger] place[i] {
        Some(k) => holds_seat(mu, apps[i].id, wish(apps, i, k)),
        None => !mu.contains_key(apps[i].id),
    }) by {
        let a = apps[i].id;
        match place[i] {
            Some(k) => {
                assert(mu.contains_key(a));
                let h = seat_holder(apps, place, a);
                assert(0 <= h < apps.len() && apps[h].id == a && place[h] is Some);
                assert(h == i);
            },
            None => {
                if mu.contains_key(a) {
                    let h = seat_holder(apps, place, a);
                    assert(0 <= h < apps.len() && apps[h].id == a && place[h] is Some);
                    assert(h == i);
                }
            },
        }
    }
}

} // verus!
