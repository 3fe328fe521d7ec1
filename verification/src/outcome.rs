//! What a result has to be like to be an outcome of a configuration.

use crate::matching::{distinct_ids, holds_seat, is_fair, strict_everywhere};
use crate::model::{
    seat_index, wish, ApplicantId, ApplicantInfo, LotteryResult, ProjectId, ProjectInfo,
};
use crate::ranking::orders_totally;
use std::cmp::Ordering;
use vstd::prelude::*;

verus! {

/// A placement gives each applicant, by position in the applicant list, the
/// slot of its preference list at which it is seated, or `None`. A seat is
/// a slot of the applicant's own list that names a configured project.
pub open spec fn is_placement(
    apps: Seq<ApplicantInfo>,
    projects: Seq<ProjectInfo>,
    place: Seq<Option<int>>,
) -> bool {
    &&& place.len() == apps.len()
    &&& forall|i: int|
        0 <= i < apps.len() ==> (#[trigger] place[i] matches Some(k) ==> 0 <= k
            < apps[i].preferences@.len() && seat_index(projects).contains_key(wish(apps, i, k).0))
}

/// The project in which the placement seats applicant `i`.
pub open spec fn seated_in(apps: Seq<ApplicantInfo>, place: Seq<Option<int>>, i: int) -> Option<
    ProjectId,
> {
    match place[i] {
        Some(k) => Some(wish(apps, i, k)),
        None => None,
    }
}

/// `who` names, each once, the applicants that the placement puts at
/// `target`, and `ids` gives their identifiers in the same order.
pub open spec fn enumerates(
    apps: Seq<ApplicantInfo>,
    place: Seq<Option<int>>,
    target: Option<ProjectId>,
    who: Seq<int>,
    ids: Seq<ApplicantId>,
) -> bool {
    &&& who.len() == ids.len()
    &&& who.no_duplicates()
    &&& forall|k: int|
        0 <= k < who.len() ==> {
            &&& 0 <= #[trigger] who[k] < apps.len()
            &&& seated_in(apps, place, who[k]) == target
            &&& ids[k] == apps[who[k]].id
        }
    &&& forall|i: int|
        0 <= i < apps.len() && #[trigger] seated_in(apps, place, i) == target ==> who.contains(i)
}

/// `ids` lists the applicants that the placement puts at `target`: all of
/// them, each once, and nobody else.
pub open spec fn lists(
    apps: Seq<ApplicantInfo>,
    place: Seq<Option<int>>,
    target: Option<ProjectId>,
    ids: Seq<ApplicantId>,
) -> bool {
    exists|who: Seq<int>| enumerates(apps, place, target, who, ids)
}

/// The result is the placement written out: `unassigned` lists the
/// applicants without a seat, and there is one list for each configured
/// project number, which lists the applicants seated in that project.
pub open spec fn describes(
    apps: Seq<ApplicantInfo>,
    projects: Seq<ProjectInfo>,
    place: Seq<Option<int>>,
    result: LotteryResult,
) -> bool {
    &&& is_placement(apps, projects, place)
    &&& lists(apps, place, None, result.unassigned@)
    &&& result.assignments@.dom() =~= seat_index(projects).dom()
    &&& forall|n: i32| #[trigger]
        result.assignments@.contains_key(n) ==> lists(
            apps,
            place,
            Some(ProjectId(n)),
            result.assignments@[n]@,
        )
}

/// The number of seats of the project with number `n`.
pub open spec fn seats_of(projects: Seq<ProjectInfo>, n: i32) -> int {
    projects[seat_index(projects)[n] as int].seats as int
}

/// No project holds more applicants than it has seats.
pub open spec fn respects_capacity(projects: Seq<ProjectInfo>, result: LotteryResult) -> bool {
    forall|n: i32| #[trigger]
        result.assignments@.contains_key(n) ==> result.assignments@[n]@.len() <= seats_of(
            projects,
            n,
        )
}

/// The number of leading slots that the placement passes over for applicant
/// `i`: those before its seat, or all of them where it has none.
pub open spec fn passed_over(apps: Seq<ApplicantInfo>, place: Seq<Option<int>>, i: int) -> int {
    match place[i] {
        Some(k) => k,
        None => apps[i].preferences@.len() as int,
    }
}

/// No seat is wasted: every project that an applicant ranks before its own
/// seat, or ranks at all where it has none, is full.
pub open spec fn wastes_no_seat(
    apps: Seq<ApplicantInfo>,
    projects: Seq<ProjectInfo>,
    place: Seq<Option<int>>,
    result: LotteryResult,
) -> bool {
    forall|i: int, j: int|
        0 <= i < apps.len() && 0 <= j < passed_over(apps, place, i) ==> {
            &&& result.assignments@.contains_key((#[trigger] wish(apps, i, j)).0)
            &&& result.assignments@[wish(apps, i, j).0]@.len() >= seats_of(
                projects,
                wish(apps, i, j).0,
            )
        }
}

/// The applicants that the result seats in project `p`.
pub open spec fn seated_list(result: LotteryResult, p: ProjectId) -> Seq<ApplicantId> {
    result.assignments@[p.0]@
}

/// For project `p`, applicant `a` is not strictly stronger than anybody in
/// `list`.
pub open spec fn displaces_nobody(
    tb: Map<(ProjectId, ApplicantId, ApplicantId), Ordering>,
    p: ProjectId,
    a: ApplicantId,
    list: Seq<ApplicantId>,
) -> bool {
    forall|k: int| 0 <= k < list.len() ==> tb[(p, a, #[trigger] list[k])] != Ordering::Greater
}

/// Nobody seated can be displaced by somebody who would rather have the
/// seat: an applicant is not strictly stronger than anybody seated in a
/// project that it ranks before its own seat, or ranks at all where it has
/// none. This is stated of the projects that the table orders totally.
pub open spec fn envy_free(
    apps: Seq<ApplicantInfo>,
    tb: Map<(ProjectId, ApplicantId, ApplicantId), Ordering>,
    place: Seq<Option<int>>,
    result: LotteryResult,
) -> bool {
    forall|i: int, j: int|
        0 <= i < apps.len() && 0 <= j < passed_over(apps, place, i) && orders_totally(
            tb,
            #[trigger] wish(apps, i, j),
        ) ==> displaces_nobody(
            tb,
            wish(apps, i, j),
            apps[i].id,
            seated_list(result, wish(apps, i, j)),
        )
}

/// The placement is the best that is fair: no fair matching gives an
/// applicant a project that it ranks before its own seat, or any project of
/// its list where it has no seat.
pub open spec fn best_of_the_fair(
    apps: Seq<ApplicantInfo>,
    projects: Seq<ProjectInfo>,
    tb: Map<(ProjectId, ApplicantId, ApplicantId), Ordering>,
    place: Seq<Option<int>>,
) -> bool {
    forall|mu: Map<ApplicantId, ProjectId>, i: int, j: int|
        is_fair(apps, projects, tb, mu) && 0 <= i < apps.len() && 0 <= j < passed_over(
            apps,
            place,
            i,
        ) ==> !#[trigger] holds_seat(mu, apps[i].id, wish(apps, i, j))
}

/// The result is what the placement says, and the placement wastes no seat.
/// Where the comparator is a function with table `tb`, the placement gives
/// nobody cause for envy in the projects that the table orders totally; and
/// where no two applicants share an identifier and the table orders every
/// project strictly, it is the best that is fair.
pub open spec fn fits(
    apps: Seq<ApplicantInfo>,
    projects: Seq<ProjectInfo>,
    table: Option<Map<(ProjectId, ApplicantId, ApplicantId), Ordering>>,
    place: Seq<Option<int>>,
    result: LotteryResult,
) -> bool {
    &&& describes(apps, projects, place, result)
    &&& wastes_no_seat(apps, projects, place, result)
    &&& table matches Some(tb) ==> {
        &&& envy_free(apps, tb, place, result)
        &&& distinct_ids(apps) && strict_everywhere(projects, tb) ==> best_of_the_fair(
            apps,
            projects,
            tb,
            place,
        )
    }
}

/// The result is an outcome of the configuration under the comparator with
/// the given table: no project is over its capacity, and the result writes
/// out a placement of the applicants that fits.
pub open spec fn is_outcome(
    apps: Seq<ApplicantInfo>,
    projects: Seq<ProjectInfo>,
    table: Option<Map<(ProjectId, ApplicantId, ApplicantId), Ordering>>,
    result: LotteryResult,
) -> bool {
    &&& respects_capacity(projects, result)
    &&& exists|place: Seq<Option<int>>| fits(apps, projects, table, place, result)
}

} // verus!
