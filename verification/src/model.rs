//! The data of a run: applicants, projects, configuration and result, and
//! the lookup table from project numbers to projects.

use std::collections::HashMap;
use vstd::prelude::*;

verus! {

/// Identifies one applicant.
#[derive(Debug, Clone, Copy, PartialEq, Eq, Hash, Structural)]
pub struct ApplicantId(pub i32);

/// Identifies one project.
#[derive(Debug, Clone, Copy, PartialEq, Eq, Hash, Structural)]
pub struct ProjectId(pub i32);

/// An applicant and the projects it asks for, most preferred first.
///
/// A project may occur more than once in the list; each occurrence is a
/// ranking slot of its own.
#[derive(Debug, Clone)]
pub struct ApplicantInfo {
    pub id: ApplicantId,
    pub preferences: Vec<ProjectId>,
}

/// A project and the number of applicants it can hold at once.
#[derive(Debug, Clone)]
pub struct ProjectInfo {
    pub id: ProjectId,
    pub seats: i32,
}

/// The input of one run: who applies, what can be applied for, and the
/// comparator `ordering_fn(project, a, b)` that says how `a` stands against
/// `b` for a seat in `project` (`Greater`: `a` is the stronger one).
#[derive(Debug, Clone)]
pub struct LotteryConfiguration<F> {
    pub applicants: Vec<ApplicantInfo>,
    pub projects: Vec<ProjectInfo>,
    pub ordering_fn: F,
}

/// The output of one run. `assignments` is keyed by the number inside the
/// project's identifier and lists the applicants seated there, in no
/// particular order; `unassigned` lists those who ran out of preferences, in
/// the order in which that was found out.
#[derive(Debug)]
pub struct LotteryResult {
    pub assignments: HashMap<i32, Vec<ApplicantId>>,
    pub unassigned: Vec<ApplicantId>,
}

/// An applicant on its way through its preference list: `applicant` is its
/// position in the configured list, `cursor` the slot it will ask for next.
#[derive(Debug, Clone, Copy)]
pub struct Claimant {
    pub id: ApplicantId,
    pub applicant: usize,
    pub cursor: usize,
}

/// The claimant one slot further down its list.
pub open spec fn next_of(c: Claimant) -> Claimant {
    Claimant { id: c.id, applicant: c.applicant, cursor: (c.cursor + 1) as usize }
}

/// The applicants as they stand on the work stack at the start: in the
/// configured order, each with its cursor on its first preference.
pub open spec fn lined_up(apps: Seq<ApplicantInfo>) -> Seq<Claimant> {
    Seq::new(
        apps.len(),
        |i: int| Claimant { id: apps[i].id, applicant: i as usize, cursor: 0 },
    )
}

/// A machine index as a mathematical integer.
pub open spec fn at(i: usize) -> int {
    i as int
}

/// The project that applicant `i` names in slot `j` of its list.
pub open spec fn wish(apps: Seq<ApplicantInfo>, i: int, j: int) -> ProjectId {
    apps[i].preferences@[j]
}

/// Some entry of the project list has the identifier `p`.
pub open spec fn is_configured(projects: Seq<ProjectInfo>, p: ProjectId) -> bool {
    exists|s: int| 0 <= s < projects.len() && (#[trigger] projects[s]).id == p
}

/// What the engine asks of its input: no project has a negative number of
/// seats, and every preference names a configured project.
pub open spec fn is_admissible(apps: Seq<ApplicantInfo>, projects: Seq<ProjectInfo>) -> bool {
    &&& forall|s: int| 0 <= s < projects.len() ==> (#[trigger] projects[s]).seats >= 0
    &&& forall|i: int, j: int|
        0 <= i < apps.len() && 0 <= j < apps[i].preferences@.len() ==> is_configured(
            projects,
            #[trigger] wish(apps, i, j),
        )
}

/// The lookup table from project numbers to positions in the first `k`
/// entries of `projects`. Of two entries with one number the later one wins.
pub open spec fn project_index(projects: Seq<ProjectInfo>, k: int) -> Map<i32, usize>
    decreases k,
{
    if k <= 0 {
        Map::empty()
    } else {
        project_index(projects, k - 1).insert(projects[k - 1].id.0, (k - 1) as usize)
    }
}

/// The lookup table of the whole project list.
pub open spec fn seat_index(projects: Seq<ProjectInfo>) -> Map<i32, usize> {
    project_index(projects, projects.len() as int)
}

/// Every entry of the lookup table points at a project with that number, and
/// every configured number has an entry.
pub proof fn lemma_project_index(projects: Seq<ProjectInfo>, k: int)
    requires
        0 <= k <= projects.len(),
        projects.len() <= usize::MAX,
    ensures
        forall|n: i32| #[trigger]
            project_index(projects, k).contains_key(n) ==> {
                &&& project_index(projects, k)[n] < k
                &&& projects[project_index(projects, k)[n] as int].id.0 == n
            },
        forall|s: int|
            0 <= s < k ==> project_index(projects, k).contains_key(#[trigger] projects[s].id.0),
    decreases k,
{
    if k > 0 {
        lemma_project_index(projects, k - 1);
        let before = project_index(projects, k - 1);
        let after = project_index(projects, k);
        assert(after == before.insert(projects[k - 1].id.0, (k - 1) as usize));
        assert forall|n: i32| #[trigger] after.contains_key(n) implies after[n] < k
            && projects[after[n] as int].id.0 == n by {
            if n != projects[k - 1].id.0 {
                assert(before.contains_key(n));
            }
        }
        assert forall|s: int| 0 <= s < k implies after.contains_key(
            #[trigger] projects[s].id.0,
        ) by {
            if s < k - 1 {
                assert(before.contains_key(projects[s].id.0));
            }
        }
    }
}

/// Every entry of the whole lookup table points at a project with that
/// number, and every configured number has an entry.
pub proof fn lemma_seat_index(projects: Seq<ProjectInfo>)
    requires
        projects.len() <= usize::MAX,
    ensures
        forall|n: i32| #[trigger]
            seat_index(projects).contains_key(n) ==> {
                &&& at(seat_index(projects)[n]) < projects.len()
                &&& projects[at(seat_index(projects)[n])].id.0 == n
            },
        forall|s: int|
            0 <= s < projects.len() ==> seat_index(projects).contains_key(
                #[trigger] projects[s].id.0,
            ),
{
    lemma_project_index(projects, projects.len() as int);
}

} // verus!
