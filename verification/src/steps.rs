//! The engine as a function on plain values: its state, one step, and the
//! state in which it ends.

use crate::model::{
    at, lined_up, next_of, seat_index, wish, ApplicantId, ApplicantInfo, Claimant, LotteryResult,
    ProjectId, ProjectInfo,
};
use crate::progress::{ids_of, owed_all, top_of};
use crate::seats::{heap_items, heap_popped, heap_pushed, SeatOrder};
use binary_heap_plus::BinaryHeap;
use std::cmp::Ordering;
use vstd::prelude::*;

verus! {

/// The engine's state as plain values: the work stack with its top at the
/// end, what each project's heap holds, and the applicants given up so far.
pub struct State {
    pub stack: Seq<Claimant>,
    pub seats: Seq<Seq<Claimant>>,
    pub unassigned: Seq<ApplicantId>,
}

/// The state at the start: everybody lined up, every heap empty.
pub open spec fn start(apps: Seq<ApplicantInfo>, projects: Seq<ProjectInfo>) -> State {
    State {
        stack: lined_up(apps),
        seats: Seq::new(projects.len(), |s: int| Seq::<Claimant>::empty()),
        unassigned: Seq::empty(),
    }
}

/// One step of the engine under a comparator with table `tb`. The applicant
/// on top of the stack is given up if it has no wish left. Otherwise it asks
/// for its next wish: it takes a seat if the project has room; it takes the
/// seat of the occupant on top of the project's heap, which takes its place
/// on the stack, if the table makes it strictly stronger than that one; and
/// else it stays on the stack, one slot further down its list.
pub open spec fn step(
    apps: Seq<ApplicantInfo>,
    projects: Seq<ProjectInfo>,
    tb: Map<(ProjectId, ApplicantId, ApplicantId), Ordering>,
    s: State,
) -> State {
    let top = top_of(s.stack);
    let i = at(top.applicant);
    let last = s.stack.len() - 1;
    if top.cursor >= apps[i].preferences@.len() {
        State { stack: s.stack.drop_last(), seats: s.seats, unassigned: s.unassigned.push(top.id) }
    } else {
        let p = wish(apps, i, at(top.cursor));
        let slot = at(seat_index(projects)[p.0]);
        let here = projects[slot].id;
        let items = s.seats[slot];
        if items.len() < projects[slot].seats {
            State {
                stack: s.stack.drop_last(),
                seats: s.seats.update(slot, heap_pushed(items, next_of(top), here, tb)),
                unassigned: s.unassigned,
            }
        } else if items.len() > 0 && tb[(p, top.id, items[0].id)] == Ordering::Greater {
            State {
                stack: s.stack.update(last, items[0]),
                seats: s.seats.update(
                    slot,
                    heap_pushed(heap_popped(items, here, tb), next_of(top), here, tb),
                ),
                unassigned: s.unassigned,
            }
        } else {
            State {
                stack: s.stack.update(last, next_of(top)),
                seats: s.seats,
                unassigned: s.unassigned,
            }
        }
    }
}

/// The state after the engine has run from `s` until the stack is empty, or
/// for `fuel` steps if that comes first.
pub open spec fn run(
    apps: Seq<ApplicantInfo>,
    projects: Seq<ProjectInfo>,
    tb: Map<(ProjectId, ApplicantId, ApplicantId), Ordering>,
    s: State,
    fuel: int,
) -> State
    decreases fuel,
{
    if fuel <= 0 || s.stack.len() == 0 {
        s
    } else {
        run(apps, projects, tb, step(apps, projects, tb, s), fuel - 1)
    }
}

/// A number of steps that is enough to empty the stack: one for each
/// preference and one more for each applicant.
pub open spec fn budget(apps: Seq<ApplicantInfo>) -> int {
    owed_all(apps, lined_up(apps)) + apps.len()
}

/// The state in which the engine ends on a configuration under a comparator
/// with table `tb`.
pub open spec fn end_state(
    apps: Seq<ApplicantInfo>,
    projects: Seq<ProjectInfo>,
    tb: Map<(ProjectId, ApplicantId, ApplicantId), Ordering>,
) -> State {
    run(apps, projects, tb, start(apps, projects), budget(apps))
}

/// The result is the state `e` written out: the applicants given up in
/// their order, and for each project number the identifiers that the
/// project's heap holds, in the heap's order.
pub open spec fn writes_out(projects: Seq<ProjectInfo>, e: State, result: LotteryResult) -> bool {
    &&& result.unassigned@ == e.unassigned
    &&& result.assignments@.dom() == seat_index(projects).dom()
    &&& forall|n: i32| #[trigger]
        result.assignments@.contains_key(n) ==> result.assignments@[n]@ == ids_of(
            e.seats[at(seat_index(projects)[n])],
        )
}

/// The result is what the engine's steps lead to, under a comparator with
/// table `tb`.
pub open spec fn follows_the_steps(
    apps: Seq<ApplicantInfo>,
    projects: Seq<ProjectInfo>,
    tb: Map<(ProjectId, ApplicantId, ApplicantId), Ordering>,
    result: LotteryResult,
) -> bool {
    writes_out(projects, end_state(apps, projects, tb), result)
}

/// The engine's state as plain values.
pub open spec fn snapshot(
    stack: Seq<Claimant>,
    heaps: Seq<BinaryHeap<Claimant, SeatOrder<'_>>>,
    unassigned: Seq<ApplicantId>,
) -> State {
    State { stack, seats: Seq::new(heaps.len(), |s: int| heap_items(heaps[s])), unassigned }
}

} // verus!
