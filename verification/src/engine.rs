//! The engine: the loop that settles one applicant after another, and
//! `run_assignments`, the entry point that runs it on a configuration.

use crate::admission::{admission, Admission};
use crate::fairness::{
    displaces_none, in_progress, lemma_displaces, lemma_gives_up, lemma_moves_on, lemma_takes_seat,
    occupants,
};
use crate::finish::{lemma_listing, lemma_start, write_out, written_all};
use crate::model::{
    at, is_admissible, is_configured, lemma_seat_index, lined_up, next_of, seat_index, wish,
    ApplicantId, ApplicantInfo, Claimant, LotteryConfiguration, LotteryResult, ProjectId,
    ProjectInfo,
};
use crate::outcome::{
    describes, displaces_nobody, fits, is_outcome, is_placement, lists, passed_over,
    respects_capacity, seated_in, seated_list, seats_of,
};
use crate::progress::{
    asks_at, at_start, given_up, ids_of, is_full, lemma_owed_all_nonnegative, lemma_top_is_pending,
    moved, only_changed, owed_all, place_of, refused_upto, seat_ok, top_of, tracked_one, Spot,
    Track,
};
use crate::ranking::{is_callable, orders_totally, table_of};
use crate::seats::{
    heap_items, heap_len, heap_peek, heap_pop, heap_project, heap_push, heap_standing, new_heap,
    SeatOrder,
};
use crate::setup::{build_index, has_room, line_up};
use crate::steps::{budget, end_state, follows_the_steps, run, snapshot, start, step, writes_out};
use binary_heap_plus::BinaryHeap;
use std::cmp::Ordering;
use std::collections::HashMap;
use vstd::prelude::*;

verus! {

/// One empty heap for each project, in the order of the project list.
pub(crate) fn open_seats<'a, F: Fn(ProjectId, ApplicantId, ApplicantId) -> Ordering>(
    projects: &Vec<ProjectInfo>,
    f: &'a F,
) -> (heaps: Vec<BinaryHeap<Claimant, SeatOrder<'a>>>)
    requires
        is_callable(*f),
    ensures
        heaps@.len() == projects@.len(),
        forall|s: int|
            0 <= s < projects@.len() ==> {
                &&& heap_items(#[trigger] heaps@[s]) == Seq::<Claimant>::empty()
                &&& heap_project(heaps@[s]) == projects@[s].id
                &&& heap_standing(heaps@[s]) == table_of(*f)
            },
{
    let mut heaps: Vec<BinaryHeap<Claimant, SeatOrder<'a>>> = Vec::new();
    let mut s: usize = 0;
    while s < projects.len()
        invariant
            is_callable(*f),
            s <= projects.len(),
            heaps@.len() == s,
            forall|k: int|
                0 <= k < s ==> {
                    &&& heap_items(#[trigger] heaps@[k]) == Seq::<Claimant>::empty()
                    &&& heap_project(heaps@[k]) == projects@[k].id
                    &&& heap_standing(heaps@[k]) == table_of(*f)
                },
        decreases projects.len() - s,
    {
        heaps.push(new_heap(f, projects[s].id));
        s += 1;
    }
    heaps
}

/// One step of the engine: the applicant on top of the work stack asks for
/// its next wish, or is given up where it has none left.
pub(crate) fn settle<'a, F: Fn(ProjectId, ApplicantId, ApplicantId) -> Ordering>(
    apps: &Vec<ApplicantInfo>,
    projects: &Vec<ProjectInfo>,
    f: &'a F,
    index: &HashMap<i32, usize>,
    stack: &mut Vec<Claimant>,
    heaps: &mut Vec<BinaryHeap<Claimant, SeatOrder<'a>>>,
    unassigned: &mut Vec<ApplicantId>,
    Ghost(t): Ghost<Track>,
) -> (next: Ghost<Track>)
    requires
        is_admissible(apps@, projects@),
        is_callable(*f),
        index@ == seat_index(projects@),
        old(stack)@.len() > 0,
        in_progress(
            apps@,
            projects@,
            old(stack)@,
            old(heaps)@,
            old(unassigned)@,
            table_of(*f),
            t,
        ),
    ensures
        in_progress(
            apps@,
            projects@,
            final(stack)@,
            final(heaps)@,
            final(unassigned)@,
            table_of(*f),
            next@,
        ),
        owed_all(apps@, next@.cur) + final(stack)@.len() < owed_all(apps@, t.cur) + old(
            stack,
        )@.len(),
        table_of(*f) matches Some(tb) ==> snapshot(final(stack)@, final(heaps)@, final(unassigned)@)
            == step(apps@, projects@, tb, snapshot(old(stack)@, old(heaps)@, old(unassigned)@)),
{
    broadcast use vstd::std_specs::hash::group_hash_axioms;

    let last: usize = stack.len() - 1;
    let top: Claimant = stack[last];
    let ghost s0 = snapshot(stack@, heaps@, unassigned@);
    proof {
        assert(projects@.len() == projects.len());
        lemma_top_is_pending(stack@, t);
        assert(top == top_of(stack@));
        assert(tracked_one(apps@, projects@, t, at(top.applicant)));
        lemma_seat_index(projects@);
    }
    let wishes = &apps[top.applicant].preferences;
    if top.cursor >= wishes.len() {
        proof {
            lemma_gives_up(apps@, projects@, stack@, heaps@, unassigned@, table_of(*f), t);
        }
        unassigned.push(top.id);
        stack.pop();
        proof {
            if table_of(*f) is Some {
                let s1 = snapshot(stack@, heaps@, unassigned@);
                let s2 = step(apps@, projects@, table_of(*f)->0, s0);
                assert(s1.stack =~= s2.stack);
                assert(s1.seats =~= s2.seats);
                assert(s1.unassigned =~= s2.unassigned);
            }
        }
        return Ghost(given_up(t, top));
    }
    let p: ProjectId = wishes[top.cursor];
    proof {
        assert(p == wish(apps@, at(top.applicant), at(top.cursor)));
        assert(is_configured(projects@, p));
    }
    let found = index.get(&p.0);
    let slot: usize = *found.unwrap();
    let stepped = Claimant { id: top.id, applicant: top.applicant, cursor: top.cursor + 1 };
    let ghost before = heaps@;
    proof {
        assert(asks_at(apps@, projects@, stack@, at(slot), stepped));
        assert(seat_ok(projects@, before, table_of(*f), t, at(slot)));
    }
    let taken: usize = heap_len(&heaps[slot]);
    let seats: i32 = projects[slot].seats;
    let weakest = if has_room(taken, seats) {
        None
    } else {
        heap_peek(&heaps[slot])
    };
    let answer = match weakest {
        Some(w) => Some(f(p, top.id, w.id)),
        None => None,
    };
    match admission(taken, seats, answer) {
        Admission::FreeSeat => {
            heap_push(&mut heaps[slot], stepped);
            proof {
                assert(only_changed(before, heaps@, at(slot)));
                lemma_takes_seat(
                    apps@,
                    projects@,
                    stack@,
                    before,
                    heaps@,
                    unassigned@,
                    table_of(*f),
                    t,
                    at(slot),
                    stepped,
                );
            }
            stack.pop();
            proof {
                if table_of(*f) is Some {
                    let s1 = snapshot(stack@, heaps@, unassigned@);
                    let s2 = step(apps@, projects@, table_of(*f)->0, s0);
                    assert(stepped == next_of(top));
                    assert(s1.stack =~= s2.stack);
                    assert(s1.seats =~= s2.seats);
                }
            }
            Ghost(moved(t, at(top.applicant), stepped, Spot::Seated(at(slot))))
        },
        Admission::SeatOfWeakest => {
            let out = heap_pop(&mut heaps[slot]);
            heap_push(&mut heaps[slot], stepped);
            let w: Claimant = out.unwrap();
            proof {
                heap_items(before[at(slot)]).to_multiset_ensures();
                assert(heap_items(before[at(slot)]).contains(w));
                assert(only_changed(before, heaps@, at(slot)));
                lemma_displaces(
                    apps@,
                    projects@,
                    stack@,
                    before,
                    heaps@,
                    unassigned@,
                    table_of(*f),
                    t,
                    at(slot),
                    stepped,
                    w,
                );
            }
            stack[last] = w;
            proof {
                if table_of(*f) is Some {
                    let s1 = snapshot(stack@, heaps@, unassigned@);
                    let s2 = step(apps@, projects@, table_of(*f)->0, s0);
                    assert(stepped == next_of(top));
                    assert(s1.stack =~= s2.stack);
                    assert(s1.seats =~= s2.seats);
                }
            }
            Ghost(
                moved(
                    moved(t, at(top.applicant), stepped, Spot::Seated(at(slot))),
                    at(w.applicant),
                    w,
                    Spot::Pending,
                ),
            )
        },
        Admission::TurnedAway => {
            proof {
                lemma_moves_on(
                    apps@,
                    projects@,
                    stack@,
                    heaps@,
                    unassigned@,
                    table_of(*f),
                    t,
                    at(slot),
                    stepped,
                    weakest,
                );
            }
            stack[last] = stepped;
            proof {
                if table_of(*f) is Some {
                    let s1 = snapshot(stack@, heaps@, unassigned@);
                    let s2 = step(apps@, projects@, table_of(*f)->0, s0);
                    assert(stepped == next_of(top));
                    assert(s1.stack =~= s2.stack);
                    assert(s1.seats =~= s2.seats);
                }
            }
            Ghost(moved(t, at(top.applicant), stepped, Spot::Pending))
        },
    }
}

/// When the work stack is empty, the result written out from the heaps and
/// the given-up list is an outcome: it writes out the placement that the
/// bookkeeping stands for.
pub proof fn lemma_outcome(
    apps: Seq<ApplicantInfo>,
    projects: Seq<ProjectInfo>,
    heaps: Seq<BinaryHeap<Claimant, SeatOrder<'_>>>,
    unassigned: Seq<ApplicantId>,
    table: Option<Map<(ProjectId, ApplicantId, ApplicantId), Ordering>>,
    t: Track,
    result: LotteryResult,
)
    requires
        projects.len() <= usize::MAX,
        in_progress(apps, projects, Seq::<Claimant>::empty(), heaps, unassigned, table, t),
        result.unassigned@ == unassigned,
        written_all(projects, heaps, result.assignments@),
    ensures
        respects_capacity(projects, result),
        fits(apps, projects, table, place_of(t), result),
{
    broadcast use vstd::multiset::group_multiset_axioms;

    let place = place_of(t);
    lemma_seat_index(projects);
    Seq::<Claimant>::empty().to_multiset_ensures();
    assert forall|i: int| 0 <= i < apps.len() implies #[trigger] t.spot[i] != Spot::Pending by {
        if t.spot[i] == Spot::Pending {
            assert(Seq::<Claimant>::empty().to_multiset().count(t.cur[i]) == 1);
            assert(Seq::<Claimant>::empty().contains(t.cur[i]));
        }
    }
    assert forall|i: int| 0 <= i < apps.len() implies (#[trigger] place[i] matches Some(k) ==> 0
        <= k < apps[i].preferences@.len() && seat_index(projects).contains_key(
        wish(apps, i, k).0,
    )) by {
        assert(tracked_one(apps, projects, t, i));
    }
    assert(is_placement(apps, projects, place));
    // the given-up
    assert forall|i: int| 0 <= i < apps.len() implies (#[trigger] t.spot[i] == Spot::Unassigned
        <==> seated_in(apps, place, i) == None::<ProjectId>) by {
        assert(t.spot[i] != Spot::Pending);
    }
    lemma_listing(apps, projects, t, t.gone, Spot::Unassigned, None);
    assert(ids_of(t.gone) =~= unassigned);
    // the seats
    assert forall|n: i32| #[trigger] result.assignments@.contains_key(n) implies lists(
        apps,
        place,
        Some(ProjectId(n)),
        result.assignments@[n]@,
    ) && result.assignments@[n]@.len() <= seats_of(projects, n) by {
        assert(seat_index(projects).contains_key(n));
        let s = at(seat_index(projects)[n]);
        assert(seat_ok(projects, heaps, table, t, s));
        assert forall|i: int| 0 <= i < apps.len() implies (#[trigger] t.spot[i] == Spot::Seated(s)
            <==> seated_in(apps, place, i) == Some(ProjectId(n))) by {
            assert(tracked_one(apps, projects, t, i));
            assert(t.spot[i] != Spot::Pending);
        }
        lemma_listing(apps, projects, t, heap_items(heaps[s]), Spot::Seated(s), Some(ProjectId(n)));
    }
    assert(describes(apps, projects, place, result));
    assert forall|i: int, j: int|
        0 <= i < apps.len() && 0 <= j < passed_over(apps, place, i) implies {
        &&& result.assignments@.contains_key((#[trigger] wish(apps, i, j)).0)
        &&& result.assignments@[wish(apps, i, j).0]@.len() >= seats_of(projects, wish(apps, i, j).0)
    } by {
        assert(tracked_one(apps, projects, t, i));
        assert(t.spot[i] != Spot::Pending);
        assert(passed_over(apps, place, i) == refused_upto(t, i));
        assert(is_full(projects, heaps, wish(apps, i, j)));
    }
    if table is Some {
        let tb = table->0;
        assert forall|i: int, j: int|
            0 <= i < apps.len() && 0 <= j < passed_over(apps, place, i) && orders_totally(
                tb,
                #[trigger] wish(apps, i, j),
            ) implies displaces_nobody(
            tb,
            wish(apps, i, j),
            apps[i].id,
            seated_list(result, wish(apps, i, j)),
        ) by {
            let p = wish(apps, i, j);
            assert(tracked_one(apps, projects, t, i));
            assert(t.spot[i] != Spot::Pending);
            assert(passed_over(apps, place, i) == refused_upto(t, i));
            assert(is_full(projects, heaps, p));
            assert(result.assignments@.contains_key(p.0));
            let items = occupants(projects, heaps, p);
            assert(displaces_none(tb, p, apps[i].id, items));
            assert(seated_list(result, p) == ids_of(items));
            assert forall|k: int| 0 <= k < seated_list(result, p).len() implies tb[(
                p,
                apps[i].id,
                #[trigger] seated_list(result, p)[k],
            )] != Ordering::Greater by {
                assert(seated_list(result, p)[k] == items[k].id);
            }
        }
        assert forall|i: int| 0 <= i < apps.len() implies passed_over(apps, place, i)
            == refused_upto(t, i) by {
            assert(tracked_one(apps, projects, t, i));
            assert(t.spot[i] != Spot::Pending);
        }
    }
}

/// The engine on the parts of a configuration: lines the applicants up,
/// opens the seats, and settles the applicant on top of the stack until the
/// stack is empty.
pub(crate) fn assign<F: Fn(ProjectId, ApplicantId, ApplicantId) -> Ordering>(
    apps: &Vec<ApplicantInfo>,
    projects: &Vec<ProjectInfo>,
    f: &F,
) -> (result: LotteryResult)
    requires
        is_admissible(apps@, projects@),
        is_callable(*f),
    ensures
        is_outcome(apps@, projects@, table_of(*f), result),
        table_of(*f) matches Some(tb) ==> follows_the_steps(apps@, projects@, tb, result),
{
    let index = build_index(projects);
    let mut heaps = open_seats(projects, f);
    let mut stack = line_up(apps);
    let mut unassigned: Vec<ApplicantId> = Vec::new();
    let ghost mut t = at_start(stack@);
    let ghost mut fuel = budget(apps@);
    proof {
        assert(apps@.len() == apps.len());
        assert(projects@.len() == projects.len());
        assert(stack@ =~= lined_up(apps@));
        assert(snapshot(stack@, heaps@, unassigned@).seats =~= start(apps@, projects@).seats);
        assert(snapshot(stack@, heaps@, unassigned@) == start(apps@, projects@));
        lemma_start(apps@, projects@, stack@);
        assert forall|s: int| 0 <= s < projects@.len() implies #[trigger] seat_ok(
            projects@,
            heaps@,
            table_of(*f),
            t,
            s,
        ) by {
            assert(heap_items(heaps@[s]) == Seq::<Claimant>::empty());
        }
    }
    while stack.len() > 0
        invariant
            is_admissible(apps@, projects@),
            is_callable(*f),
            index@ == seat_index(projects@),
            in_progress(apps@, projects@, stack@, heaps@, unassigned@, table_of(*f), t),
            fuel >= owed_all(apps@, t.cur) + stack@.len(),
            table_of(*f) matches Some(tb) ==> end_state(apps@, projects@, tb) == run(
                apps@,
                projects@,
                tb,
                snapshot(stack@, heaps@, unassigned@),
                fuel,
            ),
        decreases owed_all(apps@, t.cur) + stack@.len(),
    {
        let ghost before = snapshot(stack@, heaps@, unassigned@);
        proof {
            assert forall|i: int| 0 <= i < t.cur.len() implies (#[trigger] t.cur[i]).cursor
                <= apps@[i].preferences@.len() by {
                assert(tracked_one(apps@, projects@, t, i));
            }
            lemma_owed_all_nonnegative(apps@, t.cur);
        }
        let next = settle(
            apps,
            projects,
            f,
            &index,
            &mut stack,
            &mut heaps,
            &mut unassigned,
            Ghost(t),
        );
        proof {
            t = next@;
            if table_of(*f) is Some {
                let tb = table_of(*f)->0;
                assert(run(apps@, projects@, tb, before, fuel) == run(
                    apps@,
                    projects@,
                    tb,
                    step(apps@, projects@, tb, before),
                    fuel - 1,
                ));
            }
            fuel = fuel - 1;
            assert forall|i: int| 0 <= i < t.cur.len() implies (#[trigger] t.cur[i]).cursor
                <= apps@[i].preferences@.len() by {
                assert(tracked_one(apps@, projects@, t, i));
            }
            lemma_owed_all_nonnegative(apps@, t.cur);
        }
    }
    let ghost listed = unassigned@;
    let result = write_out(projects, &heaps, unassigned);
    proof {
        assert(stack@ =~= Seq::<Claimant>::empty());
        lemma_outcome(apps@, projects@, heaps@, listed, table_of(*f), t, result);
        assert(fits(apps@, projects@, table_of(*f), place_of(t), result));
        if table_of(*f) is Some {
            let tb = table_of(*f)->0;
            let e = snapshot(stack@, heaps@, listed);
            assert(end_state(apps@, projects@, tb) == e);
            lemma_seat_index(projects@);
            assert(result.assignments@.dom() =~= seat_index(projects@).dom());
            assert forall|n: i32| #[trigger]
                result.assignments@.contains_key(n) implies result.assignments@[n]@ == ids_of(
                e.seats[at(seat_index(projects@)[n])],
            ) by {
                assert(seat_index(projects@).contains_key(n));
            }
            assert(writes_out(projects@, e, result));
        }
    }
    result
}

/// Assigns the applicants of `config` to its projects by deferred
/// acceptance. The applicants are taken from the end of the list; each asks
/// for its preferences in order, takes a free seat where there is one, and
/// takes the seat of the weakest occupant of a full project where the
/// comparator says that it is strictly stronger; the one that lost its seat
/// goes on with its own list.
///
/// The result is an outcome of the configuration: every applicant is in
/// exactly one of its lists, no project is over its capacity, and every
/// project that an applicant would rather have had is full.
pub fn run_assignments<F: Fn(ProjectId, ApplicantId, ApplicantId) -> Ordering>(
    config: &LotteryConfiguration<F>,
) -> (result: LotteryResult)
    requires
        is_admissible(config.applicants@, config.projects@),
        is_callable(config.ordering_fn),
    ensures
        is_outcome(config.applicants@, config.projects@, table_of(config.ordering_fn), result),
        table_of(config.ordering_fn) matches Some(tb) ==> follows_the_steps(
            config.applicants@,
            config.projects@,
            tb,
            result,
        ),
{
    assign(&config.applicants, &config.projects, &config.ordering_fn)
}

} // verus!
