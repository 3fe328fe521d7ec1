//! What the refusals made so far mean for the applicants refused: nobody
//! seated is weaker than one turned away, and no fair matching could have
//! done better by one turned away. These are the parts of the engine's
//! invariant that depend on the comparator.

use crate::matching::{
    all_hold, distinct_ids, holds_seat, is_fair, strict_everywhere, would_rather,
};
use crate::model::{
    at, lemma_seat_index, seat_index, wish, ApplicantId, ApplicantInfo, Claimant, ProjectId,
    ProjectInfo,
};
use crate::outcome::seats_of;
use crate::progress::{
    asks_at, given_up, holds, ids_of, in_order, is_full, lemma_displace, lemma_give_up,
    lemma_move_on, lemma_take_seat, lemma_top_is_pending, moved, only_changed, owed_all,
    refused_upto, seat_ok, top_of, tracked_one, well_tracked, Spot, Track,
};
use crate::ranking::{orders_strictly, orders_totally};
use crate::seats::{first_of, heap_items, SeatOrder};
use binary_heap_plus::BinaryHeap;
use std::cmp::Ordering;
use vstd::prelude::*;

verus! {

/// For project `p`, applicant `a` is not strictly stronger than any of
/// `items`.
pub open spec fn displaces_none(
    tb: Map<(ProjectId, ApplicantId, ApplicantId), Ordering>,
    p: ProjectId,
    a: ApplicantId,
    items: Seq<Claimant>,
) -> bool {
    forall|k: int|
        0 <= k < items.len() ==> tb[(p, a, (#[trigger] items[k]).id)] != Ordering::Greater
}

/// For project `p`, none of `items` is weaker than `w`.
pub open spec fn is_weakest(
    tb: Map<(ProjectId, ApplicantId, ApplicantId), Ordering>,
    p: ProjectId,
    items: Seq<Claimant>,
    w: Claimant,
) -> bool {
    forall|k: int|
        0 <= k < items.len() ==> tb[(p, (#[trigger] items[k]).id, w.id)] != Ordering::Less
}

/// The occupants of the project `p`.
pub open spec fn occupants(
    projects: Seq<ProjectInfo>,
    heaps: Seq<BinaryHeap<Claimant, SeatOrder<'_>>>,
    p: ProjectId,
) -> Seq<Claimant> {
    heap_items(heaps[at(seat_index(projects)[p.0])])
}

/// Where an applicant has been refused by a project that the table orders
/// totally, it is not strictly stronger than any occupant of that project.
pub open spec fn envy_free_so_far(
    apps: Seq<ApplicantInfo>,
    projects: Seq<ProjectInfo>,
    heaps: Seq<BinaryHeap<Claimant, SeatOrder<'_>>>,
    tb: Map<(ProjectId, ApplicantId, ApplicantId), Ordering>,
    t: Track,
) -> bool {
    forall|i: int, j: int|
        0 <= i < apps.len() && 0 <= j < refused_upto(t, i) && orders_totally(
            tb,
            #[trigger] wish(apps, i, j),
        ) ==> displaces_none(
            tb,
            wish(apps, i, j),
            apps[i].id,
            occupants(projects, heaps, wish(apps, i, j)),
        )
}

/// No fair matching gives an applicant a project that has refused it.
pub open spec fn beyond_reach(
    apps: Seq<ApplicantInfo>,
    projects: Seq<ProjectInfo>,
    tb: Map<(ProjectId, ApplicantId, ApplicantId), Ordering>,
    t: Track,
) -> bool {
    forall|mu: Map<ApplicantId, ProjectId>, i: int, j: int|
        is_fair(apps, projects, tb, mu) && 0 <= i < apps.len() && 0 <= j < refused_upto(t, i)
            ==> !#[trigger] holds_seat(mu, apps[i].id, wish(apps, i, j))
}

/// What the refusals so far mean where the comparator is a function.
pub open spec fn fair_so_far(
    apps: Seq<ApplicantInfo>,
    projects: Seq<ProjectInfo>,
    heaps: Seq<BinaryHeap<Claimant, SeatOrder<'_>>>,
    table: Option<Map<(ProjectId, ApplicantId, ApplicantId), Ordering>>,
    t: Track,
) -> bool {
    table matches Some(tb) ==> {
        &&& envy_free_so_far(apps, projects, heaps, tb, t)
        &&& distinct_ids(apps) && strict_everywhere(projects, tb) ==> beyond_reach(
            apps,
            projects,
            tb,
            t,
        )
    }
}

/// In a total preorder, whoever is not stronger than the weakest of `items`
/// is not stronger than any of them.
pub proof fn lemma_below_the_weakest(
    tb: Map<(ProjectId, ApplicantId, ApplicantId), Ordering>,
    p: ProjectId,
    a: ApplicantId,
    items: Seq<Claimant>,
    w: Claimant,
)
    requires
        orders_totally(tb, p),
        is_weakest(tb, p, items, w),
        tb[(p, a, w.id)] != Ordering::Greater,
    ensures
        displaces_none(tb, p, a, items),
{
    assert forall|k: int| 0 <= k < items.len() implies tb[(p, a, (#[trigger] items[k]).id)]
        != Ordering::Greater by {
        let x = items[k].id;
        assert(tb[(p, x, w.id)] != Ordering::Less);
        assert((tb[(p, a, w.id)] == Ordering::Greater) <==> tb[(p, w.id, a)] == Ordering::Less);
        assert(tb[(p, w.id, a)] != Ordering::Less);
        assert(tb[(p, x, a)] != Ordering::Less);
        assert((tb[(p, a, x)] == Ordering::Greater) <==> tb[(p, x, a)] == Ordering::Less);
    }
}

/// What holds of the engine's state between two steps.
pub open spec fn in_progress(
    apps: Seq<ApplicantInfo>,
    projects: Seq<ProjectInfo>,
    stack: Seq<Claimant>,
    heaps: Seq<BinaryHeap<Claimant, SeatOrder<'_>>>,
    unassigned: Seq<ApplicantId>,
    table: Option<Map<(ProjectId, ApplicantId, ApplicantId), Ordering>>,
    t: Track,
) -> bool {
    &&& in_order(apps, projects, stack, heaps, unassigned, table, t)
    &&& fair_so_far(apps, projects, heaps, table, t)
}

/// A project that is full of applicants strictly stronger than `a`, none of
/// which a fair matching can seat in a project that has refused it, is not
/// the project of `a` in that matching.
pub proof fn lemma_out_of_reach(
    apps: Seq<ApplicantInfo>,
    projects: Seq<ProjectInfo>,
    tb: Map<(ProjectId, ApplicantId, ApplicantId), Ordering>,
    t: Track,
    items: Seq<Claimant>,
    slot: int,
    a: int,
    p: ProjectId,
    mu: Map<ApplicantId, ProjectId>,
)
    requires
        projects.len() <= usize::MAX,
        well_tracked(apps, projects, t),
        0 <= a < apps.len(),
        0 <= slot < projects.len(),
        seat_index(projects).contains_key(p.0),
        at(seat_index(projects)[p.0]) == slot,
        holds(t, items.to_multiset(), Spot::Seated(slot)),
        items.len() >= projects[slot].seats,
        t.spot[a] != Spot::Seated(slot),
        distinct_ids(apps),
        orders_strictly(tb, p),
        displaces_none(tb, p, apps[a].id, items),
        is_fair(apps, projects, tb, mu),
        forall|k: int, j: int|
            0 <= k < items.len() && 0 <= j < refused_upto(t, at(items[k].applicant))
                ==> !#[trigger] holds_seat(mu, items[k].id, wish(apps, at(items[k].applicant), j)),
    ensures
        !holds_seat(mu, apps[a].id, p),
{
    broadcast use vstd::multiset::group_multiset_axioms;

    lemma_seat_index(projects);
    items.to_multiset_ensures();
    assert forall|k: int| 0 <= k < items.len() implies {
        &&& at((#[trigger] items[k]).applicant) < apps.len()
        &&& t.cur[at(items[k].applicant)] == items[k]
        &&& t.spot[at(items[k].applicant)] == Spot::Seated(slot)
        &&& items[k].id == apps[at(items[k].applicant)].id
    } by {
        assert(items.contains(items[k]));
        assert(items.to_multiset().count(items[k]) > 0);
        assert(tracked_one(apps, projects, t, at(items[k].applicant)));
    }
    if holds_seat(mu, apps[a].id, p) {
        let ids = ids_of(items);
        let all = ids.push(apps[a].id);
        assert forall|x: Claimant|
            items.to_multiset().contains(x) implies items.to_multiset().count(x) == 1 by {
            assert(items.to_multiset().count(x) > 0);
        }
        items.lemma_multiset_has_no_duplicates_conv();
        assert forall|k1: int, k2: int|
            0 <= k1 < all.len() && 0 <= k2 < all.len() && k1 != k2 implies all[k1] != all[k2] by {
            if k1 < items.len() && k2 < items.len() {
                assert(items[k1] != items[k2]);
                assert(at(items[k1].applicant) != at(items[k2].applicant));
            } else if k1 < items.len() {
                assert(at(items[k1].applicant) != a);
            } else {
                assert(at(items[k2].applicant) != a);
            }
        }
        assert(all.no_duplicates());
        if all_hold(mu, all, p) {
            assert(all.len() <= seats_of(projects, p.0));
            assert(false);
        }
        let k = choose|k: int| 0 <= k < all.len() && !holds_seat(mu, #[trigger] all[k], p);
        assert(k < items.len());
        let b = items[k];
        let ib = at(b.applicant);
        assert(tracked_one(apps, projects, t, ib));
        let jb = b.cursor - 1;
        assert(wish(apps, ib, jb) == p) by {
            assert(projects[slot].id.0 == wish(apps, ib, jb).0);
            assert(projects[slot].id.0 == p.0);
        }
        assert(would_rather(apps, ib, jb, mu)) by {
            assert forall|j: int| 0 <= j <= jb implies !holds_seat(
                mu,
                apps[ib].id,
                #[trigger] wish(apps, ib, j),
            ) by {
                if j < jb {
                    assert(!holds_seat(mu, items[k].id, wish(apps, at(items[k].applicant), j)));
                } else {
                    assert(all[k] == b.id);
                }
            }
        }
        assert(holds_seat(mu, apps[a].id, wish(apps, ib, jb)));
        assert(tb[(p, b.id, apps[a].id)] != Ordering::Greater);
        assert(tb[(p, apps[a].id, b.id)] != Ordering::Greater);
        assert(apps[a].id != b.id);
        assert(tb[(p, apps[a].id, b.id)] != Ordering::Equal);
        assert((tb[(p, b.id, apps[a].id)] == Ordering::Greater) <==> tb[(p, apps[a].id, b.id)]
            == Ordering::Less);
        assert(false);
    }
}

/// The refusals keep their meaning over a step, if the old ones still hold
/// against the occupants as they are now and the new ones hold as well.
pub proof fn lemma_fair_after(
    apps: Seq<ApplicantInfo>,
    projects: Seq<ProjectInfo>,
    stack: Seq<Claimant>,
    heaps: Seq<BinaryHeap<Claimant, SeatOrder<'_>>>,
    after: Seq<BinaryHeap<Claimant, SeatOrder<'_>>>,
    unassigned: Seq<ApplicantId>,
    table: Option<Map<(ProjectId, ApplicantId, ApplicantId), Ordering>>,
    t: Track,
    t2: Track,
)
    requires
        projects.len() <= usize::MAX,
        fair_so_far(apps, projects, heaps, table, t),
        in_order(apps, projects, stack, after, unassigned, table, t2),
        t.cur.len() == apps.len(),
        t.spot.len() == apps.len(),
        forall|i: int|
            0 <= i < apps.len() && #[trigger] t2.spot[i] is Seated ==> refused_upto(t2, i)
                <= refused_upto(t, i),
        forall|i: int|
            0 <= i < apps.len() && refused_upto(t2, i) > refused_upto(t, i)
                ==> #[trigger] t2.spot[i] == Spot::Pending,
        table matches Some(tb) ==> forall|i: int, j: int|
            0 <= i < apps.len() && 0 <= j < refused_upto(t2, i) && orders_totally(
                tb,
                #[trigger] wish(apps, i, j),
            ) ==> displaces_none(
                tb,
                wish(apps, i, j),
                apps[i].id,
                occupants(projects, after, wish(apps, i, j)),
            ),
    ensures
        fair_so_far(apps, projects, after, table, t2),
{
    if table is Some {
        let tb = table->0;
        assert(envy_free_so_far(apps, projects, after, tb, t2));
        if distinct_ids(apps) && strict_everywhere(projects, tb) {
            lemma_seat_index(projects);
            assert forall|mu: Map<ApplicantId, ProjectId>, i: int, j: int|
                is_fair(apps, projects, tb, mu) && 0 <= i < apps.len() && 0 <= j < refused_upto(
                    t2,
                    i,
                ) implies !#[trigger] holds_seat(mu, apps[i].id, wish(apps, i, j)) by {
                if j < refused_upto(t, i) {
                    assert(beyond_reach(apps, projects, tb, t));
                } else {
                    let p = wish(apps, i, j);
                    assert(is_full(projects, after, p));
                    let slot = at(seat_index(projects)[p.0]);
                    let items = heap_items(after[slot]);
                    assert(seat_ok(projects, after, table, t2, slot));
                    assert(orders_strictly(tb, projects[slot].id));
                    assert(projects[slot].id == p);
                    assert(t2.spot[i] == Spot::Pending);
                    items.to_multiset_ensures();
                    assert forall|k: int, j2: int|
                        0 <= k < items.len() && 0 <= j2 < refused_upto(
                            t2,
                            at(items[k].applicant),
                        ) implies !#[trigger] holds_seat(
                        mu,
                        items[k].id,
                        wish(apps, at(items[k].applicant), j2),
                    ) by {
                        assert(items.contains(items[k]));
                        assert(items.to_multiset().count(items[k]) > 0);
                        let ib = at(items[k].applicant);
                        assert(tracked_one(apps, projects, t2, ib));
                        assert(t2.spot[ib] is Seated);
                        assert(j2 < refused_upto(t, ib));
                        assert(!holds_seat(mu, apps[ib].id, wish(apps, ib, j2)));
                    }
                    lemma_out_of_reach(apps, projects, tb, t2, items, slot, i, p, mu);
                }
            }
        }
    }
}

/// Giving up the applicant on top of the stack, which has no wish left,
/// keeps the state in order.
pub proof fn lemma_gives_up(
    apps: Seq<ApplicantInfo>,
    projects: Seq<ProjectInfo>,
    stack: Seq<Claimant>,
    heaps: Seq<BinaryHeap<Claimant, SeatOrder<'_>>>,
    unassigned: Seq<ApplicantId>,
    table: Option<Map<(ProjectId, ApplicantId, ApplicantId), Ordering>>,
    t: Track,
)
    requires
        in_progress(apps, projects, stack, heaps, unassigned, table, t),
        projects.len() <= usize::MAX,
        stack.len() > 0,
        at(top_of(stack).applicant) < apps.len(),
        top_of(stack).cursor >= apps[at(top_of(stack).applicant)].preferences@.len(),
    ensures
        in_progress(
            apps,
            projects,
            stack.drop_last(),
            heaps,
            unassigned.push(top_of(stack).id),
            table,
            given_up(t, top_of(stack)),
        ),
{
    let t2 = given_up(t, top_of(stack));
    lemma_give_up(apps, projects, stack, heaps, unassigned, table, t);
    lemma_top_is_pending(stack, t);
    assert forall|i: int| 0 <= i < apps.len() implies refused_upto(t2, i) == refused_upto(
        t,
        i,
    ) by {}
    lemma_fair_after(
        apps,
        projects,
        stack.drop_last(),
        heaps,
        heaps,
        unassigned.push(top_of(stack).id),
        table,
        t,
        t2,
    );
}

/// The applicant on top of the stack takes a free seat at `slot`.
pub proof fn lemma_takes_seat(
    apps: Seq<ApplicantInfo>,
    projects: Seq<ProjectInfo>,
    stack: Seq<Claimant>,
    heaps: Seq<BinaryHeap<Claimant, SeatOrder<'_>>>,
    after: Seq<BinaryHeap<Claimant, SeatOrder<'_>>>,
    unassigned: Seq<ApplicantId>,
    table: Option<Map<(ProjectId, ApplicantId, ApplicantId), Ordering>>,
    t: Track,
    slot: int,
    d: Claimant,
)
    requires
        in_progress(apps, projects, stack, heaps, unassigned, table, t),
        projects.len() <= usize::MAX,
        asks_at(apps, projects, stack, slot, d),
        only_changed(heaps, after, slot),
        heap_items(heaps[slot]).len() < projects[slot].seats,
        heap_items(after[slot]).to_multiset() == heap_items(heaps[slot]).to_multiset().insert(d),
        heap_items(after[slot]).len() == heap_items(heaps[slot]).len() + 1,
    ensures
        in_progress(
            apps,
            projects,
            stack.drop_last(),
            after,
            unassigned,
            table,
            moved(t, at(d.applicant), d, Spot::Seated(slot)),
        ),
        owed_all(apps, moved(t, at(d.applicant), d, Spot::Seated(slot)).cur) == owed_all(
            apps,
            t.cur,
        ) - 1,
{
    let t2 = moved(t, at(d.applicant), d, Spot::Seated(slot));
    lemma_take_seat(apps, projects, stack, heaps, after, unassigned, table, t, slot, d);
    lemma_top_is_pending(stack, t);
    lemma_seat_index(projects);
    assert forall|i: int| 0 <= i < apps.len() implies refused_upto(t2, i) == refused_upto(
        t,
        i,
    ) by {}
    if table is Some {
        let tb = table->0;
        assert forall|i: int, j: int|
            0 <= i < apps.len() && 0 <= j < refused_upto(t2, i) && orders_totally(
                tb,
                #[trigger] wish(apps, i, j),
            ) implies displaces_none(
            tb,
            wish(apps, i, j),
            apps[i].id,
            occupants(projects, after, wish(apps, i, j)),
        ) by {
            let p = wish(apps, i, j);
            assert(is_full(projects, heaps, p));
            assert(at(seat_index(projects)[p.0]) != slot);
            assert(after[at(seat_index(projects)[p.0])] == heaps[at(seat_index(projects)[p.0])]);
            assert(displaces_none(tb, p, apps[i].id, occupants(projects, heaps, p)));
        }
    }
    lemma_fair_after(apps, projects, stack.drop_last(), heaps, after, unassigned, table, t, t2);
}

/// The applicant on top of the stack is turned away at `slot`, which is full
/// and whose weakest occupant, if it has one, it does not outrank, and goes
/// on to its next wish.
pub proof fn lemma_moves_on(
    apps: Seq<ApplicantInfo>,
    projects: Seq<ProjectInfo>,
    stack: Seq<Claimant>,
    heaps: Seq<BinaryHeap<Claimant, SeatOrder<'_>>>,
    unassigned: Seq<ApplicantId>,
    table: Option<Map<(ProjectId, ApplicantId, ApplicantId), Ordering>>,
    t: Track,
    slot: int,
    d: Claimant,
    weakest: Option<Claimant>,
)
    requires
        in_progress(apps, projects, stack, heaps, unassigned, table, t),
        projects.len() <= usize::MAX,
        asks_at(apps, projects, stack, slot, d),
        heap_items(heaps[slot]).len() >= projects[slot].seats,
        weakest == first_of(heap_items(heaps[slot])),
        table matches Some(tb) ==> (weakest matches Some(w) ==> {
            &&& orders_totally(tb, projects[slot].id) ==> is_weakest(
                tb,
                projects[slot].id,
                heap_items(heaps[slot]),
                w,
            )
            &&& tb[(projects[slot].id, d.id, w.id)] != Ordering::Greater
        }),
    ensures
        in_progress(
            apps,
            projects,
            stack.update(stack.len() - 1, d),
            heaps,
            unassigned,
            table,
            moved(t, at(d.applicant), d, Spot::Pending),
        ),
        owed_all(apps, moved(t, at(d.applicant), d, Spot::Pending).cur) == owed_all(apps, t.cur)
            - 1,
{
    let c = top_of(stack);
    let i0 = at(c.applicant);
    let t2 = moved(t, i0, d, Spot::Pending);
    lemma_move_on(apps, projects, stack, heaps, unassigned, table, t, slot, d);
    lemma_top_is_pending(stack, t);
    lemma_seat_index(projects);
    assert(tracked_one(apps, projects, t, i0));
    if table is Some {
        let tb = table->0;
        assert forall|i: int, j: int|
            0 <= i < apps.len() && 0 <= j < refused_upto(t2, i) && orders_totally(
                tb,
                #[trigger] wish(apps, i, j),
            ) implies displaces_none(
            tb,
            wish(apps, i, j),
            apps[i].id,
            occupants(projects, heaps, wish(apps, i, j)),
        ) by {
            let p = wish(apps, i, j);
            if j < refused_upto(t, i) {
                assert(displaces_none(tb, p, apps[i].id, occupants(projects, heaps, p)));
            } else {
                assert(i == i0 && j == c.cursor);
                assert(p == projects[slot].id);
                let items = heap_items(heaps[slot]);
                match weakest {
                    Some(w) => {
                        lemma_below_the_weakest(tb, p, apps[i].id, items, w);
                    },
                    None => {},
                }
            }
        }
    }
    lemma_fair_after(
        apps,
        projects,
        stack.update(stack.len() - 1, d),
        heaps,
        heaps,
        unassigned,
        table,
        t,
        t2,
    );
}

/// The applicant on top of the stack takes the seat of `w`, the weakest
/// occupant at `slot`, which it outranks, and `w` takes its place on the
/// stack.
pub proof fn lemma_displaces(
    apps: Seq<ApplicantInfo>,
    projects: Seq<ProjectInfo>,
    stack: Seq<Claimant>,
    heaps: Seq<BinaryHeap<Claimant, SeatOrder<'_>>>,
    after: Seq<BinaryHeap<Claimant, SeatOrder<'_>>>,
    unassigned: Seq<ApplicantId>,
    table: Option<Map<(ProjectId, ApplicantId, ApplicantId), Ordering>>,
    t: Track,
    slot: int,
    d: Claimant,
    w: Claimant,
)
    requires
        in_progress(apps, projects, stack, heaps, unassigned, table, t),
        projects.len() <= usize::MAX,
        asks_at(apps, projects, stack, slot, d),
        only_changed(heaps, after, slot),
        heap_items(heaps[slot]).len() >= projects[slot].seats,
        heap_items(heaps[slot]).to_multiset().count(w) > 0,
        heap_items(after[slot]).to_multiset() == heap_items(heaps[slot]).to_multiset().remove(
            w,
        ).insert(d),
        heap_items(after[slot]).len() == heap_items(heaps[slot]).len(),
        table matches Some(tb) ==> {
            &&& orders_totally(tb, projects[slot].id) ==> is_weakest(
                tb,
                projects[slot].id,
                heap_items(heaps[slot]),
                w,
            )
            &&& tb[(projects[slot].id, d.id, w.id)] == Ordering::Greater
        },
    ensures
        in_progress(
            apps,
            projects,
            stack.update(stack.len() - 1, w),
            after,
            unassigned,
            table,
            moved(
                moved(t, at(d.applicant), d, Spot::Seated(slot)),
                at(w.applicant),
                w,
                Spot::Pending,
            ),
        ),
        owed_all(
            apps,
            moved(
                moved(t, at(d.applicant), d, Spot::Seated(slot)),
                at(w.applicant),
                w,
                Spot::Pending,
            ).cur,
        ) == owed_all(apps, t.cur) - 1,
{
    broadcast use vstd::multiset::group_multiset_axioms;

    let c = top_of(stack);
    let i0 = at(c.applicant);
    let v = at(w.applicant);
    let t2 = moved(moved(t, i0, d, Spot::Seated(slot)), v, w, Spot::Pending);
    lemma_displace(apps, projects, stack, heaps, after, unassigned, table, t, slot, d, w);
    lemma_top_is_pending(stack, t);
    lemma_seat_index(projects);
    assert(seat_ok(projects, heaps, table, t, slot));
    assert(tracked_one(apps, projects, t, i0));
    assert(tracked_one(apps, projects, t, v));
    assert(v != i0);
    let old_items = heap_items(heaps[slot]);
    let new_items = heap_items(after[slot]);
    old_items.to_multiset_ensures();
    new_items.to_multiset_ensures();
    if table is Some {
        let tb = table->0;
        let here = projects[slot].id;
        assert forall|i: int, j: int|
            0 <= i < apps.len() && 0 <= j < refused_upto(t2, i) && orders_totally(
                tb,
                #[trigger] wish(apps, i, j),
            ) implies displaces_none(
            tb,
            wish(apps, i, j),
            apps[i].id,
            occupants(projects, after, wish(apps, i, j)),
        ) by {
            let p = wish(apps, i, j);
            let a = apps[i].id;
            let s = at(seat_index(projects)[p.0]);
            if j < refused_upto(t, i) {
                assert(is_full(projects, heaps, p));
                assert(displaces_none(tb, p, a, occupants(projects, heaps, p)));
                if s == slot {
                    assert(p == here);
                    assert(old_items.contains(w));
                    let kw = choose|k: int| 0 <= k < old_items.len() && old_items[k] == w;
                    assert(tb[(p, a, old_items[kw].id)] != Ordering::Greater);
                    assert forall|k: int| 0 <= k < new_items.len() implies tb[(
                        p,
                        a,
                        (#[trigger] new_items[k]).id,
                    )] != Ordering::Greater by {
                        let x = new_items[k];
                        assert(new_items.contains(x));
                        assert(new_items.to_multiset().count(x) > 0);
                        if x == d {
                            assert((tb[(p, a, w.id)] == Ordering::Greater) <==> tb[(p, w.id, a)]
                                == Ordering::Less);
                            assert(tb[(p, d.id, w.id)] != Ordering::Less);
                            assert(tb[(p, w.id, a)] != Ordering::Less);
                            assert(tb[(p, d.id, a)] != Ordering::Less);
                            assert((tb[(p, a, d.id)] == Ordering::Greater) <==> tb[(p, d.id, a)]
                                == Ordering::Less);
                        } else {
                            assert(old_items.to_multiset().count(x) > 0);
                            assert(old_items.contains(x));
                            let k0 = choose|k0: int|
                                0 <= k0 < old_items.len() && old_items[k0] == x;
                            assert(tb[(p, a, old_items[k0].id)] != Ordering::Greater);
                        }
                    }
                } else {
                    assert(after[s] == heaps[s]);
                }
            } else {
                assert(i == v && j == w.cursor - 1);
                assert(p == here);
                assert(a == w.id);
                assert forall|k: int| 0 <= k < new_items.len() implies tb[(
                    p,
                    a,
                    (#[trigger] new_items[k]).id,
                )] != Ordering::Greater by {
                    let x = new_items[k];
                    assert(new_items.contains(x));
                    assert(new_items.to_multiset().count(x) > 0);
                    if x == d {
                        assert((tb[(p, d.id, w.id)] == Ordering::Greater) <==> tb[(p, w.id, d.id)]
                            == Ordering::Less);
                    } else {
                        assert(old_items.to_multiset().count(x) > 0);
                        assert(old_items.contains(x));
                        let k0 = choose|k0: int| 0 <= k0 < old_items.len() && old_items[k0] == x;
                        assert(tb[(p, old_items[k0].id, w.id)] != Ordering::Less);
                        assert((tb[(p, w.id, x.id)] == Ordering::Greater) <==> tb[(p, x.id, w.id)]
                            == Ordering::Less);
                    }
                }
            }
        }
    }
    lemma_fair_after(
        apps,
        projects,
        stack.update(stack.len() - 1, w),
        heaps,
        after,
        unassigned,
        table,
        t,
        t2,
    );
}

} // verus!
