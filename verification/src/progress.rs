//! The engine's bookkeeping and the part of its invariant that holds under
//! any comparator: every applicant is in exactly one place, no project is
//! over its capacity, and every project that has refused somebody is full.

use crate::model::{
    at, lemma_seat_index, seat_index, wish, ApplicantId, ApplicantInfo, Claimant, ProjectId,
    ProjectInfo,
};
use crate::seats::{heap_items, heap_project, heap_standing, SeatOrder};
use std::cmp::Ordering;
use binary_heap_plus::BinaryHeap;
use vstd::multiset::Multiset;
use vstd::prelude::*;

verus! {

/// Where an applicant is while the engine runs: waiting on the work stack,
/// seated in the project at a position of the project list, or given up.
pub enum Spot {
    Pending,
    Seated(int),
    Unassigned,
}

/// The engine's bookkeeping, by position in the applicant list: each
/// applicant's claimant as it stands now and where it is, and the claimants
/// given up so far, in that order.
pub struct Track {
    pub cur: Seq<Claimant>,
    pub spot: Seq<Spot>,
    pub gone: Seq<Claimant>,
}

/// The number of leading slots of applicant `i` that have been refused.
pub open spec fn refused_upto(t: Track, i: int) -> int {
    if t.spot[i] is Seated {
        t.cur[i].cursor - 1
    } else {
        t.cur[i].cursor as int
    }
}

/// The bookkeeping of applicant `i` fits the configuration.
pub open spec fn tracked_one(
    apps: Seq<ApplicantInfo>,
    projects: Seq<ProjectInfo>,
    t: Track,
    i: int,
) -> bool {
    let c = t.cur[i];
    &&& c.applicant == i
    &&& c.id == apps[i].id
    &&& c.cursor <= apps[i].preferences@.len()
    &&& match t.spot[i] {
        Spot::Pending => true,
        Spot::Seated(s) => {
            &&& c.cursor >= 1
            &&& 0 <= s < projects.len()
            &&& seat_index(projects).contains_key(wish(apps, i, c.cursor - 1).0)
            &&& seat_index(projects)[wish(apps, i, c.cursor - 1).0] == s
        },
        Spot::Unassigned => c.cursor == apps[i].preferences@.len(),
    }
}

/// The bookkeeping fits the configuration.
pub open spec fn well_tracked(
    apps: Seq<ApplicantInfo>,
    projects: Seq<ProjectInfo>,
    t: Track,
) -> bool {
    &&& t.cur.len() == apps.len()
    &&& t.spot.len() == apps.len()
    &&& forall|i: int| 0 <= i < apps.len() ==> #[trigger] tracked_one(apps, projects, t, i)
}

/// `m` holds exactly the claimants of the applicants that are at `w`, each
/// once.
pub open spec fn holds(t: Track, m: Multiset<Claimant>, w: Spot) -> bool {
    &&& forall|c: Claimant| #[trigger]
        m.count(c) > 0 ==> {
            &&& at(c.applicant) < t.cur.len()
            &&& t.cur[at(c.applicant)] == c
            &&& t.spot[at(c.applicant)] == w
        }
    &&& forall|i: int| 0 <= i < t.cur.len() && #[trigger] t.spot[i] == w ==> m.count(t.cur[i]) == 1
}

/// The heap at position `s` is the one made for the project there, holds the
/// claimants seated there, and is not over its capacity.
pub open spec fn seat_ok(
    projects: Seq<ProjectInfo>,
    heaps: Seq<BinaryHeap<Claimant, SeatOrder<'_>>>,
    table: Option<Map<(ProjectId, ApplicantId, ApplicantId), Ordering>>,
    t: Track,
    s: int,
) -> bool {
    &&& heap_project(heaps[s]) == projects[s].id
    &&& heap_standing(heaps[s]) == table
    &&& holds(t, heap_items(heaps[s]).to_multiset(), Spot::Seated(s))
    &&& heap_items(heaps[s]).len() <= projects[s].seats
}

/// The project `p` is configured and its heap is full.
pub open spec fn is_full(
    projects: Seq<ProjectInfo>,
    heaps: Seq<BinaryHeap<Claimant, SeatOrder<'_>>>,
    p: ProjectId,
) -> bool {
    &&& seat_index(projects).contains_key(p.0)
    &&& heap_items(heaps[at(seat_index(projects)[p.0])]).len() >= projects[at(
        seat_index(projects)[p.0],
    )].seats
}

/// Every slot that an applicant has been refused names a full project.
pub open spec fn refusals_full(
    apps: Seq<ApplicantInfo>,
    projects: Seq<ProjectInfo>,
    heaps: Seq<BinaryHeap<Claimant, SeatOrder<'_>>>,
    t: Track,
) -> bool {
    forall|i: int, j: int|
        0 <= i < apps.len() && 0 <= j < refused_upto(t, i) ==> is_full(
            projects,
            heaps,
            #[trigger] wish(apps, i, j),
        )
}

/// The slots that the applicants before position `n` have not asked for yet.
pub open spec fn owed(apps: Seq<ApplicantInfo>, cur: Seq<Claimant>, n: int) -> int
    decreases n,
{
    if n <= 0 {
        0
    } else {
        owed(apps, cur, n - 1) + apps[n - 1].preferences@.len() - cur[n - 1].cursor
    }
}

/// All the slots that are not asked for yet.
pub open spec fn owed_all(apps: Seq<ApplicantInfo>, cur: Seq<Claimant>) -> int {
    owed(apps, cur, apps.len() as int)
}

/// What holds of the engine's state between two steps.
pub open spec fn in_order(
    apps: Seq<ApplicantInfo>,
    projects: Seq<ProjectInfo>,
    stack: Seq<Claimant>,
    heaps: Seq<BinaryHeap<Claimant, SeatOrder<'_>>>,
    unassigned: Seq<ApplicantId>,
    table: Option<Map<(ProjectId, ApplicantId, ApplicantId), Ordering>>,
    t: Track,
) -> bool {
    &&& well_tracked(apps, projects, t)
    &&& heaps.len() == projects.len()
    &&& holds(t, stack.to_multiset(), Spot::Pending)
    &&& holds(t, t.gone.to_multiset(), Spot::Unassigned)
    &&& unassigned.len() == t.gone.len()
    &&& forall|k: int| 0 <= k < t.gone.len() ==> unassigned[k] == (#[trigger] t.gone[k]).id
    &&& forall|s: int| 0 <= s < projects.len() ==> #[trigger] seat_ok(projects, heaps, table, t, s)
    &&& refusals_full(apps, projects, heaps, t)
}

/// The claimant on top of the work stack.
pub open spec fn top_of(stack: Seq<Claimant>) -> Claimant {
    stack[stack.len() - 1]
}

/// The claimant on top of the work stack is the one that the bookkeeping has
/// for its applicant, and that applicant is pending.
pub proof fn lemma_top_is_pending(stack: Seq<Claimant>, t: Track)
    requires
        stack.len() > 0,
        holds(t, stack.to_multiset(), Spot::Pending),
    ensures
        at(top_of(stack).applicant) < t.cur.len(),
        t.cur[at(top_of(stack).applicant)] == top_of(stack),
        t.spot[at(top_of(stack).applicant)] == Spot::Pending,
        stack.drop_last().to_multiset() == stack.to_multiset().remove(top_of(stack)),
        forall|c: Claimant|
            stack.update(stack.len() - 1, c).to_multiset() == stack.to_multiset().remove(
                top_of(stack),
            ).insert(c),
{
    broadcast use vstd::multiset::group_multiset_axioms;

    stack.to_multiset_ensures();
    assert(stack[stack.len() - 1] == top_of(stack));
    assert(stack.contains(top_of(stack)));
    assert(stack.to_multiset().count(top_of(stack)) > 0);
    assert(stack.remove(stack.len() - 1) =~= stack.drop_last());
    assert forall|c: Claimant|
        stack.update(stack.len() - 1, c).to_multiset() == stack.to_multiset().remove(
            top_of(stack),
        ).insert(c) by {
        vstd::seq_lib::to_multiset_update(stack, stack.len() - 1, c);
        assert(stack.to_multiset().insert(c).remove(top_of(stack)) =~= stack.to_multiset().remove(
            top_of(stack),
        ).insert(c));
    }
}

/// One applicant's claimant and spot change, everything else stays.
pub open spec fn moved(t: Track, i: int, c: Claimant, w: Spot) -> Track {
    Track { cur: t.cur.update(i, c), spot: t.spot.update(i, w), gone: t.gone }
}

/// What a container holds after applicant `i` has moved: it keeps its
/// content if the applicant was not there and does not come, loses the old
/// claimant if the applicant leaves, gains the new one if it comes.
pub proof fn lemma_holds_after_move(
    t: Track,
    i: int,
    c: Claimant,
    to: Spot,
    m: Multiset<Claimant>,
    m2: Multiset<Claimant>,
    w: Spot,
)
    requires
        t.cur.len() == t.spot.len(),
        0 <= i < t.cur.len(),
        forall|j: int| 0 <= j < t.cur.len() ==> at((#[trigger] t.cur[j]).applicant) == j,
        at(c.applicant) == i,
        holds(t, m, w),
        m2 == (if t.spot[i] == w {
            if to == w {
                m.remove(t.cur[i]).insert(c)
            } else {
                m.remove(t.cur[i])
            }
        } else {
            if to == w {
                m.insert(c)
            } else {
                m
            }
        }),
        to == w && t.spot[i] != w ==> m.count(c) == 0,
        to == w && t.spot[i] == w ==> t.cur[i] != c,
    ensures
        holds(moved(t, i, c, to), m2, w),
{
    broadcast use vstd::multiset::group_multiset_axioms;

    let t2 = moved(t, i, c, to);
    assert forall|x: Claimant| #[trigger] m2.count(x) > 0 implies {
        &&& at(x.applicant) < t2.cur.len()
        &&& t2.cur[at(x.applicant)] == x
        &&& t2.spot[at(x.applicant)] == w
    } by {
        if x == c && to == w {
        } else {
            assert(m.count(x) > 0);
            if at(x.applicant) == i {
                assert(t.cur[i] == x);
                assert(t.spot[i] == w);
                if to == w {
                    assert(m.remove(t.cur[i]).count(x) == 0);
                } else {
                    assert(m.remove(t.cur[i]).count(x) == 0);
                }
            }
        }
    }
    assert forall|j: int| 0 <= j < t2.cur.len() && #[trigger] t2.spot[j] == w implies m2.count(
        t2.cur[j],
    ) == 1 by {
        if j == i {
            if t.spot[i] == w {
                assert(m.count(t.cur[i]) == 1);
            }
        } else {
            assert(t.spot[j] == w);
            assert(m.count(t.cur[j]) == 1);
            assert(t.cur[j] != c);
            assert(t.cur[j] != t.cur[i]);
        }
    }
}

/// Moving one applicant's cursor on by one takes one from what is owed.
pub proof fn lemma_owed_after_step(
    apps: Seq<ApplicantInfo>,
    cur: Seq<Claimant>,
    i: int,
    c: Claimant,
    n: int,
)
    requires
        0 <= i < cur.len(),
        0 <= n <= cur.len(),
    ensures
        owed(apps, cur.update(i, c), n) == owed(apps, cur, n) + (if i < n {
            cur[i].cursor - c.cursor
        } else {
            0
        }),
    decreases n,
{
    if n > 0 {
        lemma_owed_after_step(apps, cur, i, c, n - 1);
    }
}

/// Moving one applicant's cursor on by one takes one from all that is owed.
pub proof fn lemma_owed_all_after_step(
    apps: Seq<ApplicantInfo>,
    cur: Seq<Claimant>,
    i: int,
    c: Claimant,
)
    requires
        0 <= i < cur.len(),
        cur.len() == apps.len(),
    ensures
        owed_all(apps, cur.update(i, c)) == owed_all(apps, cur) + cur[i].cursor - c.cursor,
{
    lemma_owed_after_step(apps, cur, i, c, apps.len() as int);
}

/// Nothing is owed below zero while the cursors stay inside the lists.
pub proof fn lemma_owed_all_nonnegative(apps: Seq<ApplicantInfo>, cur: Seq<Claimant>)
    requires
        cur.len() == apps.len(),
        forall|i: int|
            0 <= i < cur.len() ==> (#[trigger] cur[i]).cursor <= apps[i].preferences@.len(),
    ensures
        owed_all(apps, cur) >= 0,
{
    lemma_owed_nonnegative(apps, cur, apps.len() as int);
}

/// Nothing owed is negative while the cursors stay inside the lists.
pub proof fn lemma_owed_nonnegative(apps: Seq<ApplicantInfo>, cur: Seq<Claimant>, n: int)
    requires
        0 <= n <= cur.len(),
        cur.len() == apps.len(),
        forall|i: int|
            0 <= i < cur.len() ==> (#[trigger] cur[i]).cursor <= apps[i].preferences@.len(),
    ensures
        owed(apps, cur, n) >= 0,
    decreases n,
{
    if n > 0 {
        lemma_owed_nonnegative(apps, cur, n - 1);
        assert(cur[n - 1].cursor <= apps[n - 1].preferences@.len());
    }
}

/// The stepped-on claimant: the same applicant, one slot further.
pub open spec fn stepped_on(c: Claimant, d: Claimant) -> bool {
    &&& d.id == c.id
    &&& d.applicant == c.applicant
    &&& d.cursor == c.cursor + 1
}

/// Between `heaps` and `after` only the heap at `slot` may differ, and that
/// one is still the heap of the same project with the same table.
pub open spec fn only_changed(
    heaps: Seq<BinaryHeap<Claimant, SeatOrder<'_>>>,
    after: Seq<BinaryHeap<Claimant, SeatOrder<'_>>>,
    slot: int,
) -> bool {
    &&& after.len() == heaps.len()
    &&& 0 <= slot < heaps.len()
    &&& forall|s: int| 0 <= s < heaps.len() && s != slot ==> #[trigger] after[s] == heaps[s]
    &&& heap_project(after[slot]) == heap_project(heaps[slot])
    &&& heap_standing(after[slot]) == heap_standing(heaps[slot])
    &&& heap_items(after[slot]).len() >= heap_items(heaps[slot]).len()
}

/// The applicant on top of the stack, whose next wish is a project at
/// `slot`, with `d` as its stepped-on claimant.
pub open spec fn asks_at(
    apps: Seq<ApplicantInfo>,
    projects: Seq<ProjectInfo>,
    stack: Seq<Claimant>,
    slot: int,
    d: Claimant,
) -> bool {
    let c = top_of(stack);
    &&& stack.len() > 0
    &&& at(c.applicant) < apps.len()
    &&& c.cursor < apps[at(c.applicant)].preferences@.len()
    &&& seat_index(projects).contains_key(wish(apps, at(c.applicant), at(c.cursor)).0)
    &&& at(seat_index(projects)[wish(apps, at(c.applicant), at(c.cursor)).0]) == slot
    &&& 0 <= slot < projects.len()
    &&& stepped_on(c, d)
}

/// Moving one applicant keeps the bookkeeping fitting, if the applicant's
/// new entry fits.
pub proof fn lemma_tracked_after_move(
    apps: Seq<ApplicantInfo>,
    projects: Seq<ProjectInfo>,
    t: Track,
    i: int,
    c: Claimant,
    to: Spot,
)
    requires
        well_tracked(apps, projects, t),
        0 <= i < apps.len(),
        tracked_one(apps, projects, moved(t, i, c, to), i),
    ensures
        well_tracked(apps, projects, moved(t, i, c, to)),
{
    let t2 = moved(t, i, c, to);
    assert forall|j: int| 0 <= j < apps.len() implies #[trigger] tracked_one(
        apps,
        projects,
        t2,
        j,
    ) by {
        if j != i {
            assert(tracked_one(apps, projects, t, j));
        }
    }
}

/// Refusals stay refusals of full projects while no heap shrinks and every
/// newly refused slot names a full project.
pub proof fn lemma_refusals_kept(
    apps: Seq<ApplicantInfo>,
    projects: Seq<ProjectInfo>,
    heaps: Seq<BinaryHeap<Claimant, SeatOrder<'_>>>,
    after: Seq<BinaryHeap<Claimant, SeatOrder<'_>>>,
    t: Track,
    t2: Track,
)
    requires
        refusals_full(apps, projects, heaps, t),
        after.len() == heaps.len(),
        heaps.len() == projects.len(),
        projects.len() <= usize::MAX,
        forall|s: int|
            0 <= s < heaps.len() ==> heap_items(#[trigger] after[s]).len() >= heap_items(
                heaps[s],
            ).len(),
        forall|i: int, j: int|
            0 <= i < apps.len() && refused_upto(t, i) <= j < refused_upto(t2, i) ==> is_full(
                projects,
                after,
                #[trigger] wish(apps, i, j),
            ),
    ensures
        refusals_full(apps, projects, after, t2),
{
    lemma_seat_index(projects);
    assert forall|i: int, j: int|
        0 <= i < apps.len() && 0 <= j < refused_upto(t2, i) implies is_full(
        projects,
        after,
        #[trigger] wish(apps, i, j),
    ) by {
        if j < refused_upto(t, i) {
            let p = wish(apps, i, j);
            assert(is_full(projects, heaps, p));
            let s = at(seat_index(projects)[p.0]);
            assert(heap_items(after[s]).len() >= heap_items(heaps[s]).len());
        }
    }
}

/// The bookkeeping after the applicant on top of the stack has been given
/// up.
pub open spec fn given_up(t: Track, c: Claimant) -> Track {
    Track {
        cur: t.cur,
        spot: t.spot.update(at(c.applicant), Spot::Unassigned),
        gone: t.gone.push(c),
    }
}

/// Giving up the applicant on top of the stack, which has no wish left,
/// keeps the state in order.
pub proof fn lemma_give_up(
    apps: Seq<ApplicantInfo>,
    projects: Seq<ProjectInfo>,
    stack: Seq<Claimant>,
    heaps: Seq<BinaryHeap<Claimant, SeatOrder<'_>>>,
    unassigned: Seq<ApplicantId>,
    table: Option<Map<(ProjectId, ApplicantId, ApplicantId), Ordering>>,
    t: Track,
)
    requires
        in_order(apps, projects, stack, heaps, unassigned, table, t),
        projects.len() <= usize::MAX,
        stack.len() > 0,
        at(top_of(stack).applicant) < apps.len(),
        top_of(stack).cursor >= apps[at(top_of(stack).applicant)].preferences@.len(),
    ensures
        in_order(
            apps,
            projects,
            stack.drop_last(),
            heaps,
            unassigned.push(top_of(stack).id),
            table,
            given_up(t, top_of(stack)),
        ),
{
    broadcast use vstd::multiset::group_multiset_axioms;

    let c = top_of(stack);
    let i = at(c.applicant);
    lemma_top_is_pending(stack, t);
    assert(tracked_one(apps, projects, t, i));
    let t1 = moved(t, i, c, Spot::Unassigned);
    let t2 = given_up(t, c);
    assert(t1.cur =~= t.cur);
    assert(t2.cur == t1.cur && t2.spot == t1.spot);
    assert forall|j: int| 0 <= j < t.cur.len() implies at((#[trigger] t.cur[j]).applicant) == j by {
        assert(tracked_one(apps, projects, t, j));
    }
    lemma_tracked_after_move(apps, projects, t, i, c, Spot::Unassigned);
    assert(well_tracked(apps, projects, t2)) by {
        assert forall|j: int| 0 <= j < apps.len() implies #[trigger] tracked_one(
            apps,
            projects,
            t2,
            j,
        ) by {
            assert(tracked_one(apps, projects, t1, j));
        }
    }
    lemma_holds_after_move(
        t,
        i,
        c,
        Spot::Unassigned,
        stack.to_multiset(),
        stack.drop_last().to_multiset(),
        Spot::Pending,
    );
    t.gone.to_multiset_ensures();
    assert(t.gone.to_multiset().count(c) == 0);
    lemma_holds_after_move(
        t,
        i,
        c,
        Spot::Unassigned,
        t.gone.to_multiset(),
        t.gone.push(c).to_multiset(),
        Spot::Unassigned,
    );
    assert(holds(t2, stack.drop_last().to_multiset(), Spot::Pending));
    assert(holds(t2, t2.gone.to_multiset(), Spot::Unassigned));
    assert forall|s: int| 0 <= s < projects.len() implies #[trigger] seat_ok(
        projects,
        heaps,
        table,
        t2,
        s,
    ) by {
        assert(seat_ok(projects, heaps, table, t, s));
        let m = heap_items(heaps[s]).to_multiset();
        lemma_holds_after_move(t, i, c, Spot::Unassigned, m, m, Spot::Seated(s));
        assert(holds(t2, m, Spot::Seated(s)));
    }
    assert forall|i2: int| 0 <= i2 < apps.len() implies refused_upto(t2, i2) == refused_upto(
        t,
        i2,
    ) by {}
    lemma_refusals_kept(apps, projects, heaps, heaps, t, t2);
    let u2 = unassigned.push(c.id);
    assert forall|k: int| 0 <= k < t2.gone.len() implies u2[k] == (#[trigger] t2.gone[k]).id by {
        if k < t.gone.len() {
            assert(t2.gone[k] == t.gone[k]);
        }
    }
}

/// The applicant on top of the stack takes a free seat at `slot`.
pub proof fn lemma_take_seat(
    apps: Seq<ApplicantInfo>,
    projects: Seq<ProjectInfo>,
    stack: Seq<Claimant>,
    heaps: Seq<BinaryHeap<Claimant, SeatOrder<'_>>>,
    after: Seq<BinaryHeap<Claimant, SeatOrder<'_>>>,
    unassigned: Seq<ApplicantId>,
    table: Option<Map<(ProjectId, ApplicantId, ApplicantId), Ordering>>,
    t: Track,
    slot: int,
    d: Claimant,
)
    requires
        in_order(apps, projects, stack, heaps, unassigned, table, t),
        projects.len() <= usize::MAX,
        asks_at(apps, projects, stack, slot, d),
        only_changed(heaps, after, slot),
        heap_items(heaps[slot]).len() < projects[slot].seats,
        heap_items(after[slot]).to_multiset() == heap_items(heaps[slot]).to_multiset().insert(d),
        heap_items(after[slot]).len() == heap_items(heaps[slot]).len() + 1,
    ensures
        in_order(
            apps,
            projects,
            stack.drop_last(),
            after,
            unassigned,
            table,
            moved(t, at(d.applicant), d, Spot::Seated(slot)),
        ),
        owed_all(apps, moved(t, at(d.applicant), d, Spot::Seated(slot)).cur) == owed_all(
            apps,
            t.cur,
        ) - 1,
{
    broadcast use vstd::multiset::group_multiset_axioms;

    let c = top_of(stack);
    let i = at(c.applicant);
    let to = Spot::Seated(slot);
    let t2 = moved(t, i, d, to);
    lemma_top_is_pending(stack, t);
    assert(tracked_one(apps, projects, t, i));
    assert forall|j: int| 0 <= j < t.cur.len() implies at((#[trigger] t.cur[j]).applicant) == j by {
        assert(tracked_one(apps, projects, t, j));
    }
    assert(tracked_one(apps, projects, t2, i));
    lemma_tracked_after_move(apps, projects, t, i, d, to);
    lemma_holds_after_move(
        t,
        i,
        d,
        to,
        stack.to_multiset(),
        stack.drop_last().to_multiset(),
        Spot::Pending,
    );
    let gone = t.gone.to_multiset();
    lemma_holds_after_move(t, i, d, to, gone, gone, Spot::Unassigned);
    assert forall|s: int| 0 <= s < projects.len() implies #[trigger] seat_ok(
        projects,
        after,
        table,
        t2,
        s,
    ) by {
        assert(seat_ok(projects, heaps, table, t, s));
        let m = heap_items(heaps[s]).to_multiset();
        if s == slot {
            assert(m.count(d) == 0);
            lemma_holds_after_move(t, i, d, to, m, m.insert(d), Spot::Seated(s));
        } else {
            assert(after[s] == heaps[s]);
            lemma_holds_after_move(t, i, d, to, m, m, Spot::Seated(s));
        }
    }
    assert forall|s: int| 0 <= s < heaps.len() implies heap_items(#[trigger] after[s]).len()
        >= heap_items(heaps[s]).len() by {
        if s != slot {
            assert(after[s] == heaps[s]);
        }
    }
    assert forall|i2: int| 0 <= i2 < apps.len() implies refused_upto(t2, i2) == refused_upto(
        t,
        i2,
    ) by {}
    lemma_refusals_kept(apps, projects, heaps, after, t, t2);
    lemma_owed_all_after_step(apps, t.cur, i, d);
}

/// The applicant on top of the stack is turned away at `slot`, which is
/// full, and goes on to its next wish.
pub proof fn lemma_move_on(
    apps: Seq<ApplicantInfo>,
    projects: Seq<ProjectInfo>,
    stack: Seq<Claimant>,
    heaps: Seq<BinaryHeap<Claimant, SeatOrder<'_>>>,
    unassigned: Seq<ApplicantId>,
    table: Option<Map<(ProjectId, ApplicantId, ApplicantId), Ordering>>,
    t: Track,
    slot: int,
    d: Claimant,
)
    requires
        in_order(apps, projects, stack, heaps, unassigned, table, t),
        projects.len() <= usize::MAX,
        asks_at(apps, projects, stack, slot, d),
        heap_items(heaps[slot]).len() >= projects[slot].seats,
    ensures
        in_order(
            apps,
            projects,
            stack.update(stack.len() - 1, d),
            heaps,
            unassigned,
            table,
            moved(t, at(d.applicant), d, Spot::Pending),
        ),
        owed_all(apps, moved(t, at(d.applicant), d, Spot::Pending).cur) == owed_all(apps, t.cur)
            - 1,
{
    broadcast use vstd::multiset::group_multiset_axioms;

    let c = top_of(stack);
    let i = at(c.applicant);
    let to = Spot::Pending;
    let t2 = moved(t, i, d, to);
    lemma_top_is_pending(stack, t);
    assert(tracked_one(apps, projects, t, i));
    assert forall|j: int| 0 <= j < t.cur.len() implies at((#[trigger] t.cur[j]).applicant) == j by {
        assert(tracked_one(apps, projects, t, j));
    }
    assert(tracked_one(apps, projects, t2, i));
    lemma_tracked_after_move(apps, projects, t, i, d, to);
    lemma_holds_after_move(
        t,
        i,
        d,
        to,
        stack.to_multiset(),
        stack.update(stack.len() - 1, d).to_multiset(),
        Spot::Pending,
    );
    let gone = t.gone.to_multiset();
    lemma_holds_after_move(t, i, d, to, gone, gone, Spot::Unassigned);
    assert forall|s: int| 0 <= s < projects.len() implies #[trigger] seat_ok(
        projects,
        heaps,
        table,
        t2,
        s,
    ) by {
        assert(seat_ok(projects, heaps, table, t, s));
        let m = heap_items(heaps[s]).to_multiset();
        lemma_holds_after_move(t, i, d, to, m, m, Spot::Seated(s));
    }
    assert forall|i2: int, j: int|
        0 <= i2 < apps.len() && refused_upto(t, i2) <= j < refused_upto(t2, i2) implies is_full(
        projects,
        heaps,
        #[trigger] wish(apps, i2, j),
    ) by {
        assert(i2 == i && j == c.cursor);
    }
    lemma_refusals_kept(apps, projects, heaps, heaps, t, t2);
    lemma_owed_all_after_step(apps, t.cur, i, d);
}

/// The applicant on top of the stack takes the seat of `w`, the occupant
/// that the heap at `slot` gave up, and `w` takes its place on the stack.
pub proof fn lemma_displace(
    apps: Seq<ApplicantInfo>,
    projects: Seq<ProjectInfo>,
    stack: Seq<Claimant>,
    heaps: Seq<BinaryHeap<Claimant, SeatOrder<'_>>>,
    after: Seq<BinaryHeap<Claimant, SeatOrder<'_>>>,
    unassigned: Seq<ApplicantId>,
    table: Option<Map<(ProjectId, ApplicantId, ApplicantId), Ordering>>,
    t: Track,
    slot: int,
    d: Claimant,
    w: Claimant,
)
    requires
        in_order(apps, projects, stack, heaps, unassigned, table, t),
        projects.len() <= usize::MAX,
        asks_at(apps, projects, stack, slot, d),
        only_changed(heaps, after, slot),
        heap_items(heaps[slot]).len() >= projects[slot].seats,
        heap_items(heaps[slot]).to_multiset().count(w) > 0,
        heap_items(after[slot]).to_multiset() == heap_items(heaps[slot]).to_multiset().remove(
            w,
        ).insert(d),
        heap_items(after[slot]).len() == heap_items(heaps[slot]).len(),
    ensures
        in_order(
            apps,
            projects,
            stack.update(stack.len() - 1, w),
            after,
            unassigned,
            table,
            moved(
                moved(t, at(d.applicant), d, Spot::Seated(slot)),
                at(w.applicant),
                w,
                Spot::Pending,
            ),
        ),
        owed_all(
            apps,
            moved(
                moved(t, at(d.applicant), d, Spot::Seated(slot)),
                at(w.applicant),
                w,
                Spot::Pending,
            ).cur,
        ) == owed_all(apps, t.cur) - 1,
{
    broadcast use vstd::multiset::group_multiset_axioms;

    let c = top_of(stack);
    let i = at(c.applicant);
    let v = at(w.applicant);
    let here = Spot::Seated(slot);
    let t1 = moved(t, i, d, here);
    let t2 = moved(t1, v, w, Spot::Pending);
    lemma_top_is_pending(stack, t);
    assert(seat_ok(projects, heaps, table, t, slot));
    assert(tracked_one(apps, projects, t, i));
    assert(tracked_one(apps, projects, t, v));
    assert(v != i);
    assert forall|j: int| 0 <= j < t.cur.len() implies at((#[trigger] t.cur[j]).applicant) == j by {
        assert(tracked_one(apps, projects, t, j));
    }
    assert forall|j: int| 0 <= j < t1.cur.len() implies at((#[trigger] t1.cur[j]).applicant)
        == j by {}
    assert(tracked_one(apps, projects, t1, i));
    lemma_tracked_after_move(apps, projects, t, i, d, here);
    assert(tracked_one(apps, projects, t1, v));
    assert(tracked_one(apps, projects, t2, v));
    lemma_tracked_after_move(apps, projects, t1, v, w, Spot::Pending);
    // the stack
    let m0 = stack.to_multiset();
    let m1 = m0.remove(c);
    lemma_holds_after_move(t, i, d, here, m0, m1, Spot::Pending);
    assert(m1.count(w) == 0);
    lemma_holds_after_move(t1, v, w, Spot::Pending, m1, m1.insert(w), Spot::Pending);
    // the given-up
    let g = t.gone.to_multiset();
    lemma_holds_after_move(t, i, d, here, g, g, Spot::Unassigned);
    lemma_holds_after_move(t1, v, w, Spot::Pending, g, g, Spot::Unassigned);
    // the seats
    assert forall|s: int| 0 <= s < projects.len() implies #[trigger] seat_ok(
        projects,
        after,
        table,
        t2,
        s,
    ) by {
        assert(seat_ok(projects, heaps, table, t, s));
        let m = heap_items(heaps[s]).to_multiset();
        if s == slot {
            assert(m.count(d) == 0);
            lemma_holds_after_move(t, i, d, here, m, m.insert(d), here);
            assert(m.insert(d).remove(w) =~= m.remove(w).insert(d));
            let filled = m.insert(d);
            lemma_holds_after_move(t1, v, w, Spot::Pending, filled, filled.remove(w), here);
        } else {
            assert(after[s] == heaps[s]);
            lemma_holds_after_move(t, i, d, here, m, m, Spot::Seated(s));
            lemma_holds_after_move(t1, v, w, Spot::Pending, m, m, Spot::Seated(s));
        }
    }
    assert forall|s: int| 0 <= s < heaps.len() implies heap_items(#[trigger] after[s]).len()
        >= heap_items(heaps[s]).len() by {
        if s != slot {
            assert(after[s] == heaps[s]);
        }
    }
    lemma_seat_index(projects);
    assert forall|i2: int, j: int|
        0 <= i2 < apps.len() && refused_upto(t, i2) <= j < refused_upto(t2, i2) implies is_full(
        projects,
        after,
        #[trigger] wish(apps, i2, j),
    ) by {
        assert(i2 == v && j == w.cursor - 1);
    }
    lemma_refusals_kept(apps, projects, heaps, after, t, t2);
    lemma_owed_all_after_step(apps, t.cur, i, d);
    lemma_owed_all_after_step(apps, t1.cur, v, w);
}

/// The identifiers of the claimants of a sequence, in its order.
pub open spec fn ids_of(items: Seq<Claimant>) -> Seq<ApplicantId> {
    Seq::new(items.len(), |k: int| items[k].id)
}

/// The positions in the applicant list of the claimants of a sequence.
pub open spec fn applicants_of(items: Seq<Claimant>) -> Seq<int> {
    Seq::new(items.len(), |k: int| at(items[k].applicant))
}

/// The placement that the bookkeeping stands for: a seated applicant sits at
/// the slot before its cursor.
pub open spec fn place_of(t: Track) -> Seq<Option<int>> {
    Seq::new(
        t.cur.len(),
        |i: int|
            if t.spot[i] is Seated {
                Some(t.cur[i].cursor - 1)
            } else {
                None
            },
    )
}

/// The state at the start: everybody is pending, every heap is empty.
pub open spec fn at_start(stack: Seq<Claimant>) -> Track {
    Track { cur: stack, spot: Seq::new(stack.len(), |i: int| Spot::Pending), gone: Seq::empty() }
}

} // verus!
