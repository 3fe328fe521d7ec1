//! What follows from the contracts of the entry points: every applicant is in
//! exactly one list, nobody seated can be displaced by somebody left out, a
//! second run changes nothing, and, where the comparator never ties, neither
//! does the order of the applicants.

use crate::lottery::{is_drawn, is_reordered, reorders};
use crate::matching::{
    all_hold, distinct_ids, holds_seat, is_fair, lemma_matching_of, matching_of, seat_holder,
    strict_everywhere, would_rather,
};
use crate::model::{
    at, lemma_seat_index, seat_index, wish, ApplicantId, ApplicantInfo, LotteryResult, ProjectId,
    ProjectInfo,
};
use crate::outcome::{
    best_of_the_fair, displaces_nobody, enumerates, fits, is_outcome, is_placement, lists,
    passed_over, respects_capacity, seated_in, seated_list, seats_of,
};
use crate::ranking::{orders_strictly, orders_totally};
use crate::steps::follows_the_steps;
use std::cmp::Ordering;
use vstd::prelude::*;

verus! {

/// A sequence without repetitions whose items all occur in another is not
/// the longer of the two.
pub proof fn lemma_not_longer(x: Seq<int>, y: Seq<int>)
    requires
        x.no_duplicates(),
        forall|k: int| 0 <= k < x.len() ==> y.contains(#[trigger] x[k]),
    ensures
        x.len() <= y.len(),
{
    broadcast use vstd::seq_lib::seq_to_set_is_finite;

    x.unique_seq_to_set();
    y.lemma_cardinality_of_set();
    assert(x.to_set().subset_of(y.to_set())) by {
        assert forall|v: int| x.to_set().contains(v) implies y.to_set().contains(v) by {
            let k = choose|k: int| 0 <= k < x.len() && x[k] == v;
            assert(y.contains(x[k]));
        }
    }
    vstd::set_lib::lemma_len_subset(x.to_set(), y.to_set());
}

/// A sequence of `n` different numbers below `n` holds every number below
/// `n`.
pub proof fn lemma_turn_is_onto(turn: Seq<int>)
    requires
        turn.no_duplicates(),
        forall|i: int| 0 <= i < turn.len() ==> 0 <= #[trigger] turn[i] < turn.len(),
    ensures
        forall|v: int| 0 <= v < turn.len() ==> turn.contains(v),
{
    broadcast use vstd::seq_lib::seq_to_set_is_finite;

    let n = turn.len() as int;
    let all = vstd::set_lib::set_int_range(0, n);
    vstd::set_lib::lemma_int_range(0, n);
    turn.unique_seq_to_set();
    assert(turn.to_set().subset_of(all)) by {
        assert forall|v: int| turn.to_set().contains(v) implies all.contains(v) by {
            let k = choose|k: int| 0 <= k < turn.len() && turn[k] == v;
            assert(0 <= turn[k] < turn.len());
        }
    }
    vstd::set_lib::lemma_subset_equality(turn.to_set(), all);
    assert forall|v: int| 0 <= v < turn.len() implies turn.contains(v) by {
        assert(all.contains(v));
        assert(turn.to_set().contains(v));
    }
}

/// The place in `turn` at which the number `v` stands.
pub open spec fn place_in(turn: Seq<int>, v: int) -> int {
    choose|k: int| 0 <= k < turn.len() && turn[k] == v
}

/// The way back from a reordering.
pub open spec fn turned_back(turn: Seq<int>) -> Seq<int> {
    Seq::new(turn.len(), |v: int| place_in(turn, v))
}

/// A reordering can be undone: if `a` is `b` in the order of `turn`, then
/// `b` is `a` in the order of the way back.
pub proof fn lemma_reorders_back(a: Seq<ApplicantInfo>, b: Seq<ApplicantInfo>, turn: Seq<int>)
    requires
        reorders(a, b, turn),
    ensures
        reorders(b, a, turned_back(turn)),
        forall|v: int|
            0 <= v < b.len() ==> 0 <= #[trigger] turned_back(turn)[v] < a.len() && turn[turned_back(
                turn,
            )[v]] == v,
{
    lemma_turn_is_onto(turn);
    let back = turned_back(turn);
    assert forall|v: int|
        0 <= v < b.len() implies 0 <= #[trigger] back[v] < a.len() && turn[back[v]] == v by {
        assert(turn.contains(v));
    }
    assert forall|v1: int, v2: int|
        0 <= v1 < back.len() && 0 <= v2 < back.len() && v1 != v2 implies back[v1] != back[v2] by {
        assert(turn[back[v1]] == v1);
        assert(turn[back[v2]] == v2);
    }
    assert forall|v: int| 0 <= v < b.len() implies {
        &&& 0 <= #[trigger] back[v] < a.len()
        &&& b[v].id == a[back[v]].id
        &&& b[v].preferences@ == a[back[v]].preferences@
    } by {
        assert(turn[back[v]] == v);
    }
}

/// A matching that is fair for a list of applicants is fair for the same
/// applicants in another order.
pub proof fn lemma_fair_in_any_order(
    a: Seq<ApplicantInfo>,
    b: Seq<ApplicantInfo>,
    turn: Seq<int>,
    projects: Seq<ProjectInfo>,
    tb: Map<(ProjectId, ApplicantId, ApplicantId), Ordering>,
    mu: Map<ApplicantId, ProjectId>,
)
    requires
        reorders(a, b, turn),
        is_fair(b, projects, tb, mu),
    ensures
        is_fair(a, projects, tb, mu),
{
    assert forall|i: int, j: int, c: ApplicantId|
        0 <= i < a.len() && 0 <= j < a[i].preferences@.len() && #[trigger] would_rather(a, i, j, mu)
            && #[trigger] holds_seat(mu, c, wish(a, i, j)) implies tb[(wish(a, i, j), a[i].id, c)]
        != Ordering::Greater by {
        let i2 = turn[i];
        assert(would_rather(b, i2, j, mu)) by {
            assert forall|k: int| 0 <= k <= j implies !holds_seat(
                mu,
                b[i2].id,
                #[trigger] wish(b, i2, k),
            ) by {
                assert(wish(b, i2, k) == wish(a, i, k));
            }
        }
        assert(wish(b, i2, j) == wish(a, i, j));
        assert(holds_seat(mu, c, wish(b, i2, j)));
    }
}

/// An outcome is fair: where no two applicants share an identifier and the
/// table orders every project strictly, the placement that an outcome
/// writes out is, read as a matching, within the capacities and without
/// envy.
pub proof fn lemma_outcome_is_fair(
    apps: Seq<ApplicantInfo>,
    projects: Seq<ProjectInfo>,
    tb: Map<(ProjectId, ApplicantId, ApplicantId), Ordering>,
    place: Seq<Option<int>>,
    result: LotteryResult,
)
    requires
        projects.len() <= usize::MAX,
        distinct_ids(apps),
        strict_everywhere(projects, tb),
        respects_capacity(projects, result),
        fits(apps, projects, Some(tb), place, result),
    ensures
        is_fair(apps, projects, tb, matching_of(apps, place)),
{
    let mu = matching_of(apps, place);
    lemma_matching_of(apps, place);
    lemma_seat_index(projects);
    assert forall|p: ProjectId, s: Seq<ApplicantId>|
        seat_index(projects).contains_key(p.0) && s.no_duplicates() && #[trigger] all_hold(
            mu,
            s,
            p,
        ) implies s.len() <= seats_of(projects, p.0) by {
        assert(result.assignments@.dom().contains(p.0));
        assert(result.assignments@.contains_key(p.0));
        let list = result.assignments@[p.0]@;
        assert(lists(apps, place, Some(ProjectId(p.0)), list));
        let who = choose|who: Seq<int>| enumerates(apps, place, Some(ProjectId(p.0)), who, list);
        let x = Seq::new(s.len(), |k: int| seat_holder(apps, place, s[k]));
        assert forall|k: int| 0 <= k < x.len() implies who.contains(#[trigger] x[k]) by {
            assert(holds_seat(mu, s[k], p));
            assert(mu.contains_key(s[k]));
            assert(seated_in(apps, place, x[k]) == Some(ProjectId(p.0)));
        }
        assert forall|k1: int, k2: int|
            0 <= k1 < x.len() && 0 <= k2 < x.len() && k1 != k2 implies x[k1] != x[k2] by {
            assert(holds_seat(mu, s[k1], p));
            assert(holds_seat(mu, s[k2], p));
            assert(mu.contains_key(s[k1]));
            assert(mu.contains_key(s[k2]));
            assert(apps[x[k1]].id == s[k1]);
            assert(apps[x[k2]].id == s[k2]);
            assert(s[k1] != s[k2]);
        }
        lemma_not_longer(x, who);
    }
    assert forall|i: int, j: int, c: ApplicantId|
        0 <= i < apps.len() && 0 <= j < apps[i].preferences@.len() && #[trigger] would_rather(
            apps,
            i,
            j,
            mu,
        ) && #[trigger] holds_seat(mu, c, wish(apps, i, j)) implies tb[(
        wish(apps, i, j),
        apps[i].id,
        c,
    )] != Ordering::Greater by {
        let p = wish(apps, i, j);
        match place[i] {
            Some(k) => {
                assert(holds_seat(mu, apps[i].id, wish(apps, i, k)));
                if k <= j {
                    assert(!holds_seat(mu, apps[i].id, wish(apps, i, k)));
                }
            },
            None => {},
        }
        assert(j < passed_over(apps, place, i));
        assert(result.assignments@.contains_key(p.0));
        let slot = at(seat_index(projects)[p.0]);
        assert(projects[slot].id == p);
        assert(orders_strictly(tb, projects[slot].id));
        assert(displaces_nobody(tb, p, apps[i].id, seated_list(result, p)));
        let list = result.assignments@[p.0]@;
        assert(lists(apps, place, Some(ProjectId(p.0)), list));
        let who = choose|who: Seq<int>| enumerates(apps, place, Some(ProjectId(p.0)), who, list);
        assert(mu.contains_key(c));
        let ic = seat_holder(apps, place, c);
        assert(seated_in(apps, place, ic) == Some(ProjectId(p.0)));
        assert(who.contains(ic));
        let k = choose|k: int| 0 <= k < who.len() && who[k] == ic;
        assert(list[k] == c);
        assert(tb[(p, apps[i].id, seated_list(result, p)[k])] != Ordering::Greater);
    }
}

/// Reordering keeps identifiers apart.
pub proof fn lemma_distinct_in_any_order(
    a: Seq<ApplicantInfo>,
    b: Seq<ApplicantInfo>,
    turn: Seq<int>,
)
    requires
        reorders(a, b, turn),
        distinct_ids(b),
    ensures
        distinct_ids(a),
{
    assert forall|i: int, j: int|
        0 <= i < a.len() && 0 <= j < a.len() && i != j implies (#[trigger] a[i]).id
        != (#[trigger] a[j]).id by {
        assert(turn[i] != turn[j]);
        assert(a[i].id == b[turn[i]].id);
        assert(a[j].id == b[turn[j]].id);
    }
}

/// The applicant at `i` of list `a`, which is the applicant at `turn[i]` of
/// list `b`, has no worse a seat in the best fair placement of `a` than in
/// any fair placement of `b`.
proof fn lemma_no_worse(
    a: Seq<ApplicantInfo>,
    b: Seq<ApplicantInfo>,
    turn: Seq<int>,
    projects: Seq<ProjectInfo>,
    tb: Map<(ProjectId, ApplicantId, ApplicantId), Ordering>,
    place_a: Seq<Option<int>>,
    place_b: Seq<Option<int>>,
    i: int,
)
    requires
        reorders(a, b, turn),
        distinct_ids(b),
        is_placement(a, projects, place_a),
        is_placement(b, projects, place_b),
        best_of_the_fair(a, projects, tb, place_a),
        is_fair(b, projects, tb, matching_of(b, place_b)),
        0 <= i < a.len(),
    ensures
        place_b[turn[i]] matches Some(k) ==> (place_a[i] matches Some(h) && h <= k),
{
    let mu = matching_of(b, place_b);
    lemma_matching_of(b, place_b);
    lemma_fair_in_any_order(a, b, turn, projects, tb, mu);
    let i2 = turn[i];
    if place_b[i2] is Some {
        let k = place_b[i2]->0;
        assert(holds_seat(mu, b[i2].id, wish(b, i2, k)));
        assert(wish(a, i, k) == wish(b, i2, k));
        assert(holds_seat(mu, a[i].id, wish(a, i, k)));
        if k < passed_over(a, place_a, i) {
            assert(!holds_seat(mu, a[i].id, wish(a, i, k)));
        }
    }
}

/// Whoever `ids_a` lists for `target` is listed for it in `ids_b` too, where
/// the two placements seat every applicant alike.
proof fn lemma_listed_too(
    a: Seq<ApplicantInfo>,
    b: Seq<ApplicantInfo>,
    turn: Seq<int>,
    place_a: Seq<Option<int>>,
    place_b: Seq<Option<int>>,
    target: Option<ProjectId>,
    ids_a: Seq<ApplicantId>,
    ids_b: Seq<ApplicantId>,
)
    requires
        reorders(a, b, turn),
        place_a.len() == a.len(),
        place_b.len() == b.len(),
        forall|i: int| 0 <= i < a.len() ==> #[trigger] place_a[i] == place_b[turn[i]],
        lists(a, place_a, target, ids_a),
        lists(b, place_b, target, ids_b),
    ensures
        forall|x: ApplicantId| ids_a.contains(x) ==> ids_b.contains(x),
{
    let who_a = choose|who: Seq<int>| enumerates(a, place_a, target, who, ids_a);
    let who_b = choose|who: Seq<int>| enumerates(b, place_b, target, who, ids_b);
    assert forall|x: ApplicantId| ids_a.contains(x) implies ids_b.contains(x) by {
        let k = choose|k: int| 0 <= k < ids_a.len() && ids_a[k] == x;
        let i = who_a[k];
        let i2 = turn[i];
        assert(place_a[i] == place_b[i2]);
        assert(seated_in(a, place_a, i) == target);
        match place_a[i] {
            Some(h) => {
                assert(wish(a, i, h) == wish(b, i2, h));
            },
            None => {},
        }
        assert(seated_in(b, place_b, i2) == target);
        assert(who_b.contains(i2));
        let k2 = choose|k2: int| 0 <= k2 < who_b.len() && who_b[k2] == i2;
        assert(ids_b[k2] == x);
    }
}

/// The result names `a` in one of its lists.
pub open spec fn is_listed(result: LotteryResult, a: ApplicantId) -> bool {
    ||| result.unassigned@.contains(a)
    ||| exists|n: i32| result.assignments@.contains_key(n) && result.assignments@[n]@.contains(a)
}

/// Two results name the same applicants in every list, whatever the order
/// inside the lists.
pub open spec fn same_sets(r1: LotteryResult, r2: LotteryResult) -> bool {
    &&& r1.unassigned@.to_set() == r2.unassigned@.to_set()
    &&& r1.assignments@.dom() == r2.assignments@.dom()
    &&& forall|n: i32| #[trigger]
        r1.assignments@.contains_key(n) ==> r1.assignments@[n]@.to_set()
            == r2.assignments@[n]@.to_set()
}

/// The order of the applicants does not matter where the comparator never
/// ties: if no two applicants share an identifier and the table orders every
/// project strictly, then the outcomes of one configuration with its
/// applicants in two orders seat the same applicants in the same projects
/// and leave the same applicants without a seat.
pub proof fn lemma_order_independence(
    apps: Seq<ApplicantInfo>,
    shuffled: Seq<ApplicantInfo>,
    projects: Seq<ProjectInfo>,
    tb: Map<(ProjectId, ApplicantId, ApplicantId), Ordering>,
    r1: LotteryResult,
    r2: LotteryResult,
)
    requires
        projects.len() <= usize::MAX,
        is_reordered(shuffled, apps),
        distinct_ids(apps),
        strict_everywhere(projects, tb),
        is_outcome(apps, projects, Some(tb), r1),
        is_outcome(shuffled, projects, Some(tb), r2),
    ensures
        same_sets(r1, r2),
{
    let turn = choose|turn: Seq<int>| reorders(shuffled, apps, turn);
    let back = turned_back(turn);
    lemma_reorders_back(shuffled, apps, turn);
    lemma_distinct_in_any_order(shuffled, apps, turn);
    let place1 = choose|place: Seq<Option<int>>| fits(apps, projects, Some(tb), place, r1);
    let place2 = choose|place: Seq<Option<int>>| fits(shuffled, projects, Some(tb), place, r2);
    lemma_outcome_is_fair(apps, projects, tb, place1, r1);
    lemma_outcome_is_fair(shuffled, projects, tb, place2, r2);
    assert forall|i: int|
        0 <= i < shuffled.len() implies #[trigger] place2[i] == place1[turn[i]] by {
        let i1 = turn[i];
        assert(back[i1] == i) by {
            assert(turn[back[i1]] == i1);
        }
        lemma_no_worse(shuffled, apps, turn, projects, tb, place2, place1, i);
        lemma_no_worse(apps, shuffled, back, projects, tb, place1, place2, i1);
    }
    assert forall|i1: int|
        0 <= i1 < apps.len() implies #[trigger] place1[i1] == place2[back[i1]] by {
        assert(turn[back[i1]] == i1);
    }
    // the applicants without a seat
    lemma_listed_too(shuffled, apps, turn, place2, place1, None, r2.unassigned@, r1.unassigned@);
    lemma_listed_too(apps, shuffled, back, place1, place2, None, r1.unassigned@, r2.unassigned@);
    assert(r1.unassigned@.to_set() =~= r2.unassigned@.to_set());
    // the seats
    assert(r1.assignments@.dom() =~= r2.assignments@.dom());
    assert forall|n: i32| #[trigger]
        r1.assignments@.contains_key(n) implies r1.assignments@[n]@.to_set()
        == r2.assignments@[n]@.to_set() by {
        assert(r2.assignments@.contains_key(n));
        let l1 = r1.assignments@[n]@;
        let l2 = r2.assignments@[n]@;
        lemma_listed_too(shuffled, apps, turn, place2, place1, Some(ProjectId(n)), l2, l1);
        lemma_listed_too(apps, shuffled, back, place1, place2, Some(ProjectId(n)), l1, l2);
        assert(l1.to_set() =~= l2.to_set());
    }
}

/// Nobody seated can be displaced by somebody left out: let the table be a
/// total preorder for a project, `x` an applicant seated in it, and `y` an
/// applicant that ranks the project in its slot `j` and is seated in none of
/// the projects that it ranks up to that slot. Then `y` is not strictly
/// stronger than `x` for that project.
pub proof fn lemma_local_stability(
    apps: Seq<ApplicantInfo>,
    projects: Seq<ProjectInfo>,
    tb: Map<(ProjectId, ApplicantId, ApplicantId), Ordering>,
    result: LotteryResult,
    x: ApplicantId,
    y: int,
    j: int,
)
    requires
        is_outcome(apps, projects, Some(tb), result),
        0 <= y < apps.len(),
        0 <= j < apps[y].preferences@.len(),
        orders_totally(tb, wish(apps, y, j)),
        result.assignments@.contains_key(wish(apps, y, j).0),
        seated_list(result, wish(apps, y, j)).contains(x),
        forall|k: int|
            0 <= k <= j && result.assignments@.contains_key(wish(apps, y, k).0) ==> !seated_list(
                result,
                #[trigger] wish(apps, y, k),
            ).contains(apps[y].id),
    ensures
        tb[(wish(apps, y, j), apps[y].id, x)] != Ordering::Greater,
{
    let place = choose|place: Seq<Option<int>>| fits(apps, projects, Some(tb), place, result);
    let p = wish(apps, y, j);
    match place[y] {
        Some(h) => {
            let q = wish(apps, y, h);
            assert(result.assignments@.contains_key(q.0));
            let list = result.assignments@[q.0]@;
            let who = choose|who: Seq<int>|
                enumerates(apps, place, Some(ProjectId(q.0)), who, list);
            assert(seated_in(apps, place, y) == Some(ProjectId(q.0)));
            assert(who.contains(y));
            let k = choose|k: int| 0 <= k < who.len() && who[k] == y;
            assert(list[k] == apps[y].id);
            assert(seated_list(result, q).contains(apps[y].id));
            assert(h > j);
        },
        None => {},
    }
    assert(j < passed_over(apps, place, y));
    assert(displaces_nobody(tb, p, apps[y].id, seated_list(result, p)));
    let k = choose|k: int| 0 <= k < seated_list(result, p).len() && seated_list(result, p)[k] == x;
    assert(tb[(p, apps[y].id, seated_list(result, p)[k])] != Ordering::Greater);
}

/// Where the comparator never ties, the draw changes nothing: if no two
/// applicants share an identifier and the table orders every project
/// strictly, then what the engine gives for the applicants as configured and
/// what it gives for them in a drawn order seat the same applicants in the
/// same projects.
pub proof fn lemma_draw_changes_nothing(
    apps: Seq<ApplicantInfo>,
    projects: Seq<ProjectInfo>,
    tb: Map<(ProjectId, ApplicantId, ApplicantId), Ordering>,
    plain: LotteryResult,
    drawn: LotteryResult,
)
    requires
        projects.len() <= usize::MAX,
        distinct_ids(apps),
        strict_everywhere(projects, tb),
        is_outcome(apps, projects, Some(tb), plain),
        exists|order: Seq<ApplicantInfo>| is_drawn(order, apps, projects, Some(tb), drawn),
    ensures
        same_sets(plain, drawn),
{
    let order = choose|order: Seq<ApplicantInfo>| is_drawn(order, apps, projects, Some(tb), drawn);
    lemma_order_independence(apps, order, projects, tb, plain, drawn);
}

/// Two results hold the same lists: the same applicants in the same order
/// in `unassigned` and under every project number.
pub open spec fn same_lists(r1: LotteryResult, r2: LotteryResult) -> bool {
    &&& r1.unassigned@ == r2.unassigned@
    &&& r1.assignments@.dom() == r2.assignments@.dom()
    &&& forall|n: i32| #[trigger]
        r1.assignments@.contains_key(n) ==> r1.assignments@[n]@ == r2.assignments@[n]@
}

/// Running the engine again changes nothing: two results that the engine's
/// steps lead to on one configuration, with its applicants in one order and
/// under one table, hold the same lists.
pub proof fn lemma_same_again(
    apps: Seq<ApplicantInfo>,
    projects: Seq<ProjectInfo>,
    tb: Map<(ProjectId, ApplicantId, ApplicantId), Ordering>,
    r1: LotteryResult,
    r2: LotteryResult,
)
    requires
        follows_the_steps(apps, projects, tb, r1),
        follows_the_steps(apps, projects, tb, r2),
    ensures
        same_lists(r1, r2),
{
}

/// Every applicant is in exactly one list: where no two applicants share an
/// identifier, the lists of an outcome name nobody twice, no two of them
/// name the same applicant, and they name an identifier if and only if it is
/// an applicant's.
pub proof fn lemma_partition(
    apps: Seq<ApplicantInfo>,
    projects: Seq<ProjectInfo>,
    table: Option<Map<(ProjectId, ApplicantId, ApplicantId), Ordering>>,
    result: LotteryResult,
)
    requires
        distinct_ids(apps),
        is_outcome(apps, projects, table, result),
    ensures
        result.unassigned@.no_duplicates(),
        forall|n: i32| #[trigger]
            result.assignments@.contains_key(n) ==> result.assignments@[n]@.no_duplicates(),
        forall|n: i32, a: ApplicantId|
            result.assignments@.contains_key(n) && #[trigger] result.assignments@[n]@.contains(a)
                ==> !result.unassigned@.contains(a),
        forall|n: i32, m: i32, a: ApplicantId|
            #![trigger result.assignments@[n]@.contains(a), result.assignments@[m]@.contains(a)]
            result.assignments@.contains_key(n) && result.assignments@.contains_key(m) && n != m
                && result.assignments@[n]@.contains(a) ==> !result.assignments@[m]@.contains(a),
        forall|i: int|
            0 <= i < apps.len() ==> is_listed(result, #[trigger] apps[i].id),
        forall|a: ApplicantId|
            is_listed(result, a) ==> exists|i: int|
                0 <= i < apps.len() && #[trigger] apps[i].id == a,
{
    let place = choose|place: Seq<Option<int>>| fits(apps, projects, table, place, result);
    let gone = result.unassigned@;
    let who0 = choose|who: Seq<int>| enumerates(apps, place, None, who, gone);
    assert forall|k1: int, k2: int|
        0 <= k1 < gone.len() && 0 <= k2 < gone.len() && k1 != k2 implies gone[k1] != gone[k2] by {
        assert(who0[k1] != who0[k2]);
    }
    assert forall|n: i32| #[trigger]
        result.assignments@.contains_key(n) implies result.assignments@[n]@.no_duplicates() by {
        let list = result.assignments@[n]@;
        let who = choose|who: Seq<int>| enumerates(apps, place, Some(ProjectId(n)), who, list);
        assert forall|k1: int, k2: int|
            0 <= k1 < list.len() && 0 <= k2 < list.len() && k1 != k2 implies list[k1]
            != list[k2] by {
            assert(who[k1] != who[k2]);
        }
    }
    assert forall|n: i32, a: ApplicantId|
        result.assignments@.contains_key(n) && #[trigger] result.assignments@[n]@.contains(
            a,
        ) implies !result.unassigned@.contains(a) by {
        let list = result.assignments@[n]@;
        let who = choose|who: Seq<int>| enumerates(apps, place, Some(ProjectId(n)), who, list);
        let k = choose|k: int| 0 <= k < list.len() && list[k] == a;
        if gone.contains(a) {
            let k0 = choose|k0: int| 0 <= k0 < gone.len() && gone[k0] == a;
            assert(who0[k0] == who[k]);
            assert(seated_in(apps, place, who0[k0]) == None::<ProjectId>);
        }
    }
    assert forall|n: i32, m: i32, a: ApplicantId|
        #![trigger result.assignments@[n]@.contains(a), result.assignments@[m]@.contains(a)]
        result.assignments@.contains_key(n) && result.assignments@.contains_key(m) && n != m
            && result.assignments@[n]@.contains(a) implies !result.assignments@[m]@.contains(a) by {
        let l1 = result.assignments@[n]@;
        let l2 = result.assignments@[m]@;
        let w1 = choose|who: Seq<int>| enumerates(apps, place, Some(ProjectId(n)), who, l1);
        let w2 = choose|who: Seq<int>| enumerates(apps, place, Some(ProjectId(m)), who, l2);
        let k1 = choose|k: int| 0 <= k < l1.len() && l1[k] == a;
        if l2.contains(a) {
            let k2 = choose|k: int| 0 <= k < l2.len() && l2[k] == a;
            assert(w1[k1] == w2[k2]);
            assert(seated_in(apps, place, w1[k1]) == Some(ProjectId(n)));
        }
    }
    assert forall|i: int| 0 <= i < apps.len() implies is_listed(result, #[trigger] apps[i].id) by {
        match place[i] {
            Some(h) => {
                let n = wish(apps, i, h).0;
                assert(passed_over(apps, place, i) == h);
                assert(seated_in(apps, place, i) == Some(ProjectId(n)));
                assert(result.assignments@.contains_key(n));
                let list = result.assignments@[n]@;
                let who = choose|who: Seq<int>|
                    enumerates(apps, place, Some(ProjectId(n)), who, list);
                assert(who.contains(i));
                let k = choose|k: int| 0 <= k < who.len() && who[k] == i;
                assert(list[k] == apps[i].id);
                assert(list.contains(apps[i].id));
            },
            None => {
                assert(seated_in(apps, place, i) == None::<ProjectId>);
                assert(who0.contains(i));
                let k = choose|k: int| 0 <= k < who0.len() && who0[k] == i;
                assert(gone[k] == apps[i].id);
                assert(gone.contains(apps[i].id));
            },
        }
    }
    assert forall|a: ApplicantId| is_listed(result, a) implies exists|i: int|
        0 <= i < apps.len() && #[trigger] apps[i].id == a by {
        if gone.contains(a) {
            let k = choose|k: int| 0 <= k < gone.len() && gone[k] == a;
            assert(apps[who0[k]].id == a);
        } else {
            let n = choose|n: i32|
                result.assignments@.contains_key(n) && result.assignments@[n]@.contains(a);
            let list = result.assignments@[n]@;
            let who = choose|who: Seq<int>| enumerates(apps, place, Some(ProjectId(n)), who, list);
            let k = choose|k: int| 0 <= k < list.len() && list[k] == a;
            assert(apps[who[k]].id == a);
        }
    }
}

} // verus!
