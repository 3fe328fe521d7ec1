//! The lottery: `run_lottery` puts the applicants in a random order and runs
//! the engine on them.

use crate::engine::assign;
use crate::model::{
    is_admissible, is_configured, wish, ApplicantId, ApplicantInfo, LotteryConfiguration,
    LotteryResult, ProjectId, ProjectInfo,
};
use crate::outcome::is_outcome;
use crate::ranking::{is_callable, table_of};
use crate::steps::follows_the_steps;
use rand::seq::SliceRandom;
use rand::Rng;
use std::cmp::Ordering;
use vstd::prelude::*;

verus! {

/// `a` holds the items of `b`, each as often as `b` does, in the order that
/// `turn` gives: item `i` of `a` is item `turn[i]` of `b`.
pub open spec fn rearranges<T>(a: Seq<T>, b: Seq<T>, turn: Seq<int>) -> bool {
    &&& a.len() == b.len()
    &&& turn.len() == b.len()
    &&& turn.no_duplicates()
    &&& forall|i: int| 0 <= i < a.len() ==> 0 <= #[trigger] turn[i] < b.len() && a[i] == b[turn[i]]
}

/// `a` is `b` in some order.
pub open spec fn is_rearranged<T>(a: Seq<T>, b: Seq<T>) -> bool {
    exists|turn: Seq<int>| rearranges(a, b, turn)
}

/// `a` names the applicants of `b`, with the same identifiers and the same
/// preference lists, in the order that `turn` gives.
pub open spec fn reorders(a: Seq<ApplicantInfo>, b: Seq<ApplicantInfo>, turn: Seq<int>) -> bool {
    &&& a.len() == b.len()
    &&& turn.len() == b.len()
    &&& turn.no_duplicates()
    &&& forall|i: int|
        0 <= i < a.len() ==> {
            &&& 0 <= #[trigger] turn[i] < b.len()
            &&& a[i].id == b[turn[i]].id
            &&& a[i].preferences@ == b[turn[i]].preferences@
        }
}

/// `a` is the applicant list `b` in some order.
pub open spec fn is_reordered(a: Seq<ApplicantInfo>, b: Seq<ApplicantInfo>) -> bool {
    exists|turn: Seq<int>| reorders(a, b, turn)
}

/// The result is what the engine gives for the applicants in the order
/// `order`, which is some order of `apps`: an outcome, and, where the
/// comparator is a function, what the engine's steps lead to.
pub open spec fn is_drawn(
    order: Seq<ApplicantInfo>,
    apps: Seq<ApplicantInfo>,
    projects: Seq<ProjectInfo>,
    table: Option<Map<(ProjectId, ApplicantId, ApplicantId), Ordering>>,
    result: LotteryResult,
) -> bool {
    &&& is_reordered(order, apps)
    &&& is_outcome(order, projects, table, result)
    &&& table matches Some(tb) ==> follows_the_steps(order, projects, tb, result)
}

/// A copy of the applicant list: the same identifiers and preference lists
/// in the same order.
pub fn copy_applicants(apps: &Vec<ApplicantInfo>) -> (copy: Vec<ApplicantInfo>)
    ensures
        copy@.len() == apps@.len(),
        forall|i: int|
            0 <= i < apps@.len() ==> (#[trigger] copy@[i]).id == apps@[i].id
                && copy@[i].preferences@ == apps@[i].preferences@,
{
    let mut copy: Vec<ApplicantInfo> = Vec::new();
    let mut i: usize = 0;
    while i < apps.len()
        invariant
            i <= apps.len(),
            copy@.len() == i,
            forall|k: int|
                0 <= k < i ==> (#[trigger] copy@[k]).id == apps@[k].id && copy@[k].preferences@
                    == apps@[k].preferences@,
        decreases apps.len() - i,
    {
        let from = &apps[i].preferences;
        let mut preferences: Vec<ProjectId> = Vec::new();
        let mut j: usize = 0;
        while j < from.len()
            invariant
                j <= from.len(),
                preferences@ == from@.take(j as int),
            decreases from.len() - j,
        {
            preferences.push(from[j]);
            proof {
                assert(from@.take(j + 1) =~= from@.take(j as int).push(from@[j as int]));
            }
            j += 1;
        }
        proof {
            assert(from@.take(from@.len() as int) =~= from@);
        }
        copy.push(ApplicantInfo { id: apps[i].id, preferences });
        i += 1;
    }
    copy
}

/// `SliceRandom::shuffle` of `rand` on the applicant list: a run of swaps,
/// so that the list holds afterwards what it held before, in an order that
/// depends on the random source.
#[verifier::external_body]
pub(crate) fn shuffle_applicants<R: Rng>(applicants: &mut Vec<ApplicantInfo>, rng: &mut R)
    ensures
        is_rearranged(final(applicants)@, old(applicants)@),
{
    applicants.shuffle(rng)
}

/// Assigns the applicants of `config` as `run_assignments` does, after
/// putting them in a random order drawn from `rng`. Where the comparator
/// ties, the order decides, so that this makes a fair lottery of the ties.
///
/// The result is what `run_assignments` gives for the configuration with its
/// applicants in some order.
pub fn run_lottery<F: Fn(ProjectId, ApplicantId, ApplicantId) -> Ordering, R: Rng>(
    config: &LotteryConfiguration<F>,
    rng: &mut R,
) -> (result: LotteryResult)
    requires
        is_admissible(config.applicants@, config.projects@),
        is_callable(config.ordering_fn),
    ensures
        exists|order: Seq<ApplicantInfo>|
            is_drawn(
                order,
                config.applicants@,
                config.projects@,
                table_of(config.ordering_fn),
                result,
            ),
{
    let mut applicants = copy_applicants(&config.applicants);
    let ghost copied = applicants@;
    shuffle_applicants(&mut applicants, rng);
    proof {
        let turn = choose|turn: Seq<int>| rearranges(applicants@, copied, turn);
        assert(reorders(applicants@, config.applicants@, turn));
        assert forall|i: int, j: int|
            0 <= i < applicants@.len() && 0 <= j
                < applicants@[i].preferences@.len() implies is_configured(
            config.projects@,
            #[trigger] wish(applicants@, i, j),
        ) by {
            assert(wish(applicants@, i, j) == wish(config.applicants@, turn[i], j));
        }
    }
    let result = assign(&applicants, &config.projects, &config.ordering_fn);
    proof {
        assert(is_drawn(
            applicants@,
            config.applicants@,
            config.projects@,
            table_of(config.ordering_fn),
            result,
        ));
    }
    result
}

} // verus!
