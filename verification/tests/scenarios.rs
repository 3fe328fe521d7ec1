use std::cmp::Ordering;
use std::collections::HashSet;

use project_assignment_lottery_system::{
    run_assignments, run_lottery, ApplicantId, ApplicantInfo, LotteryConfiguration,
    LotteryResult, ProjectId, ProjectInfo,
};
use rand::{rngs::StdRng, SeedableRng};

fn lower_id_wins(_project: ProjectId, a: ApplicantId, b: ApplicantId) -> Ordering {
    b.0.cmp(&a.0)
}

fn higher_id_wins(_project: ProjectId, a: ApplicantId, b: ApplicantId) -> Ordering {
    a.0.cmp(&b.0)
}

fn all_tied(_project: ProjectId, _a: ApplicantId, _b: ApplicantId) -> Ordering {
    Ordering::Equal
}

fn applicant(id: i32, preferences: &[i32]) -> ApplicantInfo {
    ApplicantInfo {
        id: ApplicantId(id),
        preferences: preferences.iter().map(|p| ProjectId(*p)).collect(),
    }
}

fn project(id: i32, seats: i32) -> ProjectInfo {
    ProjectInfo { id: ProjectId(id), seats }
}

/// Applicants are taken from the end of the list, so a processing order is
/// written down back to front.
fn in_processing_order(mut applicants: Vec<ApplicantInfo>) -> Vec<ApplicantInfo> {
    applicants.reverse();
    applicants
}

fn three_applicants() -> Vec<ApplicantInfo> {
    in_processing_order(vec![applicant(0, &[0]), applicant(1, &[0, 1]), applicant(2, &[1])])
}

fn seated(result: &LotteryResult, project: i32) -> HashSet<i32> {
    result.assignments[&project].iter().map(|a| a.0).collect()
}

fn ids(list: &[i32]) -> HashSet<i32> {
    list.iter().copied().collect()
}

fn unassigned(result: &LotteryResult) -> Vec<i32> {
    result.unassigned.iter().map(|a| a.0).collect()
}

#[test]
fn lower_id_keeps_its_seat() {
    let config = LotteryConfiguration {
        applicants: three_applicants(),
        projects: vec![project(0, 1), project(1, 1)],
        ordering_fn: lower_id_wins,
    };
    let result = run_assignments(&config);
    assert_eq!(result.assignments.len(), 2);
    assert_eq!(seated(&result, 0), ids(&[0]));
    assert_eq!(seated(&result, 1), ids(&[1]));
    assert_eq!(unassigned(&result), vec![2]);
}

#[test]
fn higher_id_takes_the_seat() {
    let config = LotteryConfiguration {
        applicants: three_applicants(),
        projects: vec![project(0, 1), project(1, 1)],
        ordering_fn: higher_id_wins,
    };
    let result = run_assignments(&config);
    assert_eq!(result.assignments.len(), 2);
    assert_eq!(seated(&result, 0), ids(&[1]));
    assert_eq!(seated(&result, 1), ids(&[2]));
    assert_eq!(unassigned(&result), vec![0]);
}

#[test]
fn ties_never_take_a_seat() {
    let config = LotteryConfiguration {
        applicants: three_applicants(),
        projects: vec![project(0, 1), project(1, 1)],
        ordering_fn: all_tied,
    };
    let result = run_assignments(&config);
    assert_eq!(seated(&result, 0), ids(&[0]));
    assert_eq!(seated(&result, 1), ids(&[1]));
    assert_eq!(unassigned(&result), vec![2]);
}

#[test]
fn the_strongest_fill_a_scarce_project() {
    let everyone: Vec<ApplicantInfo> = (0..7).map(|i| applicant(i, &[0])).collect();
    let config = LotteryConfiguration {
        applicants: everyone,
        projects: vec![project(0, 3)],
        ordering_fn: higher_id_wins,
    };
    let result = run_assignments(&config);
    assert_eq!(seated(&result, 0), ids(&[4, 5, 6]));
    assert_eq!(result.unassigned.len(), 4);
    assert_eq!(unassigned(&result).into_iter().collect::<HashSet<i32>>(), ids(&[0, 1, 2, 3]));
}

#[test]
fn the_strongest_fill_a_scarce_project_in_any_order() {
    let everyone: Vec<ApplicantInfo> = (0..7).map(|i| applicant(i, &[0])).collect();
    let config = LotteryConfiguration {
        applicants: everyone,
        projects: vec![project(0, 3)],
        ordering_fn: lower_id_wins,
    };
    let mut rng = StdRng::seed_from_u64(7);
    let result = run_lottery(&config, &mut rng);
    assert_eq!(seated(&result, 0), ids(&[0, 1, 2]));
    assert_eq!(unassigned(&result).into_iter().collect::<HashSet<i32>>(), ids(&[3, 4, 5, 6]));
}

#[test]
fn no_applicants_leave_every_project_empty() {
    let config = LotteryConfiguration {
        applicants: Vec::new(),
        projects: vec![project(0, 2), project(5, 0)],
        ordering_fn: all_tied,
    };
    let result = run_assignments(&config);
    assert!(result.unassigned.is_empty());
    assert!(result.assignments.values().all(|list| list.is_empty()));
    assert_eq!(result.assignments.len(), 2);
    let mut rng = StdRng::seed_from_u64(1);
    let drawn = run_lottery(&config, &mut rng);
    assert!(drawn.unassigned.is_empty());
    assert!(drawn.assignments.values().all(|list| list.is_empty()));
}

#[test]
fn no_projects_leave_an_empty_map() {
    let config = LotteryConfiguration {
        applicants: vec![applicant(3, &[]), applicant(4, &[])],
        projects: Vec::new(),
        ordering_fn: all_tied,
    };
    let result = run_assignments(&config);
    assert!(result.assignments.is_empty());
    assert_eq!(unassigned(&result), vec![4, 3]);
}

#[test]
fn a_project_without_seats_admits_nobody() {
    let config = LotteryConfiguration {
        applicants: in_processing_order(vec![applicant(0, &[0, 1]), applicant(1, &[0])]),
        projects: vec![project(0, 0), project(1, 1)],
        ordering_fn: higher_id_wins,
    };
    let result = run_assignments(&config);
    assert!(seated(&result, 0).is_empty());
    assert_eq!(seated(&result, 1), ids(&[0]));
    assert_eq!(unassigned(&result), vec![1]);
}

#[test]
fn a_displaced_applicant_goes_on_with_its_own_list() {
    // 0 sits in project 0 first; 1 takes the seat; 0 goes on to project 1,
    // which is the next entry of its own list, not the first one again.
    let config = LotteryConfiguration {
        applicants: in_processing_order(vec![applicant(0, &[0, 1]), applicant(1, &[0, 1])]),
        projects: vec![project(0, 1), project(1, 1)],
        ordering_fn: higher_id_wins,
    };
    let result = run_assignments(&config);
    assert_eq!(seated(&result, 0), ids(&[1]));
    assert_eq!(seated(&result, 1), ids(&[0]));
    assert!(result.unassigned.is_empty());
}

#[test]
fn a_repeated_preference_is_asked_for_again() {
    let config = LotteryConfiguration {
        applicants: in_processing_order(vec![applicant(0, &[0]), applicant(1, &[0, 0])]),
        projects: vec![project(0, 1)],
        ordering_fn: lower_id_wins,
    };
    let result = run_assignments(&config);
    assert_eq!(seated(&result, 0), ids(&[0]));
    assert_eq!(unassigned(&result), vec![1]);
}

#[test]
fn of_two_projects_with_one_number_the_later_counts() {
    let config = LotteryConfiguration {
        applicants: in_processing_order(vec![applicant(0, &[9]), applicant(1, &[9])]),
        projects: vec![project(9, 0), project(9, 2)],
        ordering_fn: all_tied,
    };
    let result = run_assignments(&config);
    assert_eq!(result.assignments.len(), 1);
    assert_eq!(seated(&result, 9), ids(&[0, 1]));
    assert!(result.unassigned.is_empty());
}

#[test]
fn every_applicant_is_in_exactly_one_list() {
    let config = LotteryConfiguration {
        applicants: (0..40).map(|i| applicant(i, &[i % 3, (i + 1) % 3])).collect(),
        projects: vec![project(0, 4), project(1, 5), project(2, 6)],
        ordering_fn: |p: ProjectId, a: ApplicantId, b: ApplicantId| {
            ((a.0 * 7 + p.0) % 11).cmp(&((b.0 * 7 + p.0) % 11))
        },
    };
    let result = run_assignments(&config);
    let mut seen: Vec<i32> = unassigned(&result);
    for list in result.assignments.values() {
        seen.extend(list.iter().map(|a| a.0));
    }
    seen.sort();
    assert_eq!(seen, (0..40).collect::<Vec<i32>>());
    assert_eq!(result.assignments[&0].len(), 4);
    assert_eq!(result.assignments[&1].len(), 5);
    assert_eq!(result.assignments[&2].len(), 6);
    assert_eq!(result.unassigned.len(), 25);
}

#[test]
fn the_same_configuration_gives_the_same_result() {
    let make = || LotteryConfiguration {
        applicants: (0..30).map(|i| applicant(i, &[i % 4, (i + 2) % 4, 1])).collect(),
        projects: vec![project(0, 3), project(1, 3), project(2, 3), project(3, 3)],
        ordering_fn: all_tied,
    };
    let first = run_assignments(&make());
    let second = run_assignments(&make());
    assert_eq!(first.unassigned, second.unassigned);
    assert_eq!(first.assignments, second.assignments);
}

#[test]
fn nobody_seated_is_weaker_than_one_turned_away() {
    let config = LotteryConfiguration {
        applicants: (0..25).map(|i| applicant(i, &[(i * 3) % 5, (i + 1) % 5])).collect(),
        projects: (0..5).map(|p| project(p, 2)).collect(),
        ordering_fn: higher_id_wins,
    };
    let result = run_assignments(&config);
    for who in &config.applicants {
        let own = result
            .assignments
            .iter()
            .find(|(_, list)| list.contains(&who.id))
            .map(|(p, _)| *p);
        for wished in &who.preferences {
            if Some(wished.0) == own {
                break;
            }
            let there = &result.assignments[&wished.0];
            assert_eq!(there.len(), 2);
            assert!(there.iter().all(|other| other.0 > who.id.0));
        }
    }
}
