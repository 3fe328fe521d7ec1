use std::cmp::Ordering;

use project_assignment_lottery_system::lottery::copy_applicants;
use project_assignment_lottery_system::seats::weakest_first;
use project_assignment_lottery_system::setup::{build_index, has_room, line_up};
use project_assignment_lottery_system::{
    admission, check_configuration, run_assignments, Admission, ApplicantId, ApplicantInfo,
    Claimant, LotteryConfiguration, ProjectId, ProjectInfo,
};

fn applicant(id: i32, preferences: &[i32]) -> ApplicantInfo {
    ApplicantInfo {
        id: ApplicantId(id),
        preferences: preferences.iter().map(|p| ProjectId(*p)).collect(),
    }
}

fn project(id: i32, seats: i32) -> ProjectInfo {
    ProjectInfo { id: ProjectId(id), seats }
}

fn higher_id_wins(_project: ProjectId, a: ApplicantId, b: ApplicantId) -> Ordering {
    a.0.cmp(&b.0)
}

#[test]
fn room_means_a_free_seat_whatever_the_answer() {
    assert_eq!(admission(0, 1, None), Admission::FreeSeat);
    assert_eq!(admission(2, 3, Some(Ordering::Less)), Admission::FreeSeat);
    assert_eq!(admission(2, 3, Some(Ordering::Greater)), Admission::FreeSeat);
}

#[test]
fn only_the_strictly_stronger_takes_a_seat_in_a_full_project() {
    assert_eq!(admission(3, 3, Some(Ordering::Greater)), Admission::SeatOfWeakest);
    assert_eq!(admission(3, 3, Some(Ordering::Equal)), Admission::TurnedAway);
    assert_eq!(admission(3, 3, Some(Ordering::Less)), Admission::TurnedAway);
    assert_eq!(admission(3, 3, None), Admission::TurnedAway);
}

#[test]
fn a_project_without_seats_turns_everybody_away() {
    assert_eq!(admission(0, 0, None), Admission::TurnedAway);
    assert_eq!(admission(0, 0, Some(Ordering::Equal)), Admission::TurnedAway);
}

#[test]
fn room_is_counted_against_the_seats() {
    assert!(has_room(0, 1));
    assert!(has_room(14, 15));
    assert!(!has_room(15, 15));
    assert!(!has_room(0, 0));
    assert!(!has_room(0, -1));
}

#[test]
fn the_weaker_claimant_is_the_greater_item() {
    let weak = Claimant { id: ApplicantId(1), applicant: 0, cursor: 1 };
    let strong = Claimant { id: ApplicantId(9), applicant: 1, cursor: 1 };
    let f = higher_id_wins;
    assert_eq!(weakest_first(&f, ProjectId(0), &weak, &strong), Ordering::Greater);
    assert_eq!(weakest_first(&f, ProjectId(0), &strong, &weak), Ordering::Less);
    assert_eq!(weakest_first(&f, ProjectId(0), &weak, &weak), Ordering::Equal);
}

#[test]
fn the_comparator_is_asked_about_the_project_at_hand() {
    let per_project = |p: ProjectId, a: ApplicantId, b: ApplicantId| {
        if p.0 == 0 {
            a.0.cmp(&b.0)
        } else {
            b.0.cmp(&a.0)
        }
    };
    let one = Claimant { id: ApplicantId(1), applicant: 0, cursor: 1 };
    let two = Claimant { id: ApplicantId(2), applicant: 1, cursor: 1 };
    assert_eq!(weakest_first(&per_project, ProjectId(0), &one, &two), Ordering::Greater);
    assert_eq!(weakest_first(&per_project, ProjectId(1), &one, &two), Ordering::Less);
    let config = LotteryConfiguration {
        applicants: vec![applicant(2, &[1, 0]), applicant(1, &[0, 1])],
        projects: vec![project(0, 1), project(1, 1)],
        ordering_fn: per_project,
    };
    // 1 sits in project 0; 2 sits in project 1; nobody is displaced.
    let result = run_assignments(&config);
    assert_eq!(result.assignments[&0], vec![ApplicantId(1)]);
    assert_eq!(result.assignments[&1], vec![ApplicantId(2)]);
}

#[test]
fn a_sound_configuration_is_accepted() {
    let applicants = vec![applicant(0, &[0, 1, 0]), applicant(1, &[]), applicant(1, &[1])];
    let projects = vec![project(0, 0), project(1, 2), project(1, 5)];
    assert!(check_configuration(&applicants, &projects));
    assert!(check_configuration(&Vec::new(), &Vec::new()));
    assert!(check_configuration(&vec![applicant(0, &[])], &Vec::new()));
}

#[test]
fn an_unknown_project_is_refused() {
    let applicants = vec![applicant(0, &[0]), applicant(1, &[0, 7])];
    let projects = vec![project(0, 1), project(1, 1)];
    assert!(!check_configuration(&applicants, &projects));
    assert!(!check_configuration(&vec![applicant(0, &[0])], &Vec::new()));
}

#[test]
fn a_negative_number_of_seats_is_refused() {
    let applicants = vec![applicant(0, &[0])];
    let projects = vec![project(0, 1), project(1, -1)];
    assert!(!check_configuration(&applicants, &projects));
    assert!(!check_configuration(&Vec::new(), &vec![project(3, i32::MIN)]));
}

#[test]
fn the_index_points_at_the_later_of_two_equal_numbers() {
    let projects = vec![project(4, 1), project(9, 1), project(4, 2)];
    let index = build_index(&projects);
    assert_eq!(index.len(), 2);
    assert_eq!(index[&4], 2);
    assert_eq!(index[&9], 1);
    assert!(build_index(&Vec::new()).is_empty());
}

#[test]
fn everybody_lines_up_with_the_cursor_on_the_first_wish() {
    let applicants = vec![applicant(5, &[0]), applicant(3, &[])];
    let stack = line_up(&applicants);
    assert_eq!(stack.len(), 2);
    assert_eq!((stack[0].id, stack[0].applicant, stack[0].cursor), (ApplicantId(5), 0, 0));
    assert_eq!((stack[1].id, stack[1].applicant, stack[1].cursor), (ApplicantId(3), 1, 0));
    assert!(line_up(&Vec::new()).is_empty());
}

#[test]
fn a_copy_has_the_same_applicants_in_the_same_order() {
    let applicants = vec![applicant(5, &[0, 2, 0]), applicant(3, &[]), applicant(5, &[1])];
    let copy = copy_applicants(&applicants);
    assert_eq!(copy.len(), 3);
    for (a, b) in applicants.iter().zip(copy.iter()) {
        assert_eq!(a.id, b.id);
        assert_eq!(a.preferences, b.preferences);
    }
}
