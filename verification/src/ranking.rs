//! The comparator seen as a table, and the orders that a table can be.

use crate::model::{ApplicantId, ProjectId};
use std::cmp::Ordering;
use vstd::prelude::*;

verus! {

/// The comparator's answers as a table: for each project and pair of
/// applicants, an answer that the comparator can give.
pub open spec fn standing<F: Fn(ProjectId, ApplicantId, ApplicantId) -> Ordering>(f: F) -> Map<
    (ProjectId, ApplicantId, ApplicantId),
    Ordering,
> {
    Map::new(
        |k: (ProjectId, ApplicantId, ApplicantId)| true,
        |k: (ProjectId, ApplicantId, ApplicantId)| choose|o: Ordering| call_ensures(f, k, o),
    )
}

/// The comparator may be asked about any project and any two applicants.
pub open spec fn is_callable<F: Fn(ProjectId, ApplicantId, ApplicantId) -> Ordering>(f: F) -> bool {
    forall|k: (ProjectId, ApplicantId, ApplicantId)| call_requires(f, k)
}

/// The comparator gives one answer to one question: it is a function, and
/// `standing` is its table.
pub open spec fn is_consistent<F: Fn(ProjectId, ApplicantId, ApplicantId) -> Ordering>(
    f: F,
) -> bool {
    forall|k: (ProjectId, ApplicantId, ApplicantId), o: Ordering| #[trigger]
        call_ensures(f, k, o) ==> o == standing(f)[k]
}

/// The table that a heap made with `f` has: that of `f` where `f` is a
/// function, none where it is not.
pub open spec fn table_of<F: Fn(ProjectId, ApplicantId, ApplicantId) -> Ordering>(f: F) -> Option<
    Map<(ProjectId, ApplicantId, ApplicantId), Ordering>,
> {
    if is_consistent(f) {
        Some(standing(f))
    } else {
        None
    }
}

/// For project `p` the table is a total preorder: swapping the two applicants
/// mirrors the answer, and "not weaker than" is transitive.
pub open spec fn orders_totally(
    t: Map<(ProjectId, ApplicantId, ApplicantId), Ordering>,
    p: ProjectId,
) -> bool {
    &&& forall|a: ApplicantId, b: ApplicantId|
        (#[trigger] t[(p, a, b)] == Ordering::Greater) <==> t[(p, b, a)] == Ordering::Less
    &&& forall|a: ApplicantId, b: ApplicantId, c: ApplicantId|
        #[trigger] t[(p, a, b)] != Ordering::Less && #[trigger] t[(p, b, c)] != Ordering::Less
            ==> t[(p, a, c)] != Ordering::Less
}

/// For project `p` the table is a strict total order: a total preorder in
/// which two different applicants never tie.
pub open spec fn orders_strictly(
    t: Map<(ProjectId, ApplicantId, ApplicantId), Ordering>,
    p: ProjectId,
) -> bool {
    &&& orders_totally(t, p)
    &&& forall|a: ApplicantId, b: ApplicantId|
        a != b ==> #[trigger] t[(p, a, b)] != Ordering::Equal
}

} // verus!
