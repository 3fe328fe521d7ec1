//! The seats of a project: a heap of `binary_heap_plus` that keeps the
//! weakest occupant on top. This module holds what is taken on trust of
//! that crate.

use crate::model::{ApplicantId, Claimant, ProjectId};
use crate::ranking::{is_callable, orders_totally, table_of};
use binary_heap_plus::BinaryHeap;
use compare::Compare;
use std::cmp::Ordering;
use vstd::prelude::*;

verus! {

/// The heap of `binary_heap_plus`, known to the verifier by name only.
#[verifier::external_type_specification]
#[verifier::external_body]
#[verifier::reject_recursive_types(T)]
#[verifier::reject_recursive_types(C)]
pub struct ExBinaryHeap<T, C>(BinaryHeap<T, C>);

/// The comparator that a project's heap is made with. It holds a trait
/// object of `compare::Compare`, a trait that the verifier does not know, so
/// the verifier is kept from looking into it. Nothing is claimed of it here;
/// what a heap made with it does is stated on the heap.
#[verifier::external_body]
pub struct SeatOrder<'a> {
    inner: Box<dyn Compare<Claimant> + 'a>,
}

impl<'a> Compare<Claimant> for SeatOrder<'a> {
    /// Hands the question on to the boxed `compare::Compare::compare`.
    /// Nothing is claimed of the answer.
    #[verifier::external_body]
    fn compare(&self, l: &Claimant, r: &Claimant) -> (o: Ordering) {
        self.inner.compare(l, r)
    }
}

/// What a heap holds, in the order of its underlying vector.
pub uninterp spec fn heap_items(h: BinaryHeap<Claimant, SeatOrder<'_>>) -> Seq<Claimant>;

/// The project that a heap was made for.
pub uninterp spec fn heap_project(h: BinaryHeap<Claimant, SeatOrder<'_>>) -> ProjectId;

/// The table of the comparator that a heap was made with, where that
/// comparator is a function; `None` where it is not.
pub uninterp spec fn heap_standing(h: BinaryHeap<Claimant, SeatOrder<'_>>) -> Option<
    Map<(ProjectId, ApplicantId, ApplicantId), Ordering>,
>;

/// What the vector of a heap holds after `BinaryHeap::push` of `item`, where
/// it held `items` before and the heap is that of project `p` with a
/// comparator whose table is `tb`.
pub uninterp spec fn heap_pushed(
    items: Seq<Claimant>,
    item: Claimant,
    p: ProjectId,
    tb: Map<(ProjectId, ApplicantId, ApplicantId), Ordering>,
) -> Seq<Claimant>;

/// What the vector of a heap holds after `BinaryHeap::pop`, where it held
/// `items` before and the heap is that of project `p` with a comparator
/// whose table is `tb`.
pub uninterp spec fn heap_popped(
    items: Seq<Claimant>,
    p: ProjectId,
    tb: Map<(ProjectId, ApplicantId, ApplicantId), Ordering>,
) -> Seq<Claimant>;

/// The first of a sequence, if it has one.
pub open spec fn first_of(items: Seq<Claimant>) -> Option<Claimant> {
    if items.len() == 0 {
        None
    } else {
        Some(items[0])
    }
}

/// The order in which a project's heap keeps its occupants: `l` is the
/// greater of the two where `r` is the stronger applicant, so that the
/// weakest occupant is the heap's greatest item.
pub fn weakest_first<F: Fn(ProjectId, ApplicantId, ApplicantId) -> Ordering>(
    f: &F,
    p: ProjectId,
    l: &Claimant,
    r: &Claimant,
) -> (o: Ordering)
    requires
        call_requires(*f, (p, r.id, l.id)),
    ensures
        call_ensures(*f, (p, r.id, l.id), o),
{
    f(p, r.id, l.id)
}

/// `BinaryHeap::from_vec_cmp` on an empty vector, with `weakest_first` for
/// project `p` as the comparator. The heap starts empty; it is made for `p`,
/// and its table is that of `f` where `f` is a function.
#[verifier::external_body]
pub(crate) fn new_heap<'a, F: Fn(ProjectId, ApplicantId, ApplicantId) -> Ordering>(
    f: &'a F,
    p: ProjectId,
) -> (h: BinaryHeap<Claimant, SeatOrder<'a>>)
    requires
        is_callable(*f),
    ensures
        heap_items(h) == Seq::<Claimant>::empty(),
        heap_project(h) == p,
        heap_standing(h) == table_of(*f),
{
    let order = move |l: &Claimant, r: &Claimant| weakest_first(f, p, l, r);
    BinaryHeap::from_vec_cmp(Vec::new(), SeatOrder { inner: Box::new(order) })
}

/// `BinaryHeap::len`: the number of items held.
#[verifier::external_body]
pub(crate) fn heap_len(h: &BinaryHeap<Claimant, SeatOrder<'_>>) -> (n: usize)
    ensures
        n == heap_items(*h).len(),
{
    h.len()
}

/// `BinaryHeap::peek`: the first item of the underlying vector, `None` on an
/// empty heap. Where the heap's comparator is a total preorder for the
/// heap's project, that item is the heap's greatest, which is to say that no
/// occupant is weaker than it.
#[verifier::external_body]
pub(crate) fn heap_peek(h: &BinaryHeap<Claimant, SeatOrder<'_>>) -> (top: Option<Claimant>)
    ensures
        top == first_of(heap_items(*h)),
        top matches Some(w) ==> (heap_standing(*h) matches Some(t) ==> (orders_totally(
            t,
            heap_project(*h),
        ) ==> forall|k: int|
            0 <= k < heap_items(*h).len() ==> t[(
                heap_project(*h),
                (#[trigger] heap_items(*h)[k]).id,
                w.id,
            )] != Ordering::Less)),
{
    h.peek().copied()
}

/// `BinaryHeap::push`: the heap holds one item more, the one given. Project
/// and table stay. Where the comparator is a function, the order of the
/// vector afterwards is a function of what went in, named `heap_pushed`.
#[verifier::external_body]
pub(crate) fn heap_push(h: &mut BinaryHeap<Claimant, SeatOrder<'_>>, item: Claimant)
    ensures
        heap_items(*final(h)).to_multiset() == heap_items(*old(h)).to_multiset().insert(item),
        heap_items(*final(h)).len() == heap_items(*old(h)).len() + 1,
        heap_standing(*old(h)) matches Some(tb) ==> heap_items(*final(h)) == heap_pushed(
            heap_items(*old(h)),
            item,
            heap_project(*old(h)),
            tb,
        ),
        heap_project(*final(h)) == heap_project(*old(h)),
        heap_standing(*final(h)) == heap_standing(*old(h)),
{
    h.push(item)
}

/// `BinaryHeap::pop`: takes out and returns the item that `peek` shows, or
/// returns `None` and leaves an empty heap as it is. Project and table stay.
/// Where the comparator is a function, the order of the vector afterwards is
/// a function of what it held, named `heap_popped`.
#[verifier::external_body]
pub(crate) fn heap_pop(h: &mut BinaryHeap<Claimant, SeatOrder<'_>>) -> (top: Option<Claimant>)
    ensures
        top == first_of(heap_items(*old(h))),
        top matches Some(c) ==> heap_items(*final(h)).to_multiset() == heap_items(
            *old(h),
        ).to_multiset().remove(c) && heap_items(*final(h)).len() + 1 == heap_items(*old(h)).len(),
        top is None ==> heap_items(*final(h)) == heap_items(*old(h)),
        top is Some ==> (heap_standing(*old(h)) matches Some(tb) ==> heap_items(*final(h))
            == heap_popped(heap_items(*old(h)), heap_project(*old(h)), tb)),
        heap_project(*final(h)) == heap_project(*old(h)),
        heap_standing(*final(h)) == heap_standing(*old(h)),
{
    h.pop()
}

/// `BinaryHeap::iter`: the identifiers of the items held, in the order of
/// the underlying vector.
#[verifier::external_body]
pub(crate) fn heap_ids(h: &BinaryHeap<Claimant, SeatOrder<'_>>) -> (ids: Vec<ApplicantId>)
    ensures
        ids@.len() == heap_items(*h).len(),
        forall|k: int| 0 <= k < ids@.len() ==> #[trigger] ids@[k] == heap_items(*h)[k].id,
{
    h.iter().map(|c| c.id).collect()
}

} // verus!
