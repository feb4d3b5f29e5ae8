use smallvec::SmallVec;
use vstd::prelude::*;

verus! {

/// A short list of node ids: a `smallvec::SmallVec` that holds up to eight of
/// them in place, and more on the heap.
///
/// Nothing is known of it but through [`small_items`].
#[verifier::external_body]
pub struct SmallList {
    items: SmallVec<[usize; 8]>,
}

/// The ids that a short list holds, in their order.
pub uninterp spec fn small_items(list: SmallList) -> Seq<usize>;

impl View for SmallList {
    type V = Seq<usize>;

    open spec fn view(&self) -> Seq<usize> {
        small_items(*self)
    }
}

/// `SmallVec::new`: an empty list.
#[verifier::external_body]
fn small_new() -> (list: SmallList)
    ensures
        small_items(list) == Seq::<usize>::empty(),
{
    SmallList { items: SmallVec::new() }
}

/// `SmallVec::push`: puts one id behind the others.
#[verifier::external_body]
fn small_push(list: &mut SmallList, value: usize)
    ensures
        small_items(*final(list)) == small_items(*old(list)).push(value),
{
    list.items.push(value);
}

/// `SmallVec::into_vec`: the ids as a vector, in their order.
#[verifier::external_body]
fn small_into_vec(list: SmallList) -> (items: Vec<usize>)
    ensures
        items@ == small_items(list),
{
    list.items.into_vec()
}

impl SmallList {
    /// An empty list.
    pub fn new() -> (list: Self)
        ensures
            list@ == Seq::<usize>::empty(),
    {
        small_new()
    }

    /// Puts one id behind the others.
    pub fn push(&mut self, value: usize)
        ensures
            final(self)@ == old(self)@.push(value),
    {
        small_push(self, value)
    }

    /// The ids as a vector, in their order.
    pub fn into_vec(self) -> (items: Vec<usize>)
        ensures
            items@ == self@,
    {
        small_into_vec(self)
    }
}

} // verus!
