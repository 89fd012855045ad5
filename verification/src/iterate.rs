//! Stepping through iterators.
use vstd::prelude::*;
use vstd::std_specs::iter::IteratorSpec;

verus! {

/// Advances an iterator by one item.
pub(crate) fn advance<I: Iterator>(items: &mut I) -> (r: Option<I::Item>)
    requires
        (*old(items)).obeys_prophetic_iter_laws(),
    ensures
        r == (if (*old(items)).remaining().len() > 0 {
            Some((*old(items)).remaining()[0])
        } else {
            None
        }),
        (*final(items)).remaining() == (if (*old(items)).remaining().len() > 0 {
            (*old(items)).remaining().drop_first()
        } else {
            (*old(items)).remaining()
        }),
        (*final(items)).decrease() is Some <==> (*old(items)).decrease() is Some,
        r is Some && (*old(items)).decrease() is Some ==> (*final(items)).decrease()->0 < (*old(
            items,
        )).decrease()->0,
{
    items.next()
}

} // verus!
