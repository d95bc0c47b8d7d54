//! Operations on vectors that the passes share.
use vstd::prelude::*;

verus! {

/// Reverses the order of the elements of a vector.
pub fn reverse_in_place<T>(items: &mut Vec<T>)
    ensures
        final(items)@ == old(items)@.reverse(),
{
    let ghost given = items@;
    let mut reversed: Vec<T> = Vec::new();
    while items.len() > 0
        invariant
            items@.len() + reversed@.len() == given.len(),
            items@ == given.subrange(0, items@.len() as int),
            reversed@ == given.subrange(items@.len() as int, given.len() as int).reverse(),
        decreases items@.len(),
    {
        let ghost before = items@;
        let item = items.pop().unwrap();
        reversed.push(item);
        assert(reversed@ =~= given.subrange(items@.len() as int, given.len() as int).reverse());
    }
    *items = reversed;
    assert(items@ =~= given.reverse());
}

} // verus!
