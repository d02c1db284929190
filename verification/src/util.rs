use vstd::prelude::*;

verus! {

/// A vector with the same elements in the same order.
pub fn copy_of<T: Copy>(source: &Vec<T>) -> (copy: Vec<T>)
    ensures
        copy@ == source@,
{
    let mut copy: Vec<T> = Vec::new();
    let mut next: usize = 0;
    while next < source.len()
        invariant
            next <= source@.len(),
            copy@ == source@.take(next as int),
        decreases source@.len() - next,
    {
        copy.push(source[next]);
        assert(source@.take(next + 1) =~= source@.take(next as int).push(source@[next as int]));
        next += 1;
    }
    assert(source@.take(source@.len() as int) =~= source@);
    copy
}

} // verus!
