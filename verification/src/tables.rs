//! Small helpers on vectors.

use vstd::prelude::*;

verus! {

/// A vector that holds one value throughout.
pub fn repeated<T: Copy>(value: T, count: usize) -> (result: Vec<T>)
    ensures
        result@ == Seq::new(count as nat, |i: int| value),
{
    let mut result: Vec<T> = Vec::new();
    while result.len() < count
        invariant
            result@.len() <= count,
            result@ =~= Seq::new(result@.len(), |i: int| value),
        decreases count - result@.len(),
    {
        result.push(value);
    }
    result
}

/// A copy of a vector.
pub fn copied<T: Copy>(values: &Vec<T>) -> (result: Vec<T>)
    ensures
        result@ == values@,
{
    let mut result: Vec<T> = Vec::new();
    while result.len() < values.len()
        invariant
            result@.len() <= values@.len(),
            result@ =~= values@.take(result@.len() as int),
        decreases values@.len() - result@.len(),
    {
        let next = values[result.len()];
        result.push(next);
    }
    assert(result@ =~= values@);
    result
}

/// A copy of the first elements of a vector.
pub fn copied_prefix<T: Copy>(values: &Vec<T>, count: usize) -> (result: Vec<T>)
    ensures
        result@ == (if count <= values@.len() {
            values@.take(count as int)
        } else {
            values@
        }),
{
    let mut result: Vec<T> = Vec::new();
    while result.len() < values.len() && result.len() < count
        invariant
            result@.len() <= values@.len(),
            result@.len() <= count,
            result@ =~= values@.take(result@.len() as int),
        decreases values@.len() - result@.len(),
    {
        let next = values[result.len()];
        result.push(next);
    }
    assert(count > values@.len() ==> result@ =~= values@);
    result
}

/// Appends a copy of one vector to another.
pub fn extend_copied<T: Copy>(target: &mut Vec<T>, values: &Vec<T>)
    ensures
        final(target)@ == old(target)@ + values@,
{
    let mut i: usize = 0;
    while i < values.len()
        invariant
            i <= values@.len(),
            target@ =~= old(target)@ + values@.take(i as int),
        decreases values@.len() - i,
    {
        target.push(values[i]);
        i += 1;
    }
    assert(target@ =~= old(target)@ + values@);
}

/// A sequence without duplicates is no longer than one that holds all of it.
pub proof fn lemma_no_longer<T>(part: Seq<T>, whole: Seq<T>)
    requires
        part.no_duplicates(),
        forall|i: int| 0 <= i < part.len() ==> whole.contains(#[trigger] part[i]),
    ensures
        part.len() <= whole.len(),
{
    broadcast use vstd::seq_lib::seq_to_set_is_finite;

    assert(part.to_set().subset_of(whole.to_set())) by {
        assert forall|x: T| part.to_set().contains(x) implies whole.to_set().contains(x) by {
            let i = choose|i: int| 0 <= i < part.len() && part[i] == x;
            assert(whole.contains(part[i]));
        }
    }
    part.unique_seq_to_set();
    whole.lemma_cardinality_of_set();
    vstd::set_lib::lemma_len_subset(part.to_set(), whole.to_set());
}

} // verus!
