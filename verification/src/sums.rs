//! Sums that a function of the caller makes.
//!
//! Numbers are IEEE-754 bits, and adding them is floating point: the caller gives
//! the function that adds. What is added to what is decided here.
use vstd::prelude::*;

verus! {

/// `sum_of` says what `plus` returns.
pub open spec fn describes<F: Fn(u64, u64) -> u64>(plus: F, sum_of: spec_fn(u64, u64) -> u64) -> bool {
    forall|a: u64, b: u64, c: u64| #[trigger] call_ensures(plus, (a, b), c) ==> c == sum_of(a, b)
}

/// Each change added to its sum.
pub open spec fn summed(
    sums: Seq<u64>,
    deltas: Seq<u64>,
    sum_of: spec_fn(u64, u64) -> u64,
) -> Seq<u64> {
    Seq::new(deltas.len(), |i: int| sum_of(sums[i], deltas[i]))
}

/// Adds each change to its sum.
pub fn add_all<F: Fn(u64, u64) -> u64>(sums: &Vec<u64>, deltas: &Vec<u64>, plus: &F) -> (list:
    Vec<u64>)
    requires
        sums@.len() == deltas@.len(),
        forall|a: u64, b: u64| call_requires(*plus, (a, b)),
    ensures
        list@.len() == deltas@.len(),
        forall|sum_of: spec_fn(u64, u64) -> u64| #[trigger]
            describes(*plus, sum_of) ==> list@ == summed(sums@, deltas@, sum_of),
{
    let mut list: Vec<u64> = Vec::new();
    let mut index: usize = 0;
    while index < deltas.len()
        invariant
            index <= deltas@.len(),
            sums@.len() == deltas@.len(),
            list@.len() == index,
            forall|a: u64, b: u64| call_requires(*plus, (a, b)),
            forall|i: int|
                0 <= i < index ==> call_ensures(*plus, (sums@[i], deltas@[i]), #[trigger] list@[i]),
        decreases deltas.len() - index,
    {
        let sum = plus(sums[index], deltas[index]);
        list.push(sum);
        index = index + 1;
    }
    assert forall|sum_of: spec_fn(u64, u64) -> u64| #[trigger] describes(*plus, sum_of) implies list@
        == summed(sums@, deltas@, sum_of) by {
        assert forall|i: int| 0 <= i < list@.len() implies list@[i] == summed(
            sums@,
            deltas@,
            sum_of,
        )[i] by {
            assert(call_ensures(*plus, (sums@[i], deltas@[i]), list@[i]));
        }
        assert(list@ =~= summed(sums@, deltas@, sum_of));
    }
    list
}

} // verus!
