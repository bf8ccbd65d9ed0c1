use vstd::prelude::*;

verus! {

/// Calls `draw` `amount` times and hands back what it returned, in the
/// order of the calls.
pub fn collect_draws<T, F: FnMut() -> T>(draw: &mut F, amount: usize) -> (values: Vec<T>)
    requires
        call_requires(*old(draw), ()),
    ensures
        *final(draw) == *old(draw),
        values@.len() == amount,
        forall|k: int| 0 <= k < amount ==> call_ensures(*old(draw), (), #[trigger] values@[k]),
{
    let ghost source = *draw;
    let mut values: Vec<T> = Vec::new();
    let mut i: usize = 0;
    while i < amount
        invariant
            *draw == source,
            call_requires(source, ()),
            i <= amount,
            values@.len() == i,
            forall|k: int| 0 <= k < i ==> call_ensures(source, (), #[trigger] values@[k]),
        decreases amount - i,
    {
        let value = draw();
        values.push(value);
        i += 1;
    }
    values
}

} // verus!
