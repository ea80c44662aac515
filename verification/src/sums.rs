use vstd::prelude::*;

verus! {

/// The sum of a sequence of natural numbers.
pub open spec fn sum(values: Seq<nat>) -> nat
    decreases values.len(),
{
    if values.len() == 0 {
        0
    } else {
        sum(values.drop_last()) + values.last()
    }
}

/// Appending a value adds it to the sum.
pub proof fn lemma_sum_push(values: Seq<nat>, value: nat)
    ensures
        sum(values.push(value)) == sum(values) + value,
{
    assert(values.push(value).drop_last() =~= values);
}

/// The sum of a concatenation is the sum of the sums.
pub proof fn lemma_sum_concat(left: Seq<nat>, right: Seq<nat>)
    ensures
        sum(left + right) == sum(left) + sum(right),
    decreases right.len(),
{
    if right.len() == 0 {
        assert(left + right =~= left);
    } else {
        lemma_sum_concat(left, right.drop_last());
        assert((left + right).drop_last() =~= left + right.drop_last());
    }
}

/// Replacing one value changes the sum by the difference of the two.
pub proof fn lemma_sum_update(values: Seq<nat>, index: int, value: nat)
    requires
        0 <= index < values.len(),
    ensures
        sum(values.update(index, value)) + values[index] == sum(values) + value,
    decreases values.len(),
{
    if index == values.len() - 1 {
        assert(values.update(index, value).drop_last() =~= values.drop_last());
    } else {
        lemma_sum_update(values.drop_last(), index, value);
        assert(values.update(index, value).drop_last() =~= values.drop_last().update(
            index,
            value,
        ));
    }
}

/// A sum is at most the number of its terms times a bound on each.
pub proof fn lemma_sum_bound(values: Seq<nat>, bound: nat)
    requires
        forall|i: int| 0 <= i < values.len() ==> values[i] <= bound,
    ensures
        sum(values) <= values.len() * bound,
    decreases values.len(),
{
    if values.len() > 0 {
        lemma_sum_bound(values.drop_last(), bound);
        assert(values.len() * bound == (values.len() - 1) * bound + bound) by (nonlinear_arith);
    }
}

/// If each term of one sequence is at most `factor` times the term of
/// another, so are their sums.
pub proof fn lemma_sum_scaled(small: Seq<nat>, large: Seq<nat>, factor: nat)
    requires
        small.len() == large.len(),
        forall|i: int| 0 <= i < small.len() ==> small[i] <= factor * large[i],
    ensures
        sum(small) <= factor * sum(large),
    decreases small.len(),
{
    if small.len() > 0 {
        lemma_sum_scaled(small.drop_last(), large.drop_last(), factor);
        assert(factor * (sum(large.drop_last()) + large.last()) == factor * sum(large.drop_last())
            + factor * large.last()) by (nonlinear_arith);
    } else {
        assert(factor * 0 == 0) by (nonlinear_arith);
    }
}

/// No term is more than the sum.
pub proof fn lemma_sum_term(values: Seq<nat>, index: int)
    requires
        0 <= index < values.len(),
    ensures
        values[index] <= sum(values),
    decreases values.len(),
{
    if index < values.len() - 1 {
        lemma_sum_term(values.drop_last(), index);
    }
}

} // verus!
