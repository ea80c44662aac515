use vstd::prelude::*;
use crate::sums::{sum, lemma_sum_concat, lemma_sum_push, lemma_sum_update};

verus! {

/// A demand point: an identity and the capacity that a visit uses up.
#[derive(Clone, Copy, Debug, PartialEq, Eq, Structural)]
pub struct Stop {
    pub id: u32,
    pub usage: u32,
}

impl Stop {
    /// The stop of the given identity and demand.
    pub fn new(id: u32, usage: u32) -> (stop: Stop)
        ensures
            stop.id == id,
            stop.usage == usage,
    {
        Stop { id, usage }
    }

    /// The identity.
    pub fn get_id(&self) -> (id: u32)
        ensures
            id == self.id,
    {
        self.id
    }
}

/// The identities of a sequence of stops, in order.
pub open spec fn stop_ids(stops: Seq<Stop>) -> Seq<u32> {
    stops.map_values(|s: Stop| s.id)
}

/// The demands of a sequence of stops, in order.
pub open spec fn usages(stops: Seq<Stop>) -> Seq<nat> {
    stops.map_values(|s: Stop| s.usage as nat)
}

/// The demand of a sequence of stops taken together.
pub open spec fn total_usage(stops: Seq<Stop>) -> nat {
    sum(usages(stops))
}

/// The sequence with the stops at positions `i` and `j` exchanged.
pub open spec fn exchanged(stops: Seq<Stop>, i: int, j: int) -> Seq<Stop> {
    stops.update(i, stops[j]).update(j, stops[i])
}

/// Appending a stop adds its demand.
pub proof fn lemma_total_usage_push(stops: Seq<Stop>, stop: Stop)
    ensures
        total_usage(stops.push(stop)) == total_usage(stops) + stop.usage,
{
    assert(usages(stops.push(stop)) =~= usages(stops).push(stop.usage as nat));
    lemma_sum_push(usages(stops), stop.usage as nat);
}

/// The demand of a concatenation is the sum of the demands of its parts.
pub proof fn lemma_total_usage_concat(left: Seq<Stop>, right: Seq<Stop>)
    ensures
        total_usage(left + right) == total_usage(left) + total_usage(right),
{
    assert(usages(left + right) =~= usages(left) + usages(right));
    lemma_sum_concat(usages(left), usages(right));
}

/// The first stops of a sequence demand no more than all of them.
pub proof fn lemma_prefix_usage(stops: Seq<Stop>, n: int)
    requires
        0 <= n <= stops.len(),
    ensures
        total_usage(stops.take(n)) <= total_usage(stops),
{
    assert(stops.take(n) + stops.skip(n) =~= stops);
    lemma_total_usage_concat(stops.take(n), stops.skip(n));
}

/// Exchanging two stops leaves the total demand as it was.
pub proof fn lemma_total_usage_swap(stops: Seq<Stop>, i: int, j: int)
    requires
        0 <= i < stops.len(),
        0 <= j < stops.len(),
    ensures
        total_usage(exchanged(stops, i, j)) == total_usage(stops),
{
    let first = usages(stops).update(i, stops[j].usage as nat);
    lemma_sum_update(usages(stops), i, stops[j].usage as nat);
    lemma_sum_update(first, j, stops[i].usage as nat);
    assert(usages(exchanged(stops, i, j)) =~= first.update(j, stops[i].usage as nat));
}

/// Exchanging two stops leaves the stops as they were, but for their
/// order.
pub proof fn lemma_exchanged_permutes(stops: Seq<Stop>, i: int, j: int)
    requires
        0 <= i < stops.len(),
        0 <= j < stops.len(),
    ensures
        exchanged(stops, i, j).to_multiset() == stops.to_multiset(),
{
    broadcast use vstd::seq_lib::to_multiset_update;
    broadcast use vstd::seq_lib::to_multiset_contains;
    broadcast use vstd::multiset::group_multiset_axioms;

    let first = stops.update(i, stops[j]);
    assert(first[j] == stops[j]);
    assert(stops.contains(stops[i]));
    assert(stops.contains(stops[j]));
    assert(exchanged(stops, i, j).to_multiset() =~= stops.to_multiset());
}

} // verus!
