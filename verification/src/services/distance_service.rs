use std::collections::HashMap;
use vstd::prelude::*;
use crate::domain::stop::Stop;
use crate::sums::{sum, lemma_sum_push, lemma_sum_bound};

verus! {

/// The key under which the ordered pair `(from, to)` is stored.
pub open spec fn pair_key(from: u32, to: u32) -> u64 {
    (from as u64 * 0x1_0000_0000 + to as u64) as u64
}

/// Distinct pairs have distinct keys.
pub proof fn lemma_pair_key_injective(a: u32, b: u32, c: u32, d: u32)
    ensures
        pair_key(a, b) == pair_key(c, d) <==> a == c && b == d,
{
}

/// A table of distances between stops, from an ordered pair of stop
/// identities to a distance. It need not hold every pair.
pub struct DistanceMatrix {
    entries: HashMap<u64, u64>,
}

impl View for DistanceMatrix {
    type V = Map<(u32, u32), u64>;

    closed spec fn view(&self) -> Map<(u32, u32), u64> {
        Map::new(
            |pair: (u32, u32)| self.entries@.contains_key(pair_key(pair.0, pair.1)),
            |pair: (u32, u32)| self.entries@[pair_key(pair.0, pair.1)],
        )
    }
}

impl DistanceMatrix {
    /// A table without entries.
    pub fn new() -> (matrix: DistanceMatrix)
        ensures
            matrix@ == Map::<(u32, u32), u64>::empty(),
    {
        let matrix = DistanceMatrix { entries: HashMap::new() };
        assert(matrix@ =~= Map::<(u32, u32), u64>::empty());
        matrix
    }

    /// Sets the distance from `from` to `to`, and returns the distance that
    /// the pair had before, if it had one.
    pub fn insert(&mut self, from: u32, to: u32, distance: u64) -> (previous: Option<u64>)
        ensures
            final(self)@ == old(self)@.insert((from, to), distance),
            previous == old(self).distance(from, to),
    {
        broadcast use vstd::std_specs::hash::group_hash_axioms;

        let key = Self::key(from, to);
        let previous = self.entries.insert(key, distance);
        proof {
            assert forall|pair: (u32, u32)| pair != (from, to) implies pair_key(pair.0, pair.1)
                != key by {
                lemma_pair_key_injective(pair.0, pair.1, from, to);
            }
            assert(self@ =~= old(self)@.insert((from, to), distance));
        }
        previous
    }

    /// The distance from `from` to `to`, if the table holds the pair.
    pub fn get(&self, from: u32, to: u32) -> (distance: Option<u64>)
        ensures
            distance == self.distance(from, to),
    {
        broadcast use vstd::std_specs::hash::group_hash_axioms;

        match self.entries.get(&Self::key(from, to)) {
            Some(distance) => Some(*distance),
            None => None,
        }
    }

    /// What the table says of the pair `(from, to)`.
    pub open spec fn distance(&self, from: u32, to: u32) -> Option<u64> {
        if self@.contains_key((from, to)) {
            Some(self@[(from, to)])
        } else {
            None
        }
    }

    /// The key under which the pair `(from, to)` is stored.
    fn key(from: u32, to: u32) -> (key: u64)
        ensures
            key == pair_key(from, to),
    {
        from as u64 * 0x1_0000_0000 + to as u64
    }
}

impl Clone for DistanceMatrix {
    fn clone(&self) -> (copy: DistanceMatrix)
        ensures
            copy@ == self@,
    {
        let copy = DistanceMatrix { entries: self.entries.clone() };
        assert(copy@ =~= self@);
        copy
    }
}

/// Read-only lookup of distances between stops.
pub struct DistanceService {
    distances: DistanceMatrix,
}

impl View for DistanceService {
    type V = Map<(u32, u32), u64>;

    closed spec fn view(&self) -> Map<(u32, u32), u64> {
        self.distances@
    }
}

impl DistanceService {
    /// A service that looks distances up in `distances`.
    pub fn new(distances: DistanceMatrix) -> (service: DistanceService)
        ensures
            service@ == distances@,
    {
        DistanceService { distances }
    }

    /// The distance from `from` to `to`: present if the table holds the
    /// ordered pair of their identities, absent otherwise.
    pub fn get_distance(&self, from: &Stop, to: &Stop) -> (distance: Option<u64>)
        ensures
            distance == lookup(self@, from.id, to.id),
    {
        self.distances.get(from.id, to.id)
    }

    /// The distance travelled along `stops`; absent if the distance
    /// between two consecutive stops is.
    pub fn get_path_length(&self, stops: &[Stop]) -> (length: Option<u128>)
        ensures
            length is Some <==> path_known(self@, stops@),
            length matches Some(total) ==> total == path_length(self@, stops@),
    {
        let ghost distances = self@;
        let len = stops.len();
        if len == 0 {
            return Some(0);
        }
        let mut total: u128 = 0;
        let mut k: usize = 1;
        proof {
            lemma_path_length_short(distances, stops@.take(1));
        }
        while k < len
            invariant
                len == stops@.len(),
                distances == self@,
                1 <= k <= len,
                path_known(distances, stops@.take(k as int)),
                total == path_length(distances, stops@.take(k as int)),
            decreases len - k,
        {
            proof {
                let prefix = stops@.take(k as int);
                assert(prefix.push(stops@[k as int]) =~= stops@.take(k + 1));
                lemma_path_length_push(distances, prefix, stops@[k as int]);
                lemma_path_length_bound(distances, stops@.take(k + 1));
                assert((k + 1) * u64::MAX <= u128::MAX) by (nonlinear_arith)
                    requires
                        k + 1 <= u64::MAX,
                ;
            }
            match self.get_distance(&stops[k - 1], &stops[k]) {
                Some(distance) => {
                    total = total + distance as u128;
                },
                None => {
                    proof {
                        assert(leg(stops@, k - 1) == (stops@[k - 1].id, stops@[k as int].id));
                    }
                    return None;
                },
            }
            k = k + 1;
        }
        proof {
            assert(stops@.take(len as int) =~= stops@);
        }
        Some(total)
    }
}

/// What a table says of the pair `(from, to)`.
pub open spec fn lookup(distances: Map<(u32, u32), u64>, from: u32, to: u32) -> Option<u64> {
    if distances.contains_key((from, to)) {
        Some(distances[(from, to)])
    } else {
        None
    }
}

/// Whether the table holds the distance between every two of `stops` that
/// differ in their identity, in both directions.
pub open spec fn covers(distances: Map<(u32, u32), u64>, stops: Seq<Stop>) -> bool {
    forall|from: Stop, to: Stop|
        stops.contains(from) && stops.contains(to) && from.id != to.id ==> #[trigger] distances.contains_key(
            (from.id, to.id),
        )
}

/// The pair of identities of the stops at positions `k` and `k + 1`.
pub open spec fn leg(stops: Seq<Stop>, k: int) -> (u32, u32) {
    (stops[k].id, stops[k + 1].id)
}

/// Whether the table holds the distance between every two consecutive stops.
pub open spec fn path_known(distances: Map<(u32, u32), u64>, stops: Seq<Stop>) -> bool {
    forall|k: int| 0 <= k < stops.len() - 1 ==> distances.contains_key(#[trigger] leg(stops, k))
}

/// The distances between consecutive stops, in order.
pub open spec fn legs(distances: Map<(u32, u32), u64>, stops: Seq<Stop>) -> Seq<nat> {
    Seq::new(
        if stops.len() == 0 {
            0
        } else {
            (stops.len() - 1) as nat
        },
        |k: int| distances[leg(stops, k)] as nat,
    )
}

/// The distance travelled along a sequence of stops: the sum of the
/// distances between consecutive stops.
pub open spec fn path_length(distances: Map<(u32, u32), u64>, stops: Seq<Stop>) -> nat {
    sum(legs(distances, stops))
}

/// A path of at most one stop has length zero.
pub proof fn lemma_path_length_short(distances: Map<(u32, u32), u64>, stops: Seq<Stop>)
    requires
        stops.len() <= 1,
    ensures
        path_length(distances, stops) == 0,
        path_known(distances, stops),
{
}

/// Appending a stop to a path adds the distance from its last stop.
pub proof fn lemma_path_length_push(distances: Map<(u32, u32), u64>, stops: Seq<Stop>, stop: Stop)
    requires
        stops.len() > 0,
    ensures
        path_length(distances, stops.push(stop)) == path_length(distances, stops) + distances[(
            stops.last().id,
            stop.id,
        )],
        path_known(distances, stops.push(stop)) <==> path_known(distances, stops)
            && distances.contains_key((stops.last().id, stop.id)),
{
    let longer = stops.push(stop);
    let last = distances[(stops.last().id, stop.id)] as nat;
    assert(legs(distances, longer) =~= legs(distances, stops).push(last));
    lemma_sum_push(legs(distances, stops), last);
    if path_known(distances, longer) {
        assert forall|k: int| 0 <= k < stops.len() - 1 implies distances.contains_key(
            #[trigger] leg(stops, k),
        ) by {
            assert(leg(longer, k) == leg(stops, k));
        }
        assert(leg(longer, stops.len() - 1) == (stops.last().id, stop.id));
    }
    if path_known(distances, stops) && distances.contains_key((stops.last().id, stop.id)) {
        assert forall|k: int| 0 <= k < longer.len() - 1 implies distances.contains_key(
            #[trigger] leg(longer, k),
        ) by {
            if k < stops.len() - 1 {
                assert(leg(longer, k) == leg(stops, k));
            }
        }
    }
}

/// A path is at most as long as the number of its stops times the largest
/// distance a table can hold.
pub proof fn lemma_path_length_bound(distances: Map<(u32, u32), u64>, stops: Seq<Stop>)
    ensures
        path_length(distances, stops) <= stops.len() * u64::MAX,
{
    lemma_sum_bound(legs(distances, stops), u64::MAX as nat);
    assert(legs(distances, stops).len() * u64::MAX <= stops.len() * u64::MAX) by (nonlinear_arith)
        requires
            legs(distances, stops).len() <= stops.len(),
    ;
}

} // verus!
