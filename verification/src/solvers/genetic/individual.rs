use std::collections::HashSet;
use vstd::prelude::*;
use crate::domain::route::{Route, RouteView};
use crate::domain::vehicle::VehicleView;
use crate::services::distance_service::path_length;
use crate::domain::stop::{Stop, stop_ids, total_usage, lemma_total_usage_push};
use crate::random::random_in_range;
use crate::services::plan::route_totals;
use crate::sums::{sum, lemma_sum_push};

verus! {

/// A stop as a solution holds it.
pub type Gene = Stop;

/// The route of one vehicle as a solution holds it.
pub type Chromosome = Route;

/// The identities of a set of genes.
pub type GeneSet = HashSet<u32>;

/// The genes of `genes` whose identity is not in `dropped`, in order.
pub open spec fn survivors(genes: Seq<Gene>, dropped: Set<u32>) -> Seq<Gene>
    decreases genes.len(),
{
    if genes.len() == 0 {
        genes
    } else if dropped.contains(genes.last().id) {
        survivors(genes.drop_last(), dropped)
    } else {
        survivors(genes.drop_last(), dropped).push(genes.last())
    }
}

/// The survivors of a sequence with one more gene.
pub proof fn lemma_survivors_push(genes: Seq<Gene>, gene: Gene, dropped: Set<u32>)
    ensures
        survivors(genes.push(gene), dropped) == if dropped.contains(gene.id) {
            survivors(genes, dropped)
        } else {
            survivors(genes, dropped).push(gene)
        },
{
    assert(genes.push(gene).drop_last() =~= genes);
}

/// The survivors of a concatenation are the survivors of its parts.
pub proof fn lemma_survivors_concat(left: Seq<Gene>, right: Seq<Gene>, dropped: Set<u32>)
    ensures
        survivors(left + right, dropped) == survivors(left, dropped) + survivors(right, dropped),
    decreases right.len(),
{
    if right.len() == 0 {
        assert(left + right =~= left);
        assert(survivors(left, dropped) + survivors(right, dropped) =~= survivors(left, dropped));
    } else {
        lemma_survivors_concat(left, right.drop_last(), dropped);
        assert((left + right).drop_last() =~= left + right.drop_last());
        assert((survivors(left, dropped) + survivors(right.drop_last(), dropped)).push(right.last())
            =~= survivors(left, dropped) + survivors(right.drop_last(), dropped).push(right.last()));
    }
}

/// The survivors are the genes whose identity is not dropped.
pub proof fn lemma_survivors_members(genes: Seq<Gene>, dropped: Set<u32>, gene: Gene)
    ensures
        survivors(genes, dropped).contains(gene) <==> genes.contains(gene) && !dropped.contains(
            gene.id,
        ),
    decreases genes.len(),
{
    if genes.len() > 0 {
        let rest = genes.drop_last();
        lemma_survivors_members(rest, dropped, gene);
        let kept = survivors(genes, dropped);
        if genes.contains(gene) && !dropped.contains(gene.id) {
            let i = choose|i: int| 0 <= i < genes.len() && genes[i] == gene;
            if i == genes.len() - 1 {
                assert(kept[kept.len() - 1] == gene);
            } else {
                assert(rest[i] == gene);
                let j = choose|j: int|
                    0 <= j < survivors(rest, dropped).len() && survivors(rest, dropped)[j] == gene;
                assert(kept[j] == gene);
            }
        }
        if kept.contains(gene) {
            let j = choose|j: int| 0 <= j < kept.len() && kept[j] == gene;
            if !dropped.contains(genes.last().id) && j == kept.len() - 1 {
                assert(genes[genes.len() - 1] == gene);
            } else {
                assert(survivors(rest, dropped)[j] == gene);
                let i = choose|i: int| 0 <= i < rest.len() && rest[i] == gene;
                assert(genes[i] == gene);
            }
        }
    }
}

/// The survivors of genes of different identities have different
/// identities.
pub proof fn lemma_survivors_distinct(genes: Seq<Gene>, dropped: Set<u32>)
    requires
        stop_ids(genes).no_duplicates(),
    ensures
        stop_ids(survivors(genes, dropped)).no_duplicates(),
    decreases genes.len(),
{
    if genes.len() > 0 {
        let rest = genes.drop_last();
        let last = genes.last();
        assert forall|i: int, j: int| 0 <= i < rest.len() && 0 <= j < rest.len() && i != j implies stop_ids(
            rest,
        )[i] != stop_ids(rest)[j] by {
            assert(stop_ids(genes)[i] != stop_ids(genes)[j]);
        }
        lemma_survivors_distinct(rest, dropped);
        let kept = survivors(genes, dropped);
        let before = survivors(rest, dropped);
        if !dropped.contains(last.id) {
            assert forall|i: int, j: int| 0 <= i < kept.len() && 0 <= j < kept.len() && i != j implies stop_ids(
                kept,
            )[i] != stop_ids(kept)[j] by {
                if i < before.len() && j < before.len() {
                    assert(stop_ids(before)[i] != stop_ids(before)[j]);
                } else {
                    let inner = if i < before.len() { i } else { j };
                    lemma_survivors_members(rest, dropped, before[inner]);
                    assert(before.contains(before[inner]));
                    let k = choose|k: int| 0 <= k < rest.len() && rest[k] == before[inner];
                    assert(stop_ids(genes)[k] != stop_ids(genes)[genes.len() - 1]);
                }
            }
        }
    }
}

/// The survivors demand no more than all genes.
pub proof fn lemma_survivors_usage(genes: Seq<Gene>, dropped: Set<u32>)
    ensures
        total_usage(survivors(genes, dropped)) <= total_usage(genes),
    decreases genes.len(),
{
    if genes.len() > 0 {
        let rest = genes.drop_last();
        lemma_survivors_usage(rest, dropped);
        assert(rest.push(genes.last()) =~= genes);
        lemma_total_usage_push(rest, genes.last());
        if !dropped.contains(genes.last().id) {
            lemma_total_usage_push(survivors(rest, dropped), genes.last());
        }
    }
}

/// The route of a vehicle of the given identity and capacity that carries
/// the demand of `genes` and nothing else, along `genes`.
pub open spec fn route_along(
    id: u32,
    capacity: u32,
    genes: Seq<Gene>,
    distances: Map<(u32, u32), u64>,
) -> RouteView {
    RouteView {
        stops: genes,
        vehicle: VehicleView { id, capacity, usage: total_usage(genes) as u32 },
        total_distance: path_length(distances, genes) as u128,
    }
}

/// The total as a total distance holds it: itself if it fits, and the
/// largest value otherwise.
pub open spec fn saturated(total: nat) -> u128 {
    if total <= u128::MAX {
        total as u128
    } else {
        u128::MAX
    }
}

/// The fitness of an individual of the given chromosomes: the sum of the
/// distances recorded for them, as far as the sum can be held.
pub open spec fn fitness_of(routes: Seq<RouteView>) -> u128 {
    saturated(sum(route_totals(routes)))
}

/// A candidate solution: one chromosome for each vehicle, and the distance
/// of all of them together, of which less is better.
pub struct Individual {
    pub chromosomes: Vec<Chromosome>,
    pub fitness: u128,
}

impl Individual {
    /// The chromosomes as routes.
    pub open spec fn routes(&self) -> Seq<RouteView> {
        self.chromosomes@.map_values(|chromosome: Route| chromosome@)
    }

    /// An individual of the given chromosomes. Its fitness is the sum of
    /// the distances recorded for them, as far as the sum can be held.
    pub fn new(chromosomes: Vec<Chromosome>) -> (individual: Individual)
        ensures
            individual.chromosomes == chromosomes,
            individual.fitness == fitness_of(individual.routes()),
    {
        let ghost totals = route_totals(chromosomes@.map_values(|chromosome: Route| chromosome@));
        let mut fitness: u128 = 0;
        let mut c: usize = 0;
        while c < chromosomes.len()
            invariant
                totals == route_totals(chromosomes@.map_values(|chromosome: Route| chromosome@)),
                c <= chromosomes@.len(),
                fitness == saturated(sum(totals.take(c as int))),
            decreases chromosomes@.len() - c,
        {
            proof {
                assert(totals.take(c as int).push(totals[c as int]) =~= totals.take(c + 1));
                lemma_sum_push(totals.take(c as int), totals[c as int]);
            }
            fitness = fitness.saturating_add(chromosomes[c].total_distance());
            c = c + 1;
        }
        proof {
            assert(totals.take(c as int) =~= totals);
        }
        Individual { chromosomes, fitness }
    }

    /// Whether every chromosome is well-formed.
    pub open spec fn all_wf(&self) -> bool {
        forall|c: int| 0 <= c < self.chromosomes@.len() ==> (#[trigger] self.chromosomes@[c]).wf()
    }

    /// Whether every chromosome is well-formed.
    pub fn is_well_formed(&self) -> (well_formed: bool)
        ensures
            well_formed == self.all_wf(),
    {
        let mut c: usize = 0;
        while c < self.chromosomes.len()
            invariant
                c <= self.chromosomes@.len(),
                forall|k: int| 0 <= k < c ==> (#[trigger] self.chromosomes@[k]).wf(),
            decreases self.chromosomes@.len() - c,
        {
            if !self.chromosomes[c].is_well_formed() {
                return false;
            }
            c = c + 1;
        }
        true
    }

    /// Copies of the chromosomes, in order.
    pub fn copy_chromosomes(&self) -> (copies: Vec<Chromosome>)
        ensures
            copies@.map_values(|chromosome: Route| chromosome@) == self.routes(),
    {
        let mut copies: Vec<Chromosome> = Vec::new();
        let mut c: usize = 0;
        while c < self.chromosomes.len()
            invariant
                c <= self.chromosomes@.len(),
                copies@.len() == c,
                forall|k: int| 0 <= k < c ==> (#[trigger] copies@[k])@ == self.chromosomes@[k]@,
            decreases self.chromosomes@.len() - c,
        {
            copies.push(self.chromosomes[c].clone());
            c = c + 1;
        }
        proof {
            assert(copies@.map_values(|chromosome: Route| chromosome@) =~= self.routes());
        }
        copies
    }

    /// A chromosome of at least `min_size` genes, chosen at random, with
    /// its position. Absent if there is none.
    pub fn choose_random_chromosome(&self, rng: &mut rand::rngs::StdRng, min_size: usize) -> (chosen:
        Option<(usize, &Chromosome)>)
        ensures
            match chosen {
                Some((index, chromosome)) => {
                    &&& index < self.chromosomes@.len()
                    &&& *chromosome == self.chromosomes@[index as int]
                    &&& chromosome@.stops.len() >= min_size
                },
                None => forall|c: int|
                    0 <= c < self.chromosomes@.len() ==> (#[trigger] self.chromosomes@[c])@.stops.len()
                        < min_size,
            },
    {
        let mut eligible: Vec<usize> = Vec::new();
        let mut c: usize = 0;
        while c < self.chromosomes.len()
            invariant
                c <= self.chromosomes@.len(),
                forall|e: int|
                    0 <= e < eligible@.len() ==> (#[trigger] eligible@[e]) < self.chromosomes@.len()
                        && self.chromosomes@[eligible@[e] as int]@.stops.len() >= min_size,
                eligible@.len() == 0 ==> forall|k: int|
                    0 <= k < c ==> (#[trigger] self.chromosomes@[k])@.stops.len() < min_size,
            decreases self.chromosomes@.len() - c,
        {
            if self.chromosomes[c].get_stops().len() >= min_size {
                eligible.push(c);
            }
            c = c + 1;
        }
        if eligible.len() == 0 {
            return None;
        }
        let pick = random_in_range(0, eligible.len() - 1, rng);
        let index = eligible[pick];
        Some((index, &self.chromosomes[index]))
    }

    /// The genes of `chromosome` whose identity is not in `gene_set`, in
    /// order.
    pub fn drop_gene_duplicates(chromosome: &Chromosome, gene_set: &GeneSet) -> (kept: Vec<Gene>)
        ensures
            kept@ == survivors(chromosome@.stops, gene_set@),
    {
        broadcast use vstd::std_specs::hash::group_hash_axioms;

        let mut kept: Vec<Gene> = Vec::new();
        let mut i: usize = 0;
        while i < chromosome.get_stops().len()
            invariant
                i <= chromosome@.stops.len(),
                kept@ == survivors(chromosome@.stops.take(i as int), gene_set@),
            decreases chromosome@.stops.len() - i,
        {
            let gene = chromosome.get_stops()[i];
            proof {
                assert(chromosome@.stops.take(i as int).push(gene) =~= chromosome@.stops.take(i + 1));
                lemma_survivors_push(chromosome@.stops.take(i as int), gene, gene_set@);
            }
            if !gene_set.contains(&gene.id) {
                kept.push(gene);
            }
            i = i + 1;
        }
        proof {
            assert(chromosome@.stops.take(i as int) =~= chromosome@.stops);
        }
        kept
    }
}

} // verus!
