use std::collections::HashSet;
use vstd::prelude::*;
use crate::domain::stop::{
    Stop, total_usage, usages, lemma_prefix_usage, lemma_total_usage_concat,
    lemma_total_usage_push,
};
use crate::domain::vehicle::Vehicle;
use crate::random::random_in_range;
use crate::services::distance_service::{
    DistanceService, leg, path_known, path_length, lemma_path_length_push, lemma_path_length_short,
};
use crate::solvers::genetic::individual::{
    Chromosome, Gene, GeneSet, Individual, route_along, survivors, lemma_survivors_concat,
    lemma_survivors_push, lemma_survivors_usage,
};

verus! {

/// The identities of the genes of a sequence.
pub open spec fn gene_ids(genes: Seq<Gene>) -> Set<u32> {
    Set::new(|id: u32| exists|i: int| 0 <= i < genes.len() && (#[trigger] genes[i]).id == id)
}

/// The genes of a chromosome that stay once those of `dropped` are taken
/// out: the first gene in any case, and of the others those whose identity
/// is not in `dropped`, in order.
pub open spec fn kept_genes(genes: Seq<Gene>, dropped: Set<u32>) -> Seq<Gene> {
    if genes.len() == 0 {
        genes
    } else {
        seq![genes[0]] + survivors(genes.skip(1), dropped)
    }
}

/// Whether nothing stays behind the first gene but genes of its identity,
/// as where a round trip comes back to the stop it began with.
pub open spec fn only_first_left(genes: Seq<Gene>, dropped: Set<u32>) -> bool {
    &&& genes.len() > 0
    &&& forall|i: int|
        1 <= i < kept_genes(genes, dropped).len() ==> (#[trigger] kept_genes(genes, dropped)[i]).id
            == genes[0].id
}

/// What is left of the genes of a chromosome once those of `dropped` are
/// taken out: the first gene alone where nothing else stays but genes of
/// its identity, and the genes that stay otherwise.
pub open spec fn merged_genes(genes: Seq<Gene>, dropped: Set<u32>) -> Seq<Gene> {
    if only_first_left(genes, dropped) {
        seq![genes[0]]
    } else {
        kept_genes(genes, dropped)
    }
}

/// Whether `lower` and `upper` cut a slice out of a chromosome of `len`
/// genes: the slice is not empty, and it holds neither the first gene nor
/// the last.
pub open spec fn is_cut(len: int, lower: int, upper: int) -> bool {
    1 <= lower < upper <= len - 1
}

/// What is left of the genes needs no more capacity than all of them.
pub proof fn lemma_merged_usage(genes: Seq<Gene>, dropped: Set<u32>)
    ensures
        total_usage(merged_genes(genes, dropped)) <= total_usage(genes),
{
    if genes.len() > 0 {
        assert(seq![genes[0]] + genes.skip(1) =~= genes);
        lemma_total_usage_concat(seq![genes[0]], genes.skip(1));
        lemma_total_usage_concat(seq![genes[0]], survivors(genes.skip(1), dropped));
        lemma_survivors_usage(genes.skip(1), dropped);
        lemma_prefix_usage(kept_genes(genes, dropped), 1);
        assert(kept_genes(genes, dropped).take(1) =~= seq![genes[0]]);
    }
}

/// A part of a path whose distances are known is such a path.
pub proof fn lemma_subrange_known(distances: Map<(u32, u32), u64>, stops: Seq<Stop>, lower: int, upper: int)
    requires
        0 <= lower <= upper <= stops.len(),
        path_known(distances, stops),
    ensures
        path_known(distances, stops.subrange(lower, upper)),
{
    let part = stops.subrange(lower, upper);
    assert forall|k: int| 0 <= k < part.len() - 1 implies distances.contains_key(
        #[trigger] leg(part, k),
    ) by {
        assert(leg(part, k) == leg(stops, lower + k));
    }
}

/// A slice cut out of a chromosome of one parent: its genes in order, the
/// distance travelled along them, and the set of their identities.
pub struct ParentSlice {
    pub cost: u128,
    pub slice: Vec<Gene>,
    pub gene_set: GeneSet,
}

impl ParentSlice {
    /// The cost is the length of the path along the genes under
    /// `distances`, and the set holds the identities of the genes.
    pub open spec fn wf(&self, distances: Map<(u32, u32), u64>) -> bool {
        &&& path_known(distances, self.slice@)
        &&& self.cost == path_length(distances, self.slice@)
        &&& self.gene_set@ == gene_ids(self.slice@)
    }

    /// The slice of the given genes; absent if the distance between two
    /// consecutive genes is.
    pub fn new(slice: Vec<Gene>, distance_service: &DistanceService) -> (parent_slice: Option<
        ParentSlice,
    >)
        ensures
            parent_slice is Some <==> path_known(distance_service@, slice@),
            parent_slice matches Some(made) ==> made.slice == slice && made.wf(distance_service@),
    {
        broadcast use vstd::std_specs::hash::group_hash_axioms;

        let cost = Self::calculate_slice_cost(slice.as_slice(), distance_service)?;
        let mut gene_set: GeneSet = HashSet::new();
        let mut i: usize = 0;
        while i < slice.len()
            invariant
                i <= slice@.len(),
                gene_set@ == gene_ids(slice@.take(i as int)),
            decreases slice@.len() - i,
        {
            let ghost before = gene_set@;
            gene_set.insert(slice[i].id);
            proof {
                let shorter = slice@.take(i as int);
                let longer = slice@.take(i + 1);
                assert forall|id: u32| before.insert(slice@[i as int].id).contains(id)
                    <==> gene_ids(longer).contains(id) by {
                    if before.contains(id) {
                        let j = choose|j: int| 0 <= j < shorter.len() && (#[trigger] shorter[j]).id == id;
                        assert(longer[j].id == id);
                    }
                    if id == slice@[i as int].id {
                        assert(longer[i as int].id == id);
                    }
                    if gene_ids(longer).contains(id) {
                        let j = choose|j: int| 0 <= j < longer.len() && (#[trigger] longer[j]).id == id;
                        if j < i {
                            assert(shorter[j].id == id);
                        }
                    }
                }
                assert(gene_set@ =~= gene_ids(longer));
            }
            i = i + 1;
        }
        proof {
            assert(slice@.take(i as int) =~= slice@);
        }
        Some(Self { cost, slice, gene_set })
    }

    /// The slice of the genes of `chromosome` from position `lower` up to
    /// but without position `upper`; absent if the distance between two
    /// consecutive genes of it is.
    pub fn from_chromosome(
        chromosome: &Chromosome,
        lower: usize,
        upper: usize,
        distance_service: &DistanceService,
    ) -> (parent_slice: Option<ParentSlice>)
        requires
            lower <= upper <= chromosome@.stops.len(),
        ensures
            parent_slice is Some <==> path_known(
                distance_service@,
                chromosome@.stops.subrange(lower as int, upper as int),
            ),
            parent_slice matches Some(made) ==> {
                &&& made.slice@ == chromosome@.stops.subrange(lower as int, upper as int)
                &&& made.wf(distance_service@)
            },
    {
        let genes = vstd::slice::slice_to_vec(
            vstd::slice::slice_subrange(chromosome.get_stops().as_slice(), lower, upper),
        );
        Self::new(genes, distance_service)
    }

    /// The distance travelled along the genes; absent if the distance
    /// between two consecutive genes is.
    pub fn calculate_slice_cost(slice: &[Gene], distance_service: &DistanceService) -> (cost: Option<
        u128,
    >)
        ensures
            cost is Some <==> path_known(distance_service@, slice@),
            cost matches Some(total) ==> total == path_length(distance_service@, slice@),
    {
        distance_service.get_path_length(slice)
    }

    /// Two cut points from two draws: `a` as it is, and `b` moved up by one
    /// where it is not below `a`, so that the two differ; the smaller comes
    /// first.
    pub fn order_cut_points(a: usize, b: usize) -> (range: (usize, usize))
        requires
            b < usize::MAX,
        ensures
            range.0 < range.1,
            b < a ==> range == (b, a),
            b >= a ==> range == (a, (b + 1) as usize),
    {
        if b < a {
            (b, a)
        } else {
            (a, b + 1)
        }
    }

    /// Two different numbers from `min` to `max`, drawn at random, the
    /// smaller first.
    pub(crate) fn generate_range(min: usize, max: usize, rng: &mut rand::rngs::StdRng) -> (range: (usize, usize))
        requires
            min < max,
        ensures
            min <= range.0 < range.1 <= max,
    {
        let a = random_in_range(min, max, rng);
        let b = random_in_range(min, max - 1, rng);
        Self::order_cut_points(a, b)
    }

    /// A slice cut at random out of a chromosome of `parent` that is
    /// chosen at random among those of at least four genes. Absent only if
    /// `parent` has no such chromosome, or if for one of them and some cut
    /// a distance between two consecutive genes of the slice is not known.
    pub fn from_random(
        parent: &Individual,
        rng: &mut rand::rngs::StdRng,
        distance_service: &DistanceService,
    ) -> (parent_slice: Option<ParentSlice>)
        ensures
            parent_slice matches Some(made) ==> made.wf(distance_service@) && exists|
                c: int,
                lower: int,
                upper: int,
            |
                {
                    &&& 0 <= c < parent.chromosomes@.len()
                    &&& parent.chromosomes@[c]@.stops.len() >= 4
                    &&& is_cut(parent.chromosomes@[c]@.stops.len() as int, lower, upper)
                    &&& made.slice@ == #[trigger] parent.chromosomes@[c]@.stops.subrange(lower, upper)
                },
            parent_slice is None ==> {
                ||| forall|c: int|
                    0 <= c < parent.chromosomes@.len() ==> (#[trigger] parent.chromosomes@[c])@.stops.len()
                        < 4
                ||| exists|c: int, lower: int, upper: int|
                    {
                        &&& 0 <= c < parent.chromosomes@.len()
                        &&& parent.chromosomes@[c]@.stops.len() >= 4
                        &&& is_cut(parent.chromosomes@[c]@.stops.len() as int, lower, upper)
                        &&& !path_known(
                            distance_service@,
                            #[trigger] parent.chromosomes@[c]@.stops.subrange(lower, upper),
                        )
                    }
            },
    {
        let (index, chromosome) = parent.choose_random_chromosome(rng, 4)?;
        let max_size = chromosome.get_stops().len() - 1;
        let (lower_bound, upper_bound) = Self::generate_range(1, max_size, rng);
        let made = Self::from_chromosome(chromosome, lower_bound, upper_bound, distance_service);
        proof {
            if made is None {
                assert(!path_known(
                    distance_service@,
                    parent.chromosomes@[index as int]@.stops.subrange(
                        lower_bound as int,
                        upper_bound as int,
                    ),
                ));
            } else {
                assert(made->0.slice@ == parent.chromosomes@[index as int]@.stops.subrange(
                    lower_bound as int,
                    upper_bound as int,
                ));
            }
        }
        made
    }

    /// The chromosome of an empty vehicle like that of `chromosome`, with
    /// what is left of the genes of `chromosome` once those of the slice
    /// are taken out: its first gene in any case, then those of the others
    /// that the slice does not hold, in order. Where nothing else is left
    /// but genes of the first gene's identity, the first gene stands alone.
    /// Absent if the distance between two genes that come to stand side by
    /// side is not known.
    pub fn merge_into(&self, chromosome: Chromosome, distance_service: &DistanceService) -> (offspring:
        Option<Chromosome>)
        requires
            chromosome.wf(),
        ensures
            offspring is Some <==> path_known(
                distance_service@,
                merged_genes(chromosome@.stops, self.gene_set@),
            ),
            offspring matches Some(merged) ==> {
                &&& merged@ == route_along(
                    chromosome@.vehicle.id,
                    chromosome@.vehicle.capacity,
                    merged_genes(chromosome@.stops, self.gene_set@),
                    distance_service@,
                )
                &&& merged.wf()
                &&& merged.measured_by(distance_service@)
            },
    {
        broadcast use vstd::std_specs::hash::group_hash_axioms;

        let ghost distances = distance_service@;
        let ghost dropped = self.gene_set@;
        let ghost genes = kept_genes(chromosome@.stops, dropped);
        let mut offspring_chromosome = Chromosome::new(
            Vehicle::new(chromosome.get_vehicle().get_id(), chromosome.get_vehicle().get_capacity()),
        );
        if chromosome.get_stops().len() == 0 {
            proof {
                lemma_path_length_short(distances, genes);
                assert(genes =~= Seq::<Stop>::empty());
                assert(usages(genes) =~= Seq::<nat>::empty());
            }
            return Some(offspring_chromosome);
        }
        let anchor = chromosome.get_stops()[0];
        proof {
            lemma_merged_usage(chromosome@.stops, dropped);
            lemma_prefix_usage(genes, 1);
            assert(genes.take(1) =~= seq![anchor]);
            lemma_total_usage_push(Seq::<Stop>::empty(), anchor);
            assert(Seq::<Stop>::empty().push(anchor) =~= seq![anchor]);
            lemma_path_length_short(distances, genes.take(1));
        }
        offspring_chromosome.add_stop(anchor, 0).unwrap();
        let unrepeated_genes: Vec<Gene> = Individual::drop_gene_duplicates(
            &chromosome,
            &self.gene_set,
        );
        let first: usize = if self.gene_set.contains(&anchor.id) {
            0
        } else {
            1
        };
        proof {
            let rest = chromosome@.stops.skip(1);
            assert(seq![anchor] + rest =~= chromosome@.stops);
            lemma_survivors_concat(seq![anchor], rest, dropped);
            lemma_survivors_push(Seq::<Stop>::empty(), anchor, dropped);
            assert(survivors(Seq::<Stop>::empty(), dropped) =~= Seq::<Stop>::empty());
        }
        let mut only_first = true;
        let mut k: usize = first;
        while k < unrepeated_genes.len()
            invariant
                first <= k <= unrepeated_genes@.len(),
                genes.len() == unrepeated_genes@.len() - first + 1,
                forall|j: int|
                    first <= j < unrepeated_genes@.len() ==> unrepeated_genes@[j] == genes[j - first + 1],
                only_first <==> forall|j: int|
                    1 <= j < k - first + 1 ==> (#[trigger] genes[j]).id == anchor.id,
            decreases unrepeated_genes@.len() - k,
        {
            if unrepeated_genes[k].id != anchor.id {
                assert(genes[k - first + 1].id != anchor.id);
                only_first = false;
            }
            k = k + 1;
        }
        if only_first {
            assert(only_first_left(chromosome@.stops, dropped));
            return Some(offspring_chromosome);
        }
        let mut i: usize = first;
        while i < unrepeated_genes.len()
            invariant
                distances == distance_service@,
                dropped == self.gene_set@,
                genes == merged_genes(chromosome@.stops, dropped),
                chromosome.wf(),
                total_usage(genes) <= total_usage(chromosome@.stops),
                first <= 1,
                first <= i <= unrepeated_genes@.len(),
                genes.len() == unrepeated_genes@.len() - first + 1,
                forall|j: int|
                    first <= j < unrepeated_genes@.len() ==> unrepeated_genes@[j] == genes[j - first + 1],
                offspring_chromosome.wf(),
                offspring_chromosome.measured_by(distances),
                offspring_chromosome@.stops == genes.take(i - first + 1),
                offspring_chromosome@.vehicle.id == chromosome@.vehicle.id,
                offspring_chromosome@.vehicle.capacity == chromosome@.vehicle.capacity,
                offspring_chromosome@.vehicle.usage == total_usage(offspring_chromosome@.stops),
            decreases unrepeated_genes@.len() - i,
        {
            let gene = unrepeated_genes[i];
            let ghost n = i - first + 1;
            let tail = offspring_chromosome.get_stops()[offspring_chromosome.get_stops().len() - 1];
            proof {
                assert(genes.take(n).push(gene) =~= genes.take(n + 1));
                assert(leg(genes, n - 1) == (tail.id, gene.id));
                lemma_prefix_usage(genes, n + 1);
                lemma_total_usage_push(genes.take(n), gene);
                lemma_path_length_push(distances, genes.take(n), gene);
            }
            let distance = distance_service.get_distance(&tail, &gene)?;
            offspring_chromosome.add_stop(gene, distance).unwrap();
            i = i + 1;
        }
        proof {
            assert(genes.take(genes.len() as int) =~= genes);
        }
        Some(offspring_chromosome)
    }
}

} // verus!
