use vstd::prelude::*;
use crate::domain::route::RouteView;
use crate::domain::stop::{
    Stop, stop_ids, total_usage, lemma_prefix_usage, lemma_total_usage_push,
};
use crate::services::distance_service::{
    DistanceService, leg, path_known, lemma_path_length_push, lemma_path_length_short,
};
use crate::services::plan::Plan;
use crate::solvers::genetic::crossover::parent_slice::{
    ParentSlice, gene_ids, is_cut, kept_genes, lemma_subrange_known, merged_genes,
};
use crate::solvers::genetic::individual::{
    Chromosome, Gene, Individual, fitness_of, route_along, survivors, lemma_survivors_distinct,
    lemma_survivors_members,
};

pub mod parent_slice;

verus! {

/// The slice that the cut from `lower` to `upper` takes out of chromosome
/// `index` of `first`.
pub open spec fn cut_slice(first: Seq<RouteView>, index: int, lower: int, upper: int) -> Seq<Gene> {
    first[index].stops.subrange(lower, upper)
}

/// The genes of chromosome `c` of the offspring of `first` and `second`:
/// what is left of chromosome `c` of `second` once the genes of the slice
/// are taken out and, in the chromosome that the slice came from, the
/// slice behind it.
pub open spec fn offspring_genes(
    first: Seq<RouteView>,
    second: Seq<RouteView>,
    index: int,
    lower: int,
    upper: int,
    c: int,
) -> Seq<Gene> {
    let slice = cut_slice(first, index, lower, upper);
    let kept = merged_genes(second[c].stops, gene_ids(slice));
    if c == index {
        kept + slice
    } else {
        kept
    }
}

/// Whether the offspring can be made: the distances between the genes that
/// come to stand side by side are known, and the vehicle of the chromosome
/// that takes the slice can carry it.
pub open spec fn can_cross(
    first: Seq<RouteView>,
    second: Seq<RouteView>,
    index: int,
    lower: int,
    upper: int,
    distances: Map<(u32, u32), u64>,
) -> bool {
    &&& forall|c: int|
        0 <= c < second.len() ==> path_known(
            distances,
            #[trigger] offspring_genes(first, second, index, lower, upper, c),
        )
    &&& total_usage(offspring_genes(first, second, index, lower, upper, index))
        <= second[index].vehicle.capacity
}

/// The chromosomes of the offspring of `first` and `second`: for each
/// vehicle of `second`, in order, the route along the offspring's genes.
pub open spec fn offspring_routes(
    first: Seq<RouteView>,
    second: Seq<RouteView>,
    index: int,
    lower: int,
    upper: int,
    distances: Map<(u32, u32), u64>,
) -> Seq<RouteView> {
    Seq::new(
        second.len(),
        |c: int|
            route_along(
                second[c].vehicle.id,
                second[c].vehicle.capacity,
                offspring_genes(first, second, index, lower, upper, c),
                distances,
            ),
    )
}

/// If the distances along a concatenation are known, so are those along
/// its parts.
pub proof fn lemma_concat_known(distances: Map<(u32, u32), u64>, left: Seq<Stop>, right: Seq<Stop>)
    requires
        path_known(distances, left + right),
    ensures
        path_known(distances, left),
        path_known(distances, right),
{
    let whole = left + right;
    lemma_subrange_known(distances, whole, 0, left.len() as int);
    lemma_subrange_known(distances, whole, left.len() as int, whole.len() as int);
    assert(whole.subrange(0, left.len() as int) =~= left);
    assert(whole.subrange(left.len() as int, whole.len() as int) =~= right);
}

/// Whether the routes hold every stop of `all` and nothing else, and no
/// identity at two positions.
pub open spec fn is_partition(routes: Seq<RouteView>, all: Seq<Stop>) -> bool {
    let plan = Plan { routes, pool: Seq::empty() };
    &&& plan.routes_disjoint()
    &&& forall|stop: Stop| #[trigger] all.contains(stop) <==> plan.routed(stop)
}

/// Whether no chromosome of `second` begins with a gene of the slice.
pub open spec fn slice_spares_first_genes(
    first: Seq<RouteView>,
    second: Seq<RouteView>,
    index: int,
    lower: int,
    upper: int,
) -> bool {
    forall|c: int|
        0 <= c < second.len() && (#[trigger] second[c]).stops.len() > 0 ==> !gene_ids(
            cut_slice(first, index, lower, upper),
        ).contains(second[c].stops[0].id)
}

/// The genes that stay are the first gene and those of the others whose
/// identity is not dropped.
pub proof fn lemma_kept_members(genes: Seq<Gene>, dropped: Set<u32>, gene: Gene)
    ensures
        kept_genes(genes, dropped).contains(gene) <==> genes.len() > 0 && (gene == genes[0]
            || (genes.skip(1).contains(gene) && !dropped.contains(gene.id))),
{
    if genes.len() > 0 {
        let rest = survivors(genes.skip(1), dropped);
        let merged = kept_genes(genes, dropped);
        lemma_survivors_members(genes.skip(1), dropped, gene);
        if merged.contains(gene) {
            let i = choose|i: int| 0 <= i < merged.len() && merged[i] == gene;
            if i > 0 {
                assert(rest[i - 1] == gene);
            }
        }
        if gene == genes[0] {
            assert(merged[0] == gene);
        }
        if rest.contains(gene) {
            let j = choose|j: int| 0 <= j < rest.len() && rest[j] == gene;
            assert(merged[j + 1] == gene);
        }
    }
}

/// Of genes of different identities, those that stay have different
/// identities, and they are what is left of the chromosome.
pub proof fn lemma_kept_distinct(genes: Seq<Gene>, dropped: Set<u32>)
    requires
        stop_ids(genes).no_duplicates(),
    ensures
        stop_ids(kept_genes(genes, dropped)).no_duplicates(),
        merged_genes(genes, dropped) == kept_genes(genes, dropped),
{
    if genes.len() > 0 {
        let tail = genes.skip(1);
        let rest = survivors(tail, dropped);
        let merged = kept_genes(genes, dropped);
        assert forall|i: int, j: int| 0 <= i < tail.len() && 0 <= j < tail.len() && i != j implies stop_ids(
            tail,
        )[i] != stop_ids(tail)[j] by {
            assert(stop_ids(genes)[i + 1] != stop_ids(genes)[j + 1]);
        }
        lemma_survivors_distinct(tail, dropped);
        assert forall|i: int, j: int| 0 <= i < merged.len() && 0 <= j < merged.len() && i != j implies stop_ids(
            merged,
        )[i] != stop_ids(merged)[j] by {
            if i > 0 && j > 0 {
                assert(stop_ids(rest)[i - 1] != stop_ids(rest)[j - 1]);
            } else {
                let inner = if i > 0 { i } else { j };
                lemma_survivors_members(tail, dropped, rest[inner - 1]);
                assert(rest.contains(rest[inner - 1]));
                let k = choose|k: int| 0 <= k < tail.len() && tail[k] == rest[inner - 1];
                assert(stop_ids(genes)[k + 1] != stop_ids(genes)[0]);
            }
        }
        if merged.len() > 1 {
            assert(stop_ids(merged)[1] != stop_ids(merged)[0]);
            assert(merged[1].id != genes[0].id);
        } else {
            assert(merged =~= seq![genes[0]]);
        }
    }
}

/// The offspring of two parents that hold the same stops, each once, holds
/// those stops, each once, provided that no chromosome of the second
/// parent begins with a gene of the slice.
pub proof fn lemma_crossover_feasible(
    first: Seq<RouteView>,
    second: Seq<RouteView>,
    index: int,
    lower: int,
    upper: int,
    distances: Map<(u32, u32), u64>,
    all: Seq<Stop>,
)
    requires
        is_partition(first, all),
        is_partition(second, all),
        0 <= index < first.len(),
        index < second.len(),
        is_cut(first[index].stops.len() as int, lower, upper),
        slice_spares_first_genes(first, second, index, lower, upper),
    ensures
        is_partition(offspring_routes(first, second, index, lower, upper, distances), all),
{
    let slice = cut_slice(first, index, lower, upper);
    let dropped = gene_ids(slice);
    let child = offspring_routes(first, second, index, lower, upper, distances);
    let one = Plan { routes: first, pool: Seq::empty() };
    let two = Plan { routes: second, pool: Seq::empty() };
    let three = Plan { routes: child, pool: Seq::empty() };
    // what is left of each chromosome of the second parent
    assert forall|c: int| 0 <= c < second.len() implies stop_ids(
        #[trigger] merged_genes(second[c].stops, dropped),
    ).no_duplicates() && merged_genes(second[c].stops, dropped) == kept_genes(
        second[c].stops,
        dropped,
    ) by {
        assert forall|i: int, j: int|
            0 <= i < second[c].stops.len() && 0 <= j < second[c].stops.len() && i != j implies stop_ids(
            second[c].stops,
        )[i] != stop_ids(second[c].stops)[j] by {
            assert(two.holds(c, i) && two.holds(c, j));
            assert(two.at(c, i).id != two.at(c, j).id);
        }
        lemma_kept_distinct(second[c].stops, dropped);
    }
    // where a gene of the offspring comes from
    assert forall|c: int, i: int| three.holds(c, i) implies {
        let gene = #[trigger] three.at(c, i);
        let kept = merged_genes(second[c].stops, dropped);
        if i < kept.len() {
            gene == kept[i] && !dropped.contains(gene.id) && second[c].stops.contains(gene)
        } else {
            c == index && gene == slice[i - kept.len()] && dropped.contains(gene.id)
        }
    } by {
        let gene = three.at(c, i);
        let kept = merged_genes(second[c].stops, dropped);
        assert(child[c].stops == offspring_genes(first, second, index, lower, upper, c));
        if i < kept.len() {
            assert(kept.contains(gene));
            lemma_kept_members(second[c].stops, dropped, gene);
            if gene != second[c].stops[0] {
                let k = choose|k: int|
                    0 <= k < second[c].stops.skip(1).len() && second[c].stops.skip(1)[k] == gene;
                assert(second[c].stops[k + 1] == gene);
            }
        } else {
            assert(slice[i - kept.len()].id == gene.id);
        }
    }
    // no identity at two positions
    assert forall|c1: int, i1: int, c2: int, i2: int|
        three.holds(c1, i1) && three.holds(c2, i2) && (#[trigger] three.at(c1, i1)).id == (
        #[trigger] three.at(c2, i2)).id implies c1 == c2 && i1 == i2 by {
        let g1 = three.at(c1, i1);
        let g2 = three.at(c2, i2);
        let kept1 = merged_genes(second[c1].stops, dropped);
        let kept2 = merged_genes(second[c2].stops, dropped);
        if i1 < kept1.len() {
            assert(i2 < kept2.len());
            let at1 = choose|p: int| 0 <= p < second[c1].stops.len() && second[c1].stops[p] == g1;
            let at2 = choose|p: int| 0 <= p < second[c2].stops.len() && second[c2].stops[p] == g2;
            assert(two.holds(c1, at1) && two.holds(c2, at2));
            assert(two.at(c1, at1).id == two.at(c2, at2).id);
            assert(c1 == c2);
            assert(stop_ids(kept1)[i1] == stop_ids(kept1)[i2]);
        } else {
            assert(i2 >= kept2.len());
            let j1 = i1 - kept1.len();
            let j2 = i2 - kept2.len();
            assert(one.holds(index, lower + j1) && one.holds(index, lower + j2));
            assert(one.at(index, lower + j1).id == one.at(index, lower + j2).id);
        }
    }
    // the same stops
    assert forall|stop: Stop| #[trigger] all.contains(stop) <==> three.routed(stop) by {
        if all.contains(stop) {
            assert(two.routed(stop));
            let (c, i) = choose|c: int, i: int| two.holds(c, i) && #[trigger] two.at(c, i) == stop;
            let kept = merged_genes(second[c].stops, dropped);
            assert(child[c].stops == offspring_genes(first, second, index, lower, upper, c));
            assert(child[index].stops == offspring_genes(first, second, index, lower, upper, index));
            if dropped.contains(stop.id) {
                let j = choose|j: int| 0 <= j < slice.len() && (#[trigger] slice[j]).id == stop.id;
                assert(one.routed(stop));
                let (c0, i0) = choose|c0: int, i0: int|
                    one.holds(c0, i0) && #[trigger] one.at(c0, i0) == stop;
                assert(one.holds(index, lower + j));
                assert(one.at(index, lower + j).id == one.at(c0, i0).id);
                let at = merged_genes(second[index].stops, dropped).len() + j;
                assert(three.holds(index, at) && three.at(index, at) == stop);
            } else {
                lemma_kept_members(second[c].stops, dropped, stop);
                if i > 0 {
                    assert(second[c].stops.skip(1)[i - 1] == stop);
                }
                assert(kept.contains(stop));
                let k = choose|k: int| 0 <= k < kept.len() && kept[k] == stop;
                assert(three.holds(c, k) && three.at(c, k) == stop);
            }
        }
        if three.routed(stop) {
            let (c, i) = choose|c: int, i: int| three.holds(c, i) && #[trigger] three.at(c, i) == stop;
            let kept = merged_genes(second[c].stops, dropped);
            if i < kept.len() {
                let p = choose|p: int| 0 <= p < second[c].stops.len() && second[c].stops[p] == stop;
                assert(two.holds(c, p) && two.at(c, p) == stop);
                assert(two.routed(stop));
            } else {
                let j = i - kept.len();
                assert(one.holds(index, lower + j) && one.at(index, lower + j) == stop);
                assert(one.routed(stop));
            }
        }
    }
}

/// Whether `child` holds the chromosomes of an offspring of `first` and
/// `second`: for some chromosome of `first` of at least four genes, and
/// some cut of it, the offspring can be made, and these are its
/// chromosomes.
pub open spec fn is_offspring_of(
    first: Seq<RouteView>,
    second: Seq<RouteView>,
    child: Seq<RouteView>,
    distances: Map<(u32, u32), u64>,
) -> bool {
    exists|index: int, lower: int, upper: int|
        {
            &&& 0 <= index < first.len()
            &&& index < second.len()
            &&& first[index].stops.len() >= 4
            &&& is_cut(first[index].stops.len() as int, lower, upper)
            &&& can_cross(first, second, index, lower, upper, distances)
            &&& child == #[trigger] offspring_routes(first, second, index, lower, upper, distances)
        }
}

/// Whether a draw can end without an offspring of `first` and `second`:
/// `first` has no chromosome of at least four genes, or for one of them
/// and some cut of it `second` has no chromosome at its position or the
/// offspring cannot be made.
pub open spec fn some_cut_fails(
    first: Seq<RouteView>,
    second: Seq<RouteView>,
    distances: Map<(u32, u32), u64>,
) -> bool {
    ||| forall|c: int| 0 <= c < first.len() ==> (#[trigger] first[c]).stops.len() < 4
    ||| exists|index: int, lower: int, upper: int|
        {
            &&& 0 <= index < first.len()
            &&& first[index].stops.len() >= 4
            &&& #[trigger] is_cut(first[index].stops.len() as int, lower, upper)
            &&& index < second.len() ==> !can_cross(first, second, index, lower, upper, distances)
        }
}

/// The fitter of two individuals: the one of less fitness, and the first
/// where both have the same.
pub open spec fn fitter_of(first: Individual, second: Individual) -> Individual {
    if first.fitness <= second.fitness {
        first
    } else {
        second
    }
}

impl Individual {
    /// Appends the genes of `parent_slice` to `chromosome`, one after the
    /// other. It stops, and returns nothing, at the first gene that the
    /// vehicle cannot take or whose distance from the gene before it is not
    /// known.
    fn insert_parent_slice(
        chromosome: &mut Chromosome,
        parent_slice: &ParentSlice,
        distance_service: &DistanceService,
    ) -> (inserted: Option<()>)
        requires
            old(chromosome).wf(),
            old(chromosome).measured_by(distance_service@),
            old(chromosome)@.vehicle.usage == total_usage(old(chromosome)@.stops),
        ensures
            inserted is Some <==> {
                &&& path_known(distance_service@, old(chromosome)@.stops + parent_slice.slice@)
                &&& total_usage(old(chromosome)@.stops + parent_slice.slice@) <= old(
                    chromosome,
                )@.vehicle.capacity
            },
            inserted is Some ==> {
                &&& final(chromosome)@ == route_along(
                    old(chromosome)@.vehicle.id,
                    old(chromosome)@.vehicle.capacity,
                    old(chromosome)@.stops + parent_slice.slice@,
                    distance_service@,
                )
                &&& final(chromosome).wf()
                &&& final(chromosome).measured_by(distance_service@)
            },
    {
        let ghost distances = distance_service@;
        let ghost before = chromosome@.stops;
        let ghost genes = before + parent_slice.slice@;
        let mut j: usize = 0;
        proof {
            assert(before + parent_slice.slice@.take(0) =~= before);
        }
        while j < parent_slice.slice.len()
            invariant
                distances == distance_service@,
                before == old(chromosome)@.stops,
                genes == before + parent_slice.slice@,
                j <= parent_slice.slice@.len(),
                chromosome.wf(),
                chromosome.measured_by(distances),
                chromosome@.stops == before + parent_slice.slice@.take(j as int),
                chromosome@.vehicle.id == old(chromosome)@.vehicle.id,
                chromosome@.vehicle.capacity == old(chromosome)@.vehicle.capacity,
                chromosome@.vehicle.usage == total_usage(chromosome@.stops),
            decreases parent_slice.slice@.len() - j,
        {
            let gene = parent_slice.slice[j];
            let ghost n = before.len() + j;
            proof {
                assert(chromosome@.stops =~= genes.take(n));
                assert(genes.take(n).push(gene) =~= genes.take(n + 1));
                assert(before + parent_slice.slice@.take(j + 1) =~= genes.take(n + 1));
                lemma_prefix_usage(genes, n + 1);
                lemma_total_usage_push(genes.take(n), gene);
                if n > 0 {
                    lemma_path_length_push(distances, genes.take(n), gene);
                    assert(leg(genes, n - 1) == (genes[n - 1].id, gene.id));
                } else {
                    lemma_path_length_short(distances, genes.take(1));
                }
            }
            let distance: u64 = if chromosome.get_stops().len() == 0 {
                0
            } else {
                let tail = chromosome.get_stops()[chromosome.get_stops().len() - 1];
                distance_service.get_distance(&tail, &gene)?
            };
            if chromosome.add_stop(gene, distance).is_err() {
                return None;
            }
            j = j + 1;
        }
        proof {
            assert(parent_slice.slice@.take(j as int) =~= parent_slice.slice@);
        }
        Some(())
    }

    /// The offspring of `parent1` and `parent2` for the slice that the cut
    /// from `lower` to `upper` takes out of chromosome `index` of
    /// `parent1`. Each of its chromosomes is what is left of the
    /// chromosome of `parent2` for the same vehicle once the genes of the
    /// slice are taken out; the chromosome at position `index` has the
    /// slice behind that. Absent if a distance between two genes that come
    /// to stand side by side is not known, or if the vehicle cannot carry
    /// the slice as well.
    pub fn crossover_at(
        parent1: &Individual,
        parent2: &Individual,
        index: usize,
        lower: usize,
        upper: usize,
        distance_service: &DistanceService,
    ) -> (offspring: Option<Individual>)
        requires
            index < parent1.chromosomes@.len(),
            index < parent2.chromosomes@.len(),
            is_cut(parent1.chromosomes@[index as int]@.stops.len() as int, lower as int, upper as int),
            forall|c: int|
                0 <= c < parent2.chromosomes@.len() ==> (#[trigger] parent2.chromosomes@[c]).wf(),
        ensures
            offspring is Some <==> can_cross(
                parent1.routes(),
                parent2.routes(),
                index as int,
                lower as int,
                upper as int,
                distance_service@,
            ),
            offspring matches Some(child) ==> {
                &&& child.routes() == offspring_routes(
                    parent1.routes(),
                    parent2.routes(),
                    index as int,
                    lower as int,
                    upper as int,
                    distance_service@,
                )
                &&& forall|c: int|
                    0 <= c < child.chromosomes@.len() ==> (#[trigger] child.chromosomes@[c]).wf()
                        && child.chromosomes@[c].measured_by(distance_service@)
                &&& child.fitness == fitness_of(child.routes())
            },
    {
        let ghost distances = distance_service@;
        let ghost first = parent1.routes();
        let ghost second = parent2.routes();
        let ghost slice = cut_slice(first, index as int, lower as int, upper as int);
        let ghost dropped = gene_ids(slice);
        let ghost at_index = offspring_genes(
            first,
            second,
            index as int,
            lower as int,
            upper as int,
            index as int,
        );
        let parent_slice = match ParentSlice::from_chromosome(
            &parent1.chromosomes[index],
            lower,
            upper,
            distance_service,
        ) {
            Some(parent_slice) => parent_slice,
            None => {
                proof {
                    if path_known(distances, at_index) {
                        lemma_concat_known(
                            distances,
                            merged_genes(second[index as int].stops, dropped),
                            slice,
                        );
                    }
                }
                return None;
            },
        };
        let mut chromosomes: Vec<Chromosome> = Vec::new();
        let mut c: usize = 0;
        while c < parent2.chromosomes.len()
            invariant
                distances == distance_service@,
                first == parent1.routes(),
                second == parent2.routes(),
                slice == cut_slice(first, index as int, lower as int, upper as int),
                dropped == gene_ids(slice),
                index < parent2.chromosomes@.len(),
                parent_slice.slice@ == slice,
                parent_slice.gene_set@ == dropped,
                parent_slice.wf(distances),
                forall|k: int|
                    0 <= k < parent2.chromosomes@.len() ==> (#[trigger] parent2.chromosomes@[k]).wf(),
                c <= parent2.chromosomes@.len(),
                chromosomes@.len() == c,
                forall|k: int|
                    0 <= k < c ==> {
                        &&& (#[trigger] chromosomes@[k])@ == route_along(
                            second[k].vehicle.id,
                            second[k].vehicle.capacity,
                            offspring_genes(first, second, index as int, lower as int, upper as int, k),
                            distances,
                        )
                        &&& chromosomes@[k].wf()
                        &&& chromosomes@[k].measured_by(distances)
                    },
                forall|k: int|
                    0 <= k < c ==> path_known(
                        distances,
                        #[trigger] offspring_genes(
                            first,
                            second,
                            index as int,
                            lower as int,
                            upper as int,
                            k,
                        ),
                    ),
                c > index ==> total_usage(
                    offspring_genes(first, second, index as int, lower as int, upper as int, index as int),
                ) <= second[index as int].vehicle.capacity,
            decreases parent2.chromosomes@.len() - c,
        {
            let ghost kept = merged_genes(second[c as int].stops, dropped);
            let ghost genes = offspring_genes(
                first,
                second,
                index as int,
                lower as int,
                upper as int,
                c as int,
            );
            proof {
                assert(second[c as int] == parent2.chromosomes@[c as int]@);
                if c == index && path_known(distances, genes) {
                    lemma_concat_known(distances, kept, slice);
                }
            }
            let mut merged = match parent_slice.merge_into(
                parent2.chromosomes[c].clone(),
                distance_service,
            ) {
                Some(merged) => merged,
                None => {
                    return None;
                },
            };
            if c == index {
                if Self::insert_parent_slice(&mut merged, &parent_slice, distance_service).is_none() {
                    return None;
                }
            }
            chromosomes.push(merged);
            c = c + 1;
        }
        let child = Individual::new(chromosomes);
        proof {
            assert(child.routes() =~= offspring_routes(
                first,
                second,
                index as int,
                lower as int,
                upper as int,
                distances,
            ));
        }
        Some(child)
    }

    /// The offspring of `parent1` and `parent2` for a slice cut at random
    /// out of a chromosome of `parent1` that is chosen at random among
    /// those of at least four genes. Absent if `parent1` has no such
    /// chromosome, if `parent2` has no chromosome at its position, or if
    /// the offspring for that slice cannot be made.
    pub fn crossover(
        parent1: &Individual,
        parent2: &Individual,
        rng: &mut rand::rngs::StdRng,
        distance_service: &DistanceService,
    ) -> (offspring: Option<Individual>)
        requires
            parent2.all_wf(),
        ensures
            offspring matches Some(child) ==> {
                &&& is_offspring_of(
                    parent1.routes(),
                    parent2.routes(),
                    child.routes(),
                    distance_service@,
                )
                &&& child.fitness == fitness_of(child.routes())
                &&& forall|c: int|
                    0 <= c < child.chromosomes@.len() ==> (#[trigger] child.chromosomes@[c]).wf()
                        && child.chromosomes@[c].measured_by(distance_service@)
            },
            offspring is None ==> some_cut_fails(
                parent1.routes(),
                parent2.routes(),
                distance_service@,
            ),
    {
        let (index, chromosome) = parent1.choose_random_chromosome(rng, 4)?;
        let max_size = chromosome.get_stops().len() - 1;
        let (lower, upper) = ParentSlice::generate_range(1, max_size, rng);
        proof {
            assert(parent1.routes()[index as int] == parent1.chromosomes@[index as int]@);
            assert(is_cut(
                parent1.routes()[index as int].stops.len() as int,
                lower as int,
                upper as int,
            ));
        }
        if index >= parent2.chromosomes.len() {
            return None;
        }
        let offspring = Self::crossover_at(parent1, parent2, index, lower, upper, distance_service);
        proof {
            if offspring is Some {
                assert(offspring->0.routes() == offspring_routes(
                    parent1.routes(),
                    parent2.routes(),
                    index as int,
                    lower as int,
                    upper as int,
                    distance_service@,
                ));
            }
        }
        offspring
    }

    /// The first offspring that up to `max_crossover_tries` tries of
    /// [`Individual::crossover`] give, each with a slice of its own; absent
    /// if none of them gives one.
    pub fn crossover_with_retries(
        parent1: &Individual,
        parent2: &Individual,
        max_crossover_tries: u8,
        rng: &mut rand::rngs::StdRng,
        distance_service: &DistanceService,
    ) -> (offspring: Option<Individual>)
        requires
            parent2.all_wf(),
        ensures
            max_crossover_tries == 0 ==> offspring is None,
            offspring matches Some(child) ==> {
                &&& is_offspring_of(
                    parent1.routes(),
                    parent2.routes(),
                    child.routes(),
                    distance_service@,
                )
                &&& child.fitness == fitness_of(child.routes())
                &&& forall|c: int|
                    0 <= c < child.chromosomes@.len() ==> (#[trigger] child.chromosomes@[c]).wf()
                        && child.chromosomes@[c].measured_by(distance_service@)
            },
            offspring is None && max_crossover_tries > 0 ==> some_cut_fails(
                parent1.routes(),
                parent2.routes(),
                distance_service@,
            ),
    {
        let mut tries: u8 = 0;
        while tries < max_crossover_tries
            invariant
                forall|c: int|
                    0 <= c < parent2.chromosomes@.len() ==> (#[trigger] parent2.chromosomes@[c]).wf(),
                tries > 0 ==> some_cut_fails(parent1.routes(), parent2.routes(), distance_service@),
            decreases max_crossover_tries - tries,
        {
            let offspring = Self::crossover(parent1, parent2, rng, distance_service);
            if offspring.is_some() {
                return offspring;
            }
            tries = tries + 1;
        }
        None
    }

    /// The fitter of two individuals: the one of less fitness, and the
    /// first where both have the same.
    pub fn fitter<'a>(first: &'a Individual, second: &'a Individual) -> (chosen: &'a Individual)
        ensures
            *chosen == fitter_of(*first, *second),
    {
        if first.fitness <= second.fitness {
            first
        } else {
            second
        }
    }

    /// The offspring, if there is one, and a copy of the fitter parent
    /// otherwise.
    pub fn offspring_or_fitter(
        offspring: Option<Individual>,
        parent1: &Individual,
        parent2: &Individual,
    ) -> (bred: Individual)
        ensures
            match offspring {
                Some(child) => bred == child,
                None => bred.routes() == fitter_of(*parent1, *parent2).routes() && bred.fitness
                    == fitness_of(bred.routes()),
            },
    {
        match offspring {
            Some(child) => child,
            None => Individual::new(Self::fitter(parent1, parent2).copy_chromosomes()),
        }
    }

    /// An individual for the next generation: the first offspring that up
    /// to `max_crossover_tries` tries of [`Individual::crossover`] give,
    /// or, if none gives one, a copy of the fitter parent. No try is made
    /// where a chromosome of `parent2` is not well-formed. An offspring is
    /// owed where a try is made and no draw can end without one.
    pub fn breed(
        parent1: &Individual,
        parent2: &Individual,
        max_crossover_tries: u8,
        rng: &mut rand::rngs::StdRng,
        distance_service: &DistanceService,
    ) -> (bred: Individual)
        ensures
            bred.fitness == fitness_of(bred.routes()),
            max_crossover_tries > 0 && parent2.all_wf() && !some_cut_fails(
                parent1.routes(),
                parent2.routes(),
                distance_service@,
            ) ==> is_offspring_of(
                parent1.routes(),
                parent2.routes(),
                bred.routes(),
                distance_service@,
            ),
            bred.routes() == fitter_of(*parent1, *parent2).routes() || {
                &&& max_crossover_tries > 0
                &&& parent2.all_wf()
                &&& is_offspring_of(
                    parent1.routes(),
                    parent2.routes(),
                    bred.routes(),
                    distance_service@,
                )
                &&& forall|c: int|
                    0 <= c < bred.chromosomes@.len() ==> (#[trigger] bred.chromosomes@[c]).wf()
                        && bred.chromosomes@[c].measured_by(distance_service@)
            },
    {
        let offspring = if parent2.is_well_formed() {
            Self::crossover_with_retries(
                parent1,
                parent2,
                max_crossover_tries,
                rng,
                distance_service,
            )
        } else {
            None
        };
        Self::offspring_or_fitter(offspring, parent1, parent2)
    }
}

} // verus!
