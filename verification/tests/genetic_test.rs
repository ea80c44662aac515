use cvrp::domain::route::Route;
use cvrp::domain::stop::Stop;
use cvrp::domain::vehicle::Vehicle;
use cvrp::services::distance_service::{DistanceMatrix, DistanceService};
use cvrp::solvers::genetic::crossover::parent_slice::ParentSlice;
use cvrp::solvers::genetic::individual::Individual;
use rand::rngs::StdRng;
use rand::SeedableRng;

fn stop(id: u32) -> Stop {
    Stop::new(id, 10)
}

fn line_distances() -> DistanceMatrix {
    let mut matrix = DistanceMatrix::new();
    for from in 0..7u32 {
        for to in 0..7u32 {
            if from != to {
                matrix.insert(from, to, 10 * (from.abs_diff(to) as u64));
            }
        }
    }
    matrix
}

fn distance_service() -> DistanceService {
    DistanceService::new(line_distances())
}

fn chromosome(vehicle: Vehicle, ids: &[u32], distance_service: &DistanceService) -> Route {
    let mut route = Route::new(vehicle);
    for (index, id) in ids.iter().enumerate() {
        let distance = if index == 0 {
            0
        } else {
            distance_service.get_distance(&stop(ids[index - 1]), &stop(*id)).unwrap()
        };
        route.add_stop(stop(*id), distance).unwrap();
    }
    route
}

fn individual(genes: &[&[u32]], capacity: u32) -> Individual {
    let distance_service = distance_service();
    Individual::new(
        genes
            .iter()
            .enumerate()
            .map(|(id, ids)| chromosome(Vehicle::new(id as u32, capacity), ids, &distance_service))
            .collect(),
    )
}

fn first_parent() -> Individual {
    individual(&[&[0, 1, 2, 3, 4], &[5, 6]], 100)
}

fn second_parent() -> Individual {
    individual(&[&[0, 4, 6, 2], &[5, 1, 3]], 100)
}

fn round_trip() -> Individual {
    individual(&[&[0, 1, 2, 3, 0]], 100)
}

fn genes_of(individual: &Individual) -> Vec<Vec<u32>> {
    individual
        .chromosomes
        .iter()
        .map(|chromosome| chromosome.stops.iter().map(|gene| gene.id).collect())
        .collect()
}

fn slice_of(ids: &[u32]) -> ParentSlice {
    ParentSlice::new(ids.iter().map(|id| stop(*id)).collect(), &distance_service()).unwrap()
}

#[test]
fn fitness_is_the_sum_of_the_chromosome_costs() {
    assert_eq!(first_parent().fitness, 50);
    assert_eq!(second_parent().fitness, 40 + 20 + 40 + 40 + 20);
    assert_eq!(Individual::new(Vec::new()).fitness, 0);
}

#[test]
fn slice_knows_its_cost_and_its_genes() {
    let slice = slice_of(&[1, 4, 2]);

    assert_eq!(slice.cost, 50);
    assert_eq!(slice.slice.len(), 3);
    assert_eq!(slice.gene_set.len(), 3);
    assert!(slice.gene_set.contains(&1) && slice.gene_set.contains(&4) && slice.gene_set.contains(&2));
    assert!(!slice.gene_set.contains(&3));
}

#[test]
fn slice_cost_is_the_sum_of_consecutive_distances() {
    let genes = [stop(6), stop(0), stop(3)];

    assert_eq!(ParentSlice::calculate_slice_cost(&genes, &distance_service()), Some(90));
    assert_eq!(ParentSlice::calculate_slice_cost(&genes[..1], &distance_service()), Some(0));
    assert_eq!(ParentSlice::calculate_slice_cost(&[stop(0), stop(9)], &distance_service()), None);
    assert!(ParentSlice::new(vec![stop(0), stop(9)], &distance_service()).is_none());
}

#[test]
fn slice_of_a_chromosome_takes_the_genes_between_the_cut_points() {
    let parent = first_parent();

    let slice =
        ParentSlice::from_chromosome(&parent.chromosomes[0], 1, 3, &distance_service()).unwrap();

    let ids: Vec<u32> = slice.slice.iter().map(|gene| gene.id).collect();
    assert_eq!(ids, vec![1, 2]);
    assert_eq!(slice.cost, 10);
}

#[test]
fn cut_points_differ_and_are_ordered() {
    assert_eq!(ParentSlice::order_cut_points(5, 2), (2, 5));
    assert_eq!(ParentSlice::order_cut_points(2, 5), (2, 6));
    assert_eq!(ParentSlice::order_cut_points(3, 3), (3, 4));
    assert_eq!(ParentSlice::order_cut_points(1, 0), (0, 1));
}

#[test]
fn random_slice_is_cut_from_the_inside_of_a_long_chromosome() {
    let parent = first_parent();
    let distance_service = distance_service();
    let mut rng = StdRng::seed_from_u64(7);
    let mut seen = Vec::new();
    for _ in 0..200 {
        let slice = ParentSlice::from_random(&parent, &mut rng, &distance_service).unwrap();
        let ids: Vec<u32> = slice.slice.iter().map(|gene| gene.id).collect();
        assert!(!ids.is_empty() && ids.len() <= 3);
        assert!(ids[0] >= 1 && *ids.last().unwrap() <= 3);
        assert!(ids.windows(2).all(|pair| pair[1] == pair[0] + 1));
        assert_eq!(slice.cost, 10 * (ids.len() as u128 - 1));
        assert_eq!(slice.gene_set.len(), ids.len());
        if !seen.contains(&ids) {
            seen.push(ids);
        }
    }
    assert_eq!(seen.len(), 6);
}

#[test]
fn random_slice_needs_a_chromosome_of_four_genes() {
    let parent = individual(&[&[0, 1, 2], &[5, 6]], 100);
    let mut rng = StdRng::seed_from_u64(1);

    assert!(ParentSlice::from_random(&parent, &mut rng, &distance_service()).is_none());
    assert!(parent.choose_random_chromosome(&mut rng, 4).is_none());
    assert_eq!(parent.choose_random_chromosome(&mut rng, 3).unwrap().0, 0);
}

#[test]
fn random_chromosome_is_one_of_those_long_enough() {
    let parent = individual(&[&[0], &[1, 2], &[3, 4], &[5]], 100);
    let mut rng = StdRng::seed_from_u64(3);
    let mut seen = Vec::new();
    for _ in 0..100 {
        let (index, chromosome) = parent.choose_random_chromosome(&mut rng, 2).unwrap();
        assert!(index == 1 || index == 2);
        assert_eq!(chromosome.stops[0].id, parent.chromosomes[index].stops[0].id);
        if !seen.contains(&index) {
            seen.push(index);
        }
    }
    assert_eq!(seen.len(), 2);
}

#[test]
fn test_can_drop_gene_duplicates() {
    let parent = round_trip();
    let slice = slice_of(&[1, 2]);

    let chromosome_without_duplicates =
        Individual::drop_gene_duplicates(&parent.chromosomes[0], &slice.gene_set);

    assert_eq!(chromosome_without_duplicates.len(), 3);
    for gene in &chromosome_without_duplicates {
        assert!(!slice.gene_set.contains(&gene.id));
    }
    let ids: Vec<u32> = chromosome_without_duplicates.iter().map(|gene| gene.id).collect();
    assert_eq!(ids, vec![0, 3, 0]);
}

#[test]
fn test_can_generate_offspring_chromosome() {
    let slice = slice_of(&[1, 2]);
    let parent2 = round_trip();

    let chromosome = slice.merge_into(parent2.chromosomes[0].clone(), &distance_service()).unwrap();

    assert_eq!(chromosome.stops.len(), 3);
    let ids: Vec<u32> = chromosome.stops.iter().map(|gene| gene.id).collect();
    assert_eq!(ids, vec![0, 3, 0]);
    assert_eq!(chromosome.total_distance(), 60);
    assert_eq!(chromosome.vehicle.get_usage(), 30);
    assert_eq!(chromosome.vehicle.get_id(), 0);
    assert_eq!(chromosome.vehicle.get_capacity(), 100);
}

#[test]
fn test_can_generate_offspring_chromosome_dropping_a_whole_chromosome() {
    let slice = slice_of(&[1, 2, 3]);
    let parent2 = round_trip();

    let chromosome = slice.merge_into(parent2.chromosomes[0].clone(), &distance_service()).unwrap();

    assert_eq!(chromosome.stops.len(), 1);
    assert_eq!(chromosome.stops[0].id, 0);
    assert_eq!(chromosome.total_distance(), 0);
    assert_eq!(chromosome.vehicle.get_usage(), 10);
}

#[test]
fn merge_takes_the_genes_of_the_slice_out_of_an_open_chromosome() {
    let slice = slice_of(&[1, 2]);
    let parent2 = second_parent();

    let chromosome = slice.merge_into(parent2.chromosomes[0].clone(), &distance_service()).unwrap();

    let ids: Vec<u32> = chromosome.stops.iter().map(|gene| gene.id).collect();
    assert_eq!(ids, vec![0, 4, 6]);
    assert_eq!(chromosome.total_distance(), 60);
    assert_eq!(chromosome.vehicle.get_usage(), 30);
}

#[test]
fn merge_leaves_the_first_gene_alone_where_the_slice_holds_the_rest() {
    let slice = slice_of(&[4, 6, 2]);
    let parent2 = second_parent();

    let chromosome = slice.merge_into(parent2.chromosomes[0].clone(), &distance_service()).unwrap();

    assert_eq!(chromosome.stops.len(), 1);
    assert_eq!(chromosome.stops[0].id, 0);
    assert_eq!(chromosome.total_distance(), 0);
    assert_eq!(chromosome.vehicle.get_usage(), 10);
}

#[test]
fn merge_of_a_round_trip_keeps_a_gene_between_its_ends() {
    let slice = slice_of(&[1, 3]);
    let parent2 = round_trip();

    let chromosome = slice.merge_into(parent2.chromosomes[0].clone(), &distance_service()).unwrap();

    let ids: Vec<u32> = chromosome.stops.iter().map(|gene| gene.id).collect();
    assert_eq!(ids, vec![0, 2, 0]);
    assert_eq!(chromosome.total_distance(), 40);
}

#[test]
fn merge_keeps_the_first_gene_even_if_the_slice_holds_it() {
    let slice = slice_of(&[0, 6]);
    let parent2 = second_parent();

    let chromosome = slice.merge_into(parent2.chromosomes[0].clone(), &distance_service()).unwrap();

    let ids: Vec<u32> = chromosome.stops.iter().map(|gene| gene.id).collect();
    assert_eq!(ids, vec![0, 4, 2]);
    assert_eq!(chromosome.total_distance(), 60);
}

#[test]
fn merge_of_an_empty_chromosome_is_empty() {
    let slice = slice_of(&[1, 2]);

    let chromosome = slice.merge_into(Route::new(Vehicle::new(4, 9)), &distance_service()).unwrap();

    assert!(chromosome.stops.is_empty());
    assert_eq!(chromosome.vehicle.get_id(), 4);
}

#[test]
fn merge_is_absent_without_a_distance() {
    let mut matrix = DistanceMatrix::new();
    matrix.insert(0, 4, 40);
    matrix.insert(4, 6, 20);
    matrix.insert(6, 2, 40);
    matrix.insert(1, 2, 10);
    let distance_service = DistanceService::new(matrix);
    let parent2 = second_parent();
    let slice = ParentSlice::new(vec![stop(1), stop(2)], &distance_service).unwrap();
    let other = ParentSlice::new(vec![stop(6)], &distance_service).unwrap();

    assert!(slice.merge_into(parent2.chromosomes[0].clone(), &distance_service).is_some());
    assert!(other.merge_into(parent2.chromosomes[0].clone(), &distance_service).is_none());
}

#[test]
fn offspring_holds_every_gene_once() {
    let offspring =
        Individual::crossover_at(&first_parent(), &second_parent(), 0, 1, 3, &distance_service())
            .unwrap();

    assert_eq!(genes_of(&offspring), vec![vec![0, 4, 6, 1, 2], vec![5, 3]]);
    assert_eq!(offspring.chromosomes[0].total_distance(), 120);
    assert_eq!(offspring.chromosomes[1].total_distance(), 20);
    assert_eq!(offspring.fitness, 140);
    assert_eq!(offspring.chromosomes[0].vehicle.get_usage(), 50);
    assert_eq!(offspring.chromosomes[1].vehicle.get_usage(), 20);
}

#[test]
fn offspring_of_the_second_chromosome_takes_the_slice_there() {
    let first = individual(&[&[0, 1], &[5, 2, 3, 4, 6]], 100);

    let offspring =
        Individual::crossover_at(&first, &second_parent(), 1, 2, 4, &distance_service()).unwrap();

    assert_eq!(genes_of(&offspring), vec![vec![0, 6, 2], vec![5, 1, 3, 4]]);
    assert_eq!(offspring.fitness, 60 + 40 + 40 + 20 + 10);
}

#[test]
fn offspring_is_absent_if_the_vehicle_cannot_carry_the_slice() {
    let first = individual(&[&[0, 1, 2, 3, 4], &[5, 6]], 50);
    let second = individual(&[&[0, 4, 1, 2], &[5, 6, 3]], 50);
    let distance_service = distance_service();

    assert!(Individual::crossover_at(&first, &second, 0, 1, 4, &distance_service).is_some());

    let small = individual(&[&[0, 4, 6, 2], &[5, 1, 3]], 40);
    assert!(Individual::crossover_at(&first, &small, 0, 1, 3, &distance_service).is_none());
}

#[test]
fn offspring_is_absent_without_a_distance() {
    let mut matrix = line_distances();
    let distance_service = DistanceService::new(matrix.clone());
    let first = first_parent();
    let second = second_parent();
    assert!(Individual::crossover_at(&first, &second, 0, 1, 3, &distance_service).is_some());

    matrix = DistanceMatrix::new();
    for (from, to) in [(0, 4), (4, 6), (6, 2), (5, 1), (1, 3), (1, 2), (5, 3)] {
        matrix.insert(from, to, 1);
    }
    assert!(
        Individual::crossover_at(&first, &second, 0, 1, 3, &DistanceService::new(matrix)).is_none()
    );
}

#[test]
fn random_crossover_keeps_the_genes_of_the_parents() {
    let first = first_parent();
    let second = second_parent();
    let distance_service = distance_service();
    let mut rng = StdRng::seed_from_u64(11);
    for _ in 0..100 {
        let offspring = Individual::crossover(&first, &second, &mut rng, &distance_service).unwrap();
        let mut genes: Vec<u32> = genes_of(&offspring).concat();
        genes.sort();
        assert_eq!(genes, vec![0, 1, 2, 3, 4, 5, 6]);
        assert_eq!(offspring.chromosomes[0].stops[0].id, 0);
        assert_eq!(offspring.chromosomes[1].stops[0].id, 5);
        let mut fitness = 0;
        for chromosome in &offspring.chromosomes {
            assert_eq!(
                distance_service.get_path_length(&chromosome.stops),
                Some(chromosome.total_distance())
            );
            fitness += chromosome.total_distance();
        }
        assert_eq!(offspring.fitness, fitness);
    }
}

#[test]
fn random_crossover_needs_a_long_chromosome() {
    let first = individual(&[&[0, 1, 2], &[5, 6, 3, 4]], 100);
    let second = individual(&[&[0, 1, 2, 3, 4, 5, 6]], 100);
    let mut rng = StdRng::seed_from_u64(5);

    assert!(Individual::crossover(&second, &first, &mut rng, &distance_service()).is_some());
    assert!(Individual::crossover(&first, &second, &mut rng, &distance_service()).is_none());
    assert!(Individual::crossover(&individual(&[&[0, 1, 2]], 100), &second, &mut rng, &distance_service())
        .is_none());
}

#[test]
fn retries_give_up_after_the_given_number_of_tries() {
    let first = first_parent();
    let second = second_parent();
    let distance_service = distance_service();
    let mut rng = StdRng::seed_from_u64(2);

    assert!(Individual::crossover_with_retries(&first, &second, 0, &mut rng, &distance_service)
        .is_none());
    assert!(Individual::crossover_with_retries(&first, &second, 1, &mut rng, &distance_service)
        .is_some());

    let short = individual(&[&[0, 1, 2], &[5, 6]], 100);
    assert!(Individual::crossover_with_retries(&short, &second, 9, &mut rng, &distance_service)
        .is_none());
}

#[test]
fn chromosomes_built_by_appending_are_well_formed() {
    let parent = first_parent();
    assert!(parent.chromosomes.iter().all(|chromosome| chromosome.is_well_formed()));

    let mut broken = parent.chromosomes[1].clone();
    broken.stops.push(stop(3));
    assert!(!broken.is_well_formed());

    let mut far = Route::new(Vehicle::new(0, 100));
    far.add_stop(stop(0), u64::MAX).unwrap();
    far.add_stop(stop(1), u64::MAX).unwrap();
    assert!(far.is_well_formed());
    far.stops.pop();
    assert!(!far.is_well_formed());
}

#[test]
fn test_can_drop_all_genes_from_duplicates() {
    let parent = round_trip();
    let slice = slice_of(&[1, 2, 3]);

    let chromosome_without_duplicates =
        Individual::drop_gene_duplicates(&parent.chromosomes[0], &slice.gene_set);

    assert_eq!(chromosome_without_duplicates.len(), 2);
    assert_eq!(chromosome_without_duplicates[0].id, 0);
    assert_eq!(chromosome_without_duplicates[1].id, 0);
}

#[test]
fn offspring_repeats_a_first_gene_that_the_slice_holds() {
    let first = individual(&[&[0, 1, 2, 3]], 100);
    let second = individual(&[&[1, 0, 2, 3]], 100);

    let offspring =
        Individual::crossover_at(&first, &second, 0, 1, 2, &distance_service()).unwrap();

    assert_eq!(genes_of(&offspring), vec![vec![1, 0, 2, 3, 1]]);
}

#[test]
fn fitter_is_the_one_of_less_fitness_and_the_first_of_equals() {
    let first = first_parent();
    let second = second_parent();
    assert_eq!(Individual::fitter(&first, &second).fitness, 50);
    assert_eq!(Individual::fitter(&second, &first).fitness, 50);

    let same = individual(&[&[4, 3, 2, 1, 0], &[6, 5]], 100);
    assert_eq!(same.fitness, 50);
    assert_eq!(genes_of(Individual::fitter(&first, &same)), genes_of(&first));
    assert_eq!(genes_of(Individual::fitter(&same, &first)), genes_of(&same));
}

#[test]
fn offspring_is_kept_and_the_fitter_parent_copied_without_one() {
    let first = first_parent();
    let second = second_parent();
    let child = individual(&[&[6], &[5]], 100);

    let kept = Individual::offspring_or_fitter(Some(child), &second, &first);
    assert_eq!(genes_of(&kept), vec![vec![6], vec![5]]);

    let copied = Individual::offspring_or_fitter(None, &second, &first);
    assert_eq!(genes_of(&copied), genes_of(&first));
    assert_eq!(copied.fitness, 50);
    assert_eq!(copied.chromosomes[0].total_distance(), 40);
    assert_eq!(copied.chromosomes[0].vehicle.get_usage(), 50);
}

#[test]
fn breeding_gives_an_offspring_or_a_copy_of_the_fitter_parent() {
    let first = first_parent();
    let second = second_parent();
    let distance_service = distance_service();
    let mut rng = StdRng::seed_from_u64(4);

    let copied = Individual::breed(&first, &second, 0, &mut rng, &distance_service);
    assert_eq!(genes_of(&copied), genes_of(&first));
    assert_eq!(copied.fitness, 50);

    let bred = Individual::breed(&first, &second, 3, &mut rng, &distance_service);
    let mut genes: Vec<u32> = genes_of(&bred).concat();
    genes.sort();
    assert_eq!(genes, vec![0, 1, 2, 3, 4, 5, 6]);
    assert_eq!(bred.chromosomes[0].stops[0].id, 0);
    assert_eq!(bred.chromosomes[0].stops[1].id, 4);

    let short = individual(&[&[0, 1, 2], &[5, 6]], 100);
    let fallen_back = Individual::breed(&short, &second, 9, &mut rng, &distance_service);
    assert_eq!(genes_of(&fallen_back), genes_of(&short));

    let mut broken = second_parent();
    broken.chromosomes[1].stops.push(stop(3));
    assert!(!broken.is_well_formed());
    let refused = Individual::breed(&first, &broken, 9, &mut rng, &distance_service);
    assert_eq!(genes_of(&refused), genes_of(&first));
}

#[test]
fn random_crossover_gives_the_offspring_its_fitness() {
    let first = first_parent();
    let second = second_parent();
    let distance_service = distance_service();
    let mut rng = StdRng::seed_from_u64(8);
    for _ in 0..50 {
        let offspring =
            Individual::crossover_with_retries(&first, &second, 2, &mut rng, &distance_service)
                .unwrap();
        let total: u128 =
            offspring.chromosomes.iter().map(|chromosome| chromosome.total_distance()).sum();
        assert_eq!(offspring.fitness, total);
        assert!(offspring.fitness > 0);
    }
}
