use nesting::genetic_algorithm::Population;
use nesting::geometry::Point;
use nesting::job::Sheet;
use nesting::nest_polygon::NestPolygon;
use nesting::nesting_runner::NestPart;

fn triangle() -> Vec<Point> {
    vec![
        Point { x: 70, y: 10 },
        Point { x: 80, y: 20 },
        Point { x: 90, y: 40 },
    ]
}

fn sheet() -> Sheet {
    Sheet { length: 1000, width: 1000, cost: 1 }
}

fn triangle_part(quantity: u32, rotations: Vec<i32>) -> NestPart {
    NestPart {
        quantity,
        polygon: NestPolygon::new(triangle()).unwrap(),
        rotations,
    }
}

#[test]
fn mutates() {
    let parts = vec![triangle_part(4, vec![0, 90, 180, 270])];
    let population = Population::new(parts, sheet(), 2);
    let x = &population.individuals[0];
    let _y = &population.individuals[0];
    let _m = population.mutate(x);
}

#[test]
fn initialization_sizing() {
    let parts = vec![triangle_part(4, vec![0, 90, 180, 270])];
    let population = Population::new(parts, sheet(), 2);
    assert_eq!(population.individuals.len(), 2);
    for ind in &population.individuals {
        assert_eq!(ind.placements.len(), 4);
        let mut seen = [0usize; 4];
        for p in &ind.placements {
            assert_eq!(p.part_index, 0);
            assert!(p.nth_part < 4);
            seen[p.nth_part as usize] += 1;
        }
        assert_eq!(seen, [1, 1, 1, 1]);
    }
}

#[test]
fn crossover_keeps_permutation_and_length() {
    let parts = vec![triangle_part(6, vec![0, 90])];
    let population = Population::new(parts, sheet(), 4);
    let male = &population.individuals[0];
    let female = &population.individuals[1];
    let (c1, c2) = population.mate(male, female);
    for child in [&c1, &c2] {
        assert_eq!(child.placements.len(), 6);
        let mut seen = [0usize; 6];
        for p in &child.placements {
            seen[p.nth_part as usize] += 1;
        }
        assert_eq!(seen, [1, 1, 1, 1, 1, 1]);
    }
}

#[test]
fn mutation_keeps_permutation_and_length() {
    let parts = vec![triangle_part(5, vec![0, 90, 180])];
    let population = Population::new(parts, sheet(), 2);
    for _ in 0..20 {
        let m = population.mutate(&population.individuals[0]);
        assert_eq!(m.placements.len(), 5);
        let mut seen = [0usize; 5];
        for p in &m.placements {
            seen[p.nth_part as usize] += 1;
            assert!([0, 90, 180].contains(&p.angle));
        }
        assert_eq!(seen, [1, 1, 1, 1, 1]);
    }
}

#[test]
fn weighted_selection_distribution_shape() {
    // Deterministic histogram over an even grid of draws. The closed-form
    // selection maps the draw monotonically onto [0, n): the lowest draws
    // land at index 0, the highest close to n, and the mean sits near n/3
    // (the exact shape of the reference formula).
    let n = 1000usize;
    let mut sum: u64 = 0;
    let mut count: u64 = 0;
    let mut draw: u64 = 0;
    let mut prev: usize = 0;
    while draw < 0x1_0000_0000 {
        let ix = nesting::genetic_algorithm::weighted_index(n, draw);
        assert!(ix < n);
        assert!(ix >= prev, "selection must be monotone in the draw");
        prev = ix;
        sum += ix as u64;
        count += 1;
        draw += 0x10_0000;
    }
    assert_eq!(nesting::genetic_algorithm::weighted_index(n, 0), 0);
    assert!(nesting::genetic_algorithm::weighted_index(n, 0xffff_ffff) > 900);
    let mean = sum as f64 / count as f64;
    assert!(mean > (n as f64) / 4.0 && mean < (n as f64) / 2.0, "mean {mean} off the formula's shape");
}

#[test]
fn select_index_stays_in_range() {
    for _ in 0..200 {
        let ix = nesting::genetic_algorithm::select_index(3);
        assert!(ix < 3);
    }
    assert_eq!(nesting::genetic_algorithm::select_index(1), 0);
}

#[test]
fn convergence_terminates_on_seventh_stagnant_call() {
    // One part, one rotation, identical chromosomes: the fitness can never
    // improve after the first generation.
    let parts = vec![triangle_part(1, vec![0])];
    let mut population = Population::new(parts, sheet(), 2);
    for call in 1..=6 {
        let r = population.next().unwrap();
        assert!(r.is_some(), "call {call} should still report");
    }
    let seventh = population.next().unwrap();
    assert!(seventh.is_none(), "seventh call must signal exhaustion");
    let eighth = population.next().unwrap();
    assert!(eighth.is_none(), "the engine stays exhausted");
}

#[test]
fn generation_report_covers_every_gene() {
    let parts = vec![triangle_part(3, vec![0, 90])];
    let mut population = Population::new(parts, sheet(), 2);
    let report = population.next().unwrap().expect("first generation reports");
    assert_eq!(report.placements_and_location.len(), 3);
    assert!(report.sheet_count >= 1);
}
