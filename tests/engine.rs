use rand::rngs::StdRng;
use rand::SeedableRng;
use tsp_ga::ga::{generation_budget, ConfigError, Population, Probability};
use tsp_ga::tsp::{Route, Spec};
use tsp_ga::tsp_data::Matrix;

fn four_city_matrix() -> Matrix {
    let rows = vec![vec![0], vec![1, 0], vec![5, 1, 0], vec![1, 5, 1, 0]];
    Matrix::new_lower_diag_row(&rows, 4).unwrap()
}

fn half() -> Probability {
    Probability { numerator: 1, denominator: 2 }
}

fn tenth() -> Probability {
    Probability { numerator: 1, denominator: 10 }
}

fn first_generation<'a>(spec: &'a Spec<'a, Matrix>, num: usize, rng: &mut StdRng) -> Vec<Route<'a, Matrix>> {
    (0..num).map(|_| Route::random(spec, rng)).collect()
}

#[test]
fn new_splits_children_and_survivors() {
    let m = four_city_matrix();
    let spec = Spec { tsp: &m, num_crossover_points: 1, num_mutation_points: 2 };
    let mut rng = StdRng::seed_from_u64(1);
    let p = Population::new(first_generation(&spec, 20, &mut rng), 20, half(), tenth()).unwrap();
    assert_eq!(p.num(), 20);
    assert_eq!(p.num_children(), 10);
    assert_eq!(p.num_survivors(), 10);
    let p = Population::new(first_generation(&spec, 7, &mut rng), 7, half(), tenth()).unwrap();
    assert_eq!(p.num_children(), 2);
    assert_eq!(p.num_survivors(), 5);
}

#[test]
fn new_orders_by_fitness() {
    let m = four_city_matrix();
    let spec = Spec { tsp: &m, num_crossover_points: 1, num_mutation_points: 2 };
    let mut rng = StdRng::seed_from_u64(2);
    let p = Population::new(first_generation(&spec, 12, &mut rng), 12, half(), tenth()).unwrap();
    let lengths: Vec<u128> = p.individuals().iter().map(|r| r.length()).collect();
    for w in lengths.windows(2) {
        assert!(w[0] >= w[1]);
    }
    assert_eq!(p.get_best().length(), *lengths.iter().min().unwrap());
    assert_eq!(p.get_worst().length(), *lengths.iter().max().unwrap());
}

#[test]
fn new_rejects_bad_configuration() {
    let m = four_city_matrix();
    let spec = Spec { tsp: &m, num_crossover_points: 1, num_mutation_points: 2 };
    let mut rng = StdRng::seed_from_u64(3);
    let r = Population::new(first_generation(&spec, 5, &mut rng), 6, half(), tenth());
    assert!(matches!(r, Err(ConfigError::PopulationSize)));
    let r = Population::<Route<Matrix>>::new(Vec::new(), 0, half(), tenth());
    assert!(matches!(r, Err(ConfigError::PopulationSize)));
    let bad = Probability { numerator: 3, denominator: 2 };
    let r = Population::new(first_generation(&spec, 5, &mut rng), 5, bad, tenth());
    assert!(matches!(r, Err(ConfigError::Probability)));
    let zero = Probability { numerator: 0, denominator: 0 };
    let r = Population::new(first_generation(&spec, 5, &mut rng), 5, half(), zero);
    assert!(matches!(r, Err(ConfigError::Probability)));
}

#[test]
fn evolve_keeps_population_size() {
    let m = four_city_matrix();
    let spec = Spec { tsp: &m, num_crossover_points: 2, num_mutation_points: 2 };
    let mut rng = StdRng::seed_from_u64(4);
    let mut p = Population::new(first_generation(&spec, 9, &mut rng), 9, half(), tenth()).unwrap();
    for _ in 0..30 {
        p.evolve(&mut rng);
        assert_eq!(p.individuals().len(), 9);
        assert_eq!(p.num_children() + p.num_survivors(), 9);
    }
}

#[test]
fn four_cities_reach_the_optimum() {
    let m = four_city_matrix();
    let spec = Spec { tsp: &m, num_crossover_points: 1, num_mutation_points: 2 };
    let mut rng = StdRng::seed_from_u64(5);
    let mut p = Population::new(first_generation(&spec, 20, &mut rng), 20, half(), tenth()).unwrap();
    let optimum = 4u128;
    let target = 1.0 / optimum as f64;
    let mut reached = None;
    for generation in 1..=500 {
        p.evolve(&mut rng);
        let best = 1.0 / p.get_best().length() as f64;
        if best >= target - 1e-12 {
            reached = Some(generation);
            break;
        }
    }
    assert!(reached.is_some());
}

#[test]
fn three_collinear_points_give_length_four() {
    let coords = [(0.0f64, 0.0f64), (1.0, 0.0), (2.0, 0.0)];
    let mut rows = Vec::new();
    for i in 0..3 {
        let mut row = Vec::new();
        for j in 0..=i {
            let (dx, dy) = (coords[i].0 - coords[j].0, coords[i].1 - coords[j].1);
            row.push((dx * dx + dy * dy).sqrt().round() as u64);
        }
        rows.push(row);
    }
    let m = Matrix::new_lower_diag_row(&rows, 3).unwrap();
    let spec = Spec { tsp: &m, num_crossover_points: 1, num_mutation_points: 1 };
    let mut rng = StdRng::seed_from_u64(6);
    let mut p = Population::new(first_generation(&spec, 10, &mut rng), 10, half(), tenth()).unwrap();
    for _ in 0..20 {
        p.evolve(&mut rng);
    }
    assert_eq!(p.get_best().length(), 4);
    assert!((1.0 / p.get_best().length() as f64 - 0.25).abs() < 1e-12);
}

#[test]
fn run_until_reports_the_generation() {
    let m = four_city_matrix();
    let spec = Spec { tsp: &m, num_crossover_points: 1, num_mutation_points: 2 };
    let mut rng = StdRng::seed_from_u64(8);
    let mut p = Population::new(first_generation(&spec, 20, &mut rng), 20, half(), tenth()).unwrap();
    let r = p.run_until(4, 500, &mut rng);
    let g = r.unwrap();
    assert!(g >= 1 && g <= 500);
    assert_eq!(p.get_best().length(), 4);
}

#[test]
fn run_until_reports_exhaustion() {
    let m = four_city_matrix();
    let spec = Spec { tsp: &m, num_crossover_points: 1, num_mutation_points: 2 };
    let mut rng = StdRng::seed_from_u64(9);
    let mut p = Population::new(first_generation(&spec, 6, &mut rng), 6, half(), tenth()).unwrap();
    assert_eq!(p.run_until(3, 5, &mut rng), Err(p.get_best().length()));
    assert!(p.get_best().length() >= 4);
    assert_eq!(p.run_until(100, 0, &mut rng), Err(p.get_best().length()));
}

#[test]
fn history_keeps_the_last_generations() {
    let m = four_city_matrix();
    let spec = Spec { tsp: &m, num_crossover_points: 1, num_mutation_points: 2 };
    let mut rng = StdRng::seed_from_u64(10);
    let mut p = Population::new(first_generation(&spec, 8, &mut rng), 8, half(), tenth()).unwrap();
    assert!(p.history().is_empty());
    p.evolve(&mut rng);
    assert_eq!(p.history().len(), 1);
    assert_eq!(p.history()[0], (p.get_best().length(), p.get_worst().length()));
    p.run(40, &mut rng);
    assert_eq!(p.history().len(), tsp_ga::ga::HISTORY_CAPACITY);
    let last = *p.history().last().unwrap();
    assert_eq!(last, (p.get_best().length(), p.get_worst().length()));
}

#[test]
fn spec_new_checks_operator_parameters() {
    let m = four_city_matrix();
    let s = Spec::new(&m, 3, 1).unwrap();
    assert_eq!(s.num_crossover_points, 3);
    assert_eq!(s.num_mutation_points, 1);
    assert!(matches!(Spec::new(&m, 1, 2), Err(ConfigError::MutationPoints)));
    assert!(matches!(Spec::new(&m, 1, 3), Err(ConfigError::MutationPoints)));
    assert!(matches!(Spec::new(&m, 0, 1), Err(ConfigError::CrossoverPoints)));
    assert!(matches!(Spec::new(&m, 4, 1), Err(ConfigError::CrossoverPoints)));
    assert!(matches!(Spec::new(&m, 1, 0), Err(ConfigError::MutationPoints)));
    assert!(matches!(Spec::new(&m, 1, 4), Err(ConfigError::MutationPoints)));
    let one = Matrix::new_lower_diag_row(&vec![vec![0]], 1).unwrap();
    assert!(matches!(Spec::new(&one, 1, 1), Err(ConfigError::Cities)));
}

#[test]
fn generation_budget_must_be_positive() {
    assert!(matches!(generation_budget(0), Err(ConfigError::Generations)));
    assert_eq!(generation_budget(500), Ok(500));
}

#[test]
fn zero_crossover_resamples_copies() {
    let m = four_city_matrix();
    let spec = Spec { tsp: &m, num_crossover_points: 1, num_mutation_points: 2 };
    let mut rng = StdRng::seed_from_u64(12);
    let none = Probability { numerator: 0, denominator: 1 };
    let mut p = Population::new(first_generation(&spec, 10, &mut rng), 10, none, tenth()).unwrap();
    assert_eq!(p.num_children(), 0);
    let before: Vec<Vec<usize>> = p.individuals().iter().map(|r| r.route().clone()).collect();
    p.evolve(&mut rng);
    for r in p.individuals() {
        assert!(before.contains(r.route()));
    }
}

#[test]
fn large_population_is_accepted() {
    let m = four_city_matrix();
    let spec = Spec { tsp: &m, num_crossover_points: 1, num_mutation_points: 1 };
    let mut rng = StdRng::seed_from_u64(13);
    let mut p = Population::new(first_generation(&spec, 3000, &mut rng), 3000, half(), tenth()).unwrap();
    p.evolve(&mut rng);
    assert_eq!(p.individuals().len(), 3000);
}
