use rand::rngs::StdRng;
use rand::SeedableRng;
use tsp_ga::tour::{order_crossover_child, window_mask, write_at};
use tsp_ga::tsp::{total_weight, Route, Spec};
use tsp_ga::tsp_data::{Matrix, MatrixError, Tsp};

fn lower(rows: &[&[u64]]) -> Vec<Vec<u64>> {
    rows.iter().map(|r| r.to_vec()).collect()
}

fn six_city_matrix() -> Matrix {
    let rows = lower(&[
        &[0],
        &[3, 0],
        &[4, 5, 0],
        &[2, 6, 7, 0],
        &[9, 1, 8, 4, 0],
        &[5, 2, 3, 6, 2, 0],
    ]);
    Matrix::new_lower_diag_row(&rows, 6).unwrap()
}

fn is_tour(r: &[usize], n: usize) -> bool {
    if r.len() != n + 1 || r[0] != 0 || r[n] != 0 {
        return false;
    }
    let mut seen = vec![false; n];
    for &c in &r[1..n] {
        if c == 0 || c >= n || seen[c] {
            return false;
        }
        seen[c] = true;
    }
    true
}

#[test]
fn matrix_is_symmetric_and_matches_input() {
    let rows = lower(&[&[0], &[3, 0], &[4, 5, 0]]);
    let m = Matrix::new_lower_diag_row(&rows, 3).unwrap();
    assert_eq!(m.dim(), 3);
    for a in 0..3 {
        for b in 0..3 {
            assert_eq!(m.weight(a, b), m.weight(b, a));
            if a <= b {
                assert_eq!(m.weight(a, b), rows[b][a]);
            }
        }
    }
    assert_eq!(m.weight(0, 2), 4);
    assert_eq!(m.weight(2, 1), 5);
    assert_eq!(m.weight(1, 1), 0);
}

#[test]
fn matrix_rejects_wrong_row_count() {
    let rows = lower(&[&[0], &[3, 0]]);
    assert!(matches!(Matrix::new_lower_diag_row(&rows, 3), Err(MatrixError::RowCount)));
}

#[test]
fn matrix_rejects_short_row() {
    let rows = lower(&[&[0], &[3], &[4, 5, 0]]);
    assert!(matches!(Matrix::new_lower_diag_row(&rows, 3), Err(MatrixError::ShortRow(1))));
}

#[test]
fn total_weight_sums_the_closed_tour() {
    let m = six_city_matrix();
    let r = vec![0, 1, 2, 3, 4, 5, 0];
    assert_eq!(total_weight(&r, &m), 3 + 5 + 7 + 4 + 2 + 5);
}

#[test]
fn fitness_is_reciprocal_of_length() {
    let m = six_city_matrix();
    let spec = Spec { tsp: &m, num_crossover_points: 2, num_mutation_points: 3 };
    let r = Route::new(&spec, vec![0, 1, 2, 3, 4, 5, 0]);
    assert_eq!(r.length(), 26);
    let fitness = 1.0 / r.length() as f64;
    let expected = 1.0 / total_weight(r.route(), &m) as f64;
    assert!((fitness - expected).abs() < 1e-12);
}

#[test]
fn update_fitness_twice_gives_same_value() {
    let m = six_city_matrix();
    let spec = Spec { tsp: &m, num_crossover_points: 2, num_mutation_points: 3 };
    let mut r = Route::new(&spec, vec![0, 5, 4, 3, 2, 1, 0]);
    r.update_fitness();
    let first = r.length();
    r.update_fitness();
    assert_eq!(first, r.length());
    assert_eq!(first, 26);
}

#[test]
fn window_mask_alternates() {
    let points = vec![1, 3, 6];
    assert_eq!(window_mask(&points, 0, 6), vec![true, true, true, false, false, false, true]);
    assert_eq!(window_mask(&points, 1, 6), vec![true, false, false, true, true, true, true]);
}

#[test]
fn order_child_skips_kept_cities() {
    let p1 = vec![0, 1, 2, 3, 4, 5, 0];
    let p2 = vec![0, 5, 4, 3, 2, 1, 0];
    let keep = vec![true, true, true, false, false, false, true];
    assert_eq!(order_crossover_child(&p1, &p2, &keep, 6), vec![0, 1, 2, 5, 4, 3, 0]);
    let keep = vec![true, false, true, false, true, false, true];
    assert_eq!(order_crossover_child(&p1, &p2, &keep, 6), vec![0, 5, 2, 3, 4, 1, 0]);
}

#[test]
fn crossover_at_fixed_points() {
    let m = six_city_matrix();
    let spec = Spec { tsp: &m, num_crossover_points: 1, num_mutation_points: 2 };
    let p1 = Route::new(&spec, vec![0, 1, 2, 3, 4, 5, 0]);
    let p2 = Route::new(&spec, vec![0, 5, 4, 3, 2, 1, 0]);
    let (c1, c2) = Route::crossover_at(&p1, &p2, &vec![1, 3, 6]);
    assert_eq!(c1.route(), &vec![0, 1, 2, 5, 4, 3, 0]);
    assert_eq!(c2.route(), &vec![0, 4, 5, 3, 2, 1, 0]);
    assert_eq!(c1.length(), total_weight(c1.route(), &m));
    assert_eq!(c2.length(), total_weight(c2.route(), &m));
}

#[test]
fn mutate_at_writes_positions() {
    let m = six_city_matrix();
    let spec = Spec { tsp: &m, num_crossover_points: 1, num_mutation_points: 2 };
    let mut r = Route::new(&spec, vec![0, 1, 2, 3, 4, 5, 0]);
    r.mutate_at(&vec![2, 5], &vec![5, 2]);
    assert_eq!(r.route(), &vec![0, 1, 5, 3, 4, 2, 0]);
    assert_eq!(r.length(), 26);
    r.update_fitness();
    assert_eq!(r.length(), total_weight(&vec![0, 1, 5, 3, 4, 2, 0], &m));
}

#[test]
fn write_at_leaves_other_positions() {
    let mut v = vec![0, 1, 2, 3, 0];
    write_at(&mut v, &vec![3, 1], &vec![1, 3]);
    assert_eq!(v, vec![0, 3, 2, 1, 0]);
}

#[test]
fn random_crossover_keeps_permutation() {
    let m = six_city_matrix();
    let mut rng = StdRng::seed_from_u64(7);
    for points in 1..5 {
        let spec = Spec { tsp: &m, num_crossover_points: points, num_mutation_points: 2 };
        for _ in 0..50 {
            let p1 = Route::random(&spec, &mut rng);
            let p2 = Route::random(&spec, &mut rng);
            assert!(is_tour(p1.route(), 6));
            let (c1, c2) = Route::crossover(&p1, &p2, &mut rng);
            assert!(is_tour(c1.route(), 6));
            assert!(is_tour(c2.route(), 6));
        }
    }
}

#[test]
fn random_mutation_keeps_permutation_and_depot() {
    let m = six_city_matrix();
    let mut rng = StdRng::seed_from_u64(11);
    for points in 1..6 {
        let spec = Spec { tsp: &m, num_crossover_points: 1, num_mutation_points: points };
        for _ in 0..50 {
            let mut r = Route::random(&spec, &mut rng);
            let before = r.route().clone();
            r.mutate(&mut rng);
            assert!(is_tour(r.route(), 6));
            let mut a = before[1..6].to_vec();
            let mut b = r.route()[1..6].to_vec();
            a.sort();
            b.sort();
            assert_eq!(a, b);
        }
    }
}

#[test]
fn seeded_operators_are_reproducible() {
    let m = six_city_matrix();
    let spec = Spec { tsp: &m, num_crossover_points: 2, num_mutation_points: 3 };
    let run = |seed: u64| {
        let mut rng = StdRng::seed_from_u64(seed);
        let p1 = Route::random(&spec, &mut rng);
        let p2 = Route::random(&spec, &mut rng);
        let (mut c1, c2) = Route::crossover(&p1, &p2, &mut rng);
        c1.mutate(&mut rng);
        (c1.route().clone(), c2.route().clone())
    };
    assert_eq!(run(42), run(42));
    assert_eq!(run(5), run(5));
}

#[test]
fn matrix_rejects_nonzero_diagonal() {
    let rows = lower(&[&[0], &[3, 2], &[4, 5, 0]]);
    assert!(matches!(Matrix::new_lower_diag_row(&rows, 3), Err(MatrixError::NonZeroDiagonal(1))));
}

#[test]
fn total_weight_of_empty_route_is_zero() {
    let m = six_city_matrix();
    assert_eq!(total_weight(&Vec::new(), &m), 0);
    assert_eq!(total_weight(&vec![0], &m), 0);
}

#[test]
fn reversed_tour_has_the_same_length() {
    let m = six_city_matrix();
    assert_eq!(total_weight(&vec![0, 2, 4, 1, 5, 3, 0], &m), total_weight(&vec![0, 3, 5, 1, 4, 2, 0], &m));
}
