use rand::distributions::{IndependentSample, Range};
use rand::{Isaac64Rng, Rng, SeedableRng, XorShiftRng};
use wfc::boundary::Direction;
use wfc::entry::{make_string, CharacterEntry};
use wfc::field::{Field, StepOutcome};
use wfc::fieldpoint::FieldPoint;
use wfc::selection::{EntropyOrder, FoundFieldPoint};

struct Weighted {
    character: char,
    weight: f32,
    borders: &'static str,
}

fn entries(tiles: &[Weighted]) -> Vec<CharacterEntry> {
    tiles
        .iter()
        .map(|t| CharacterEntry::build(t.character, !(t.weight <= 0.0), t.borders).unwrap())
        .collect()
}

fn weights(tiles: &[Weighted]) -> Vec<f32> {
    tiles.iter().map(|t| t.weight).collect()
}

fn measure_entropy(point: &FieldPoint, weights: &[f32]) -> f32 {
    let mut total_weight = 0.0f32;
    let mut total_component = 0.0f32;
    for index in 0..point.len() {
        if point.is_allowed(index) {
            total_weight += weights[index];
            total_component += weights[index] * weights[index].ln();
        }
    }
    total_weight.ln() - (total_component / total_weight)
}

fn choose_tile<R: Rng>(point: &FieldPoint, weights: &[f32], mut rng: &mut R) -> Option<usize> {
    assert!(point.num_allowed() > 0);
    let normalized_range = Range::new(0.0, 1.0f32);
    let mut total_weight = 0.0;
    let mut draws = vec![false; point.len()];
    for index in 0..point.len() {
        if point.is_allowed(index) {
            let current_weight = weights[index];
            total_weight += current_weight;
            draws[index] = normalized_range.ind_sample(&mut rng) * total_weight < current_weight;
        }
    }
    point.choose_tile(&draws)
}

fn observe<R: Rng>(field: &Field, weights: &[f32], rng: &mut R) -> Option<FoundFieldPoint> {
    let epsilon = 1e-6f32;
    let mut result: Option<(FoundFieldPoint, f32)> = None;
    let mut from = 0;
    while let Some(index) = field.observe(from) {
        let new_entropy = measure_entropy(field.point(index), weights);
        result = Some(match result {
            None => (FoundFieldPoint::new(index), new_entropy),
            Some((best, entropy)) => {
                if new_entropy < entropy - epsilon {
                    (best.possibly_better(index, EntropyOrder::Lower, false), new_entropy)
                } else if new_entropy > entropy + epsilon {
                    (best.possibly_better(index, EntropyOrder::Higher, false), entropy)
                } else {
                    let replace = rng.gen_range(0.0, (best.num_encountered + 1) as f32) < 1.0;
                    (best.possibly_better(index, EntropyOrder::Tied, replace), entropy)
                }
            }
        });
        from = index + 1;
    }
    result.map(|(found, _)| found)
}

fn step<R: Rng>(field: &mut Field, weights: &[f32], rng: &mut R) -> bool {
    let mut possible_best_point = observe(field, weights, rng);
    loop {
        match possible_best_point {
            None => break false,
            Some(found) => {
                let chosen = choose_tile(field.point(found.point_index), weights, rng).unwrap();
                match field.step(found.point_index, chosen) {
                    StepOutcome::Progress => break true,
                    StepOutcome::Retry(next) => possible_best_point = Some(next),
                    StepOutcome::Failed => break false,
                }
            }
        }
    }
}

fn run_field<R: Rng>(mut field: Field, weights: &[f32], rng: &mut R, limit: usize) -> Option<Vec<Vec<usize>>> {
    for _ in 0..limit {
        if let Some(indices) = field.render() {
            return Some(indices);
        }
        if !step(&mut field, weights, rng) {
            return None;
        }
    }
    field.render()
}

fn box_tiles() -> Vec<Weighted> {
    vec![
        Weighted { character: '─', weight: 10.0, borders: "000|101|000" },
        Weighted { character: '│', weight: 10.0, borders: "010|000|010" },
        Weighted { character: '┌', weight: 1.0, borders: "000|001|010" },
        Weighted { character: '┐', weight: 1.0, borders: "000|100|010" },
        Weighted { character: '└', weight: 1.0, borders: "010|001|000" },
        Weighted { character: '┘', weight: 1.0, borders: "010|100|000" },
    ]
}

fn diagonal_tiles() -> Vec<Weighted> {
    vec![
        Weighted { character: ' ', weight: 1.0, borders: "000|000|000" },
        Weighted { character: '╱', weight: 1.0, borders: "001|000|100" },
        Weighted { character: '╲', weight: 1.0, borders: "100|000|001" },
        Weighted { character: '╳', weight: 1.0, borders: "101|000|101" },
    ]
}

const ALL: [Direction; 8] = Direction::ALL_DIRECTIONS;

fn assert_compatible(field: &Field, potentials: &[CharacterEntry], matrix: &[Vec<usize>]) {
    assert_eq!(matrix.len(), field.height());
    for y in 0..field.height() {
        assert_eq!(matrix[y].len(), field.width());
        for x in 0..field.width() {
            for d in ALL {
                if let Some((nx, ny)) = field.build_delta(x, y, d) {
                    let here = &potentials[matrix[y][x]].boundary;
                    let there = &potentials[matrix[ny][nx]].boundary;
                    assert!(here.fits(there, d), "({}, {}) towards {:?}", x, y, d);
                }
            }
        }
    }
}

#[test]
fn diagonals_are_solved_and_fit() {
    let tiles = diagonal_tiles();
    let potentials = entries(&tiles);
    let weights = weights(&tiles);
    let mut rng = XorShiftRng::from_seed([1, 2, 3, 4]);
    let field = Field::new(&potentials, 12, 7).allow_backtracking();
    let solved = run_field(field.clone(), &weights, &mut rng, 200).expect("a solution");
    assert_compatible(&field, &potentials, &solved);
    let text = make_string(&potentials, &solved);
    assert_eq!(text.lines().count(), 7);
    assert!(text.lines().all(|line| line.chars().count() == 12));
}

#[test]
fn closed_diagonals_are_solved_and_fit() {
    let tiles = diagonal_tiles();
    let potentials = entries(&tiles);
    let weights = weights(&tiles);
    let mut field = Field::new(&potentials, 9, 6).allow_backtracking();
    assert!(field.close_edges());
    let mut solved = None;
    for seed in 1..20u32 {
        let mut rng = XorShiftRng::from_seed([seed, 7, 11, 13]);
        if let Some(matrix) = run_field(field.clone(), &weights, &mut rng, 500) {
            solved = Some(matrix);
            break;
        }
    }
    let solved = solved.expect("a solution from one of the seeds");
    assert_compatible(&field, &potentials, &solved);
    // Nothing connects across the edge.
    for x in 0..9 {
        assert!(!potentials[solved[0][x]].boundary.connects(Direction::NorthWest));
        assert!(!potentials[solved[0][x]].boundary.connects(Direction::NorthEast));
        assert!(!potentials[solved[5][x]].boundary.connects(Direction::SouthWest));
        assert!(!potentials[solved[5][x]].boundary.connects(Direction::SouthEast));
    }
}

#[test]
fn the_same_random_numbers_give_the_same_grid() {
    let tiles = diagonal_tiles();
    let potentials = entries(&tiles);
    let weights = weights(&tiles);
    let field = Field::new(&potentials, 8, 8).allow_backtracking();
    let first = run_field(field.clone(), &weights, &mut Isaac64Rng::new_unseeded(), 200);
    let second = run_field(field.clone(), &weights, &mut Isaac64Rng::new_unseeded(), 200);
    assert!(first.is_some());
    assert_eq!(first, second);
}

#[test]
fn boxes_without_backtracking_stop_or_fit() {
    let tiles = box_tiles();
    let potentials = entries(&tiles);
    let weights = weights(&tiles);
    let mut field = Field::new(&potentials, 10, 6);
    assert!(field.close_edges());
    for seed in 1..10u32 {
        let mut rng = XorShiftRng::from_seed([seed, seed, 5, 9]);
        if let Some(matrix) = run_field(field.clone(), &weights, &mut rng, 100) {
            assert_compatible(&field, &potentials, &matrix);
        }
    }
}

#[test]
fn nothing_fits_and_backtracking_finds_out() {
    // Both tiles connect to the south and neither to the north, so no tile
    // may stand above another.
    let tiles = vec![
        Weighted { character: 'a', weight: 1.0, borders: "000|000|010" },
        Weighted { character: 'b', weight: 2.0, borders: "000|100|010" },
    ];
    let potentials = entries(&tiles);
    let weights = weights(&tiles);
    let mut field = Field::new(&potentials, 1, 2).allow_backtracking();
    let mut rng = XorShiftRng::from_seed([3, 1, 4, 1]);
    assert!(!step(&mut field, &weights, &mut rng));
    assert_eq!(field.num_steps(), 0);
    assert_eq!(field.render(), None);
}

#[test]
fn choice_follows_the_weights() {
    let weights = [0.0f32, 1.0, 3.0];
    let mut point = FieldPoint::new(3);
    point.invalidate(0, 0);
    let mut rng = XorShiftRng::from_seed([9, 8, 7, 6]);
    let mut counts = [0usize; 3];
    for _ in 0..4000 {
        counts[choose_tile(&point, &weights, &mut rng).unwrap()] += 1;
    }
    assert_eq!(counts[0], 0);
    assert!(counts[1] > 800 && counts[1] < 1200);
    assert!(counts[2] > 2800 && counts[2] < 3200);
}

#[test]
fn field_point_choose() {
    let weights = [0.1, 0.2, 0.3, 10.1];

    let mut rng = rand::thread_rng();

    let fieldpoint = FieldPoint::new(4);

    for _ in 0..20 {
        let chosen_index = choose_tile(&fieldpoint, &weights, &mut rng).unwrap();
        assert!(chosen_index < 4);
    }
}

#[test]
fn ties_are_broken_evenly() {
    // Three open cells of the same entropy: each should be observed about
    // a third of the time.
    let tiles = diagonal_tiles();
    let potentials = entries(&tiles);
    let weights = weights(&tiles);
    let field = Field::new(&potentials, 3, 1);
    let mut rng = XorShiftRng::from_seed([5, 6, 7, 8]);
    let mut counts = [0usize; 3];
    for _ in 0..3000 {
        counts[observe(&field, &weights, &mut rng).unwrap().point_index] += 1;
    }
    for count in counts {
        assert!(count > 850 && count < 1150, "{:?}", counts);
    }
}
