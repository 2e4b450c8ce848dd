use wfc::boundary::Direction;
use wfc::changequeue::ChangeQueue;
use wfc::entry::{make_string, CharacterEntry};
use wfc::field::{
    apply_failed_edge, generate_coord, generate_index, test_direction, Field, StepOutcome,
};
use wfc::fieldpoint::FieldPoint;
use wfc::selection::FoundFieldPoint;

/// A tile with a weight: cells may take it if the weight is above zero.
fn entry(character: char, weight: f32, borders: &str) -> CharacterEntry {
    CharacterEntry::build(character, !(weight <= 0.0), borders).unwrap()
}

fn line_tiles() -> [CharacterEntry; 3] {
    [
        entry('-', 1.0, "000|101|000"),
        entry('|', 1.0, "010|000|010"),
        entry(' ', 1.0, "000|000|000"),
    ]
}

fn corner_tiles() -> [CharacterEntry; 4] {
    [
        entry('┌', 1.0, "000|001|010"),
        entry('┐', 1.0, "000|100|010"),
        entry('└', 1.0, "010|001|000"),
        entry('┘', 1.0, "010|100|000"),
    ]
}

/// A tile that connects to the south, and a blank: the first may not stand
/// above anything.
fn dead_end_tiles() -> [CharacterEntry; 2] {
    [entry('a', 1.0, "000|000|010"), entry(' ', 1.0, "000|000|000")]
}

fn allowed(field: &Field, x: usize, y: usize) -> Vec<bool> {
    let point = field.point(generate_index(x, y, field.width()));
    (0..point.len()).map(|i| point.is_allowed(i)).collect()
}

fn all_allowed(field: &Field) -> Vec<Vec<bool>> {
    let mut cells = Vec::new();
    for y in 0..field.height() {
        for x in 0..field.width() {
            cells.push(allowed(field, x, y));
        }
    }
    cells
}

const ALL: [Direction; 8] = Direction::ALL_DIRECTIONS;

/// Whether every tile allowed in a neighbour has a tile it fits next to in
/// the cell it is a neighbour of.
fn arc_consistent(field: &Field, potentials: &[CharacterEntry]) -> bool {
    for y in 0..field.height() {
        for x in 0..field.width() {
            for d in ALL {
                if let Some((nx, ny)) = field.build_delta(x, y, d) {
                    let source = allowed(field, x, y);
                    let target = allowed(field, nx, ny);
                    for t in 0..potentials.len() {
                        if target[t] {
                            let supported = (0..potentials.len()).any(|s| {
                                source[s] && potentials[s].boundary.fits(&potentials[t].boundary, d)
                            });
                            if !supported {
                                return false;
                            }
                        }
                    }
                }
            }
        }
    }
    true
}

fn check_books(field: &Field) {
    for i in 0..field.width() * field.height() {
        let point = field.point(i);
        let count = (0..point.len()).filter(|t| point.is_allowed(*t)).count();
        assert_eq!(point.num_allowed(), count);
        for t in 0..point.len() {
            assert_eq!(point.is_allowed(t), point.invalidate_step(t).is_none());
            if let Some(at) = point.invalidate_step(t) {
                assert!(at <= point.max_invalidate_step().unwrap());
                assert!(at <= field.num_steps());
            }
        }
    }
}

#[test]
fn simple_field_propagate_north() {
    let potentials = line_tiles();

    let mut field = Field::new(&potentials, 2, 2);

    assert_eq!(allowed(&field, 0, 0), vec![true, true, true]);
    assert!(field.force_potential(0, 1, 1));
    assert_eq!(allowed(&field, 0, 0), vec![false, true, false]);
}

#[test]
fn simple_field_propagate_south() {
    let potentials = line_tiles();

    let mut field = Field::new(&potentials, 2, 2);

    assert_eq!(allowed(&field, 0, 1), vec![true, true, true]);
    assert!(field.force_potential(0, 0, 1));
    assert_eq!(allowed(&field, 0, 1), vec![false, true, false]);
}

#[test]
fn simple_field_propagate_east() {
    let potentials = line_tiles();

    let mut field = Field::new(&potentials, 2, 2);

    assert_eq!(allowed(&field, 1, 0), vec![true, true, true]);
    assert!(field.force_potential(0, 0, 0));
    assert_eq!(allowed(&field, 1, 0), vec![true, false, false]);
}

#[test]
fn simple_field_propagate_west() {
    let potentials = line_tiles();

    let mut field = Field::new(&potentials, 2, 2);

    assert_eq!(allowed(&field, 0, 0), vec![true, true, true]);
    assert!(field.force_potential(1, 0, 0));
    assert_eq!(allowed(&field, 0, 0), vec![true, false, false]);
}

#[test]
fn zero_weight_invalidated() {
    let potentials = [
        entry('┌', 0.1, "000|001|010"),
        entry('┐', 1.0, "000|100|010"),
        entry('└', 0.0, "010|001|000"),
        entry('┘', -1.0, "010|100|000"),
    ];

    let field = Field::new(&potentials, 2, 2);

    for p in all_allowed(&field) {
        assert_eq!(p[0], true);
        assert_eq!(p[1], true);
        assert_eq!(p[2], false);
        assert_eq!(p[3], false);
    }
}

#[test]
fn simple_field_propagate_fail() {
    let potentials = [entry('-', 1.0, "000|101|000"), entry('┌', 1.0, "000|001|010")];

    let mut field = Field::new(&potentials, 2, 2);
    assert_eq!(field.force_potential(0, 0, 1), false);
}

#[test]
fn simple_field_full_propagate() {
    let potentials = corner_tiles();

    let mut field = Field::new(&potentials, 2, 2);

    assert!(field.force_potential(0, 0, 0));
    assert!(field.force_potential(1, 0, 1));
    assert!(field.force_potential(0, 1, 2));

    if let Some(result) = field.render() {
        let expected = "┌┐\n└┘\n";
        let result_str = make_string(&potentials, &result);
        assert_eq!(result_str, expected);
    } else {
        let partial_result = field.render_partial();
        let partial_result_str = make_string(&potentials, &partial_result);
        panic!("Field did not fully propagate. Current status:\n{}", partial_result_str);
    }
}

#[test]
fn simple_field_closed_edges_fail() {
    let potentials = [entry('-', 1.0, "000|101|000"), entry('|', 1.0, "010|000|010")];

    let mut field = Field::new(&potentials, 2, 2);
    assert_eq!(field.close_edges(), false);
}

#[test]
fn simple_field_closed_edges() {
    let potentials = line_tiles();

    let mut field = Field::new(&potentials, 2, 2);

    assert!(field.close_edges());

    if let Some(result) = field.render() {
        let expected = "  \n  \n";
        let result_str = make_string(&potentials, &result);
        assert_eq!(result_str, expected);
    } else {
        panic!("Field did not fully close.");
    }
}

#[test]
fn simple_field_closed_edges2() {
    let potentials = corner_tiles();

    let mut field = Field::new(&potentials, 2, 2);

    assert!(field.close_edges());

    if let Some(result) = field.render() {
        let expected = "┌┐\n└┘\n";
        let result_str = make_string(&potentials, &result);
        assert_eq!(result_str, expected);
    } else {
        panic!("Field did not fully close.");
    }
}

#[test]
fn closed_edges_render_as_numbers() {
    let mut field = Field::new(&line_tiles(), 2, 2);
    assert!(field.close_edges());
    assert_eq!(field.render(), Some(vec![vec![2, 2], vec![2, 2]]));

    let mut field = Field::new(&corner_tiles(), 2, 2);
    assert!(field.close_edges());
    assert_eq!(field.render(), Some(vec![vec![0, 1], vec![2, 3]]));
    assert_eq!(field.num_steps(), 0);
}

#[test]
fn two_forced_corners_leave_the_bottom_row_to_a_third() {
    let potentials = corner_tiles();
    let mut field = Field::new(&potentials, 2, 2);
    assert!(field.force_potential(0, 0, 0));
    assert!(field.force_potential(1, 0, 1));
    // Both "└┘" and "┘└" fit below "┌┐" as long as the edges are open.
    assert_eq!(allowed(&field, 0, 1), vec![false, false, true, true]);
    assert_eq!(allowed(&field, 1, 1), vec![false, false, true, true]);
    assert_eq!(field.render(), None);
    assert_eq!(field.render_partial(), vec![vec![0, 1], vec![4, 4]]);
    assert!(arc_consistent(&field, &potentials));
    assert!(field.force_potential(0, 1, 2));
    assert_eq!(field.render(), Some(vec![vec![0, 1], vec![2, 3]]));
    assert_eq!(field.num_steps(), 0);
    check_books(&field);
}

#[test]
fn new_field_is_open_everywhere() {
    let potentials = line_tiles();
    let field = Field::new(&potentials, 3, 2);
    assert_eq!(field.width(), 3);
    assert_eq!(field.height(), 2);
    assert_eq!(field.num_potentials(), 3);
    assert_eq!(field.num_steps(), 0);
    assert_eq!(all_allowed(&field), vec![vec![true, true, true]; 6]);
    assert_eq!(field.render(), None);
    assert_eq!(field.render_partial(), vec![vec![3, 3, 3], vec![3, 3, 3]]);
    for i in 0..6 {
        assert_eq!(field.point(i).max_invalidate_step(), None);
    }
    check_books(&field);
}

#[test]
fn disabled_tiles_are_stamped_at_step_zero() {
    let potentials = [entry('a', 1.0, "000|000|000"), entry('b', 0.0, "000|000|000")];
    let field = Field::new(&potentials, 2, 1);
    for i in 0..2 {
        let point = field.point(i);
        assert_eq!(point.invalidate_step(0), None);
        assert_eq!(point.invalidate_step(1), Some(0));
        assert_eq!(point.max_invalidate_step(), Some(0));
        assert_eq!(point.num_allowed(), 1);
    }
    assert_eq!(field.render(), Some(vec![vec![0, 0]]));
}

#[test]
fn empty_grids_are_solved_at_once() {
    let mut field = Field::new(&line_tiles(), 0, 3);
    assert!(field.close_edges());
    assert_eq!(field.render(), Some(vec![vec![], vec![], vec![]]));
    assert_eq!(field.observe(0), None);

    let mut field = Field::new(&line_tiles(), 3, 0);
    assert!(field.close_edges());
    assert_eq!(field.render(), Some(vec![]));
    assert_eq!(field.render_partial(), Vec::<Vec<usize>>::new());
}

#[test]
fn render_partial_marks_open_and_empty_cells() {
    let potentials = [entry('-', 1.0, "000|101|000"), entry('┌', 1.0, "000|001|010")];
    let mut field = Field::new(&potentials, 2, 2);
    assert!(!field.force_potential(0, 0, 1));
    let partial = field.render_partial();
    assert_eq!(partial[0][0], 1);
    let flat: Vec<usize> = partial.iter().flatten().cloned().collect();
    assert!(flat.contains(&usize::MAX));
    for (i, shown) in flat.iter().enumerate() {
        let n = field.point(i).num_allowed();
        if n == 0 {
            assert_eq!(*shown, usize::MAX);
        } else if n == 1 {
            assert!(field.point(i).is_allowed(*shown));
        } else {
            assert_eq!(*shown, 2);
        }
    }
    assert_eq!(field.render(), None);
    let text = make_string(&potentials, &partial);
    assert!(text.contains('!'));
    assert_eq!(text.chars().filter(|c| *c == '\n').count(), 2);
}

#[test]
fn make_string_draws_tiles_and_marks() {
    let potentials = corner_tiles();
    let rows = vec![vec![0, 1, 4], vec![], vec![usize::MAX, 3, 5]];
    assert_eq!(make_string(&potentials, &rows), "┌┐?\n\n!┘!\n");
    assert_eq!(make_string(&potentials, &[]), "");
    assert_eq!(make_string(&[], &[vec![0, 1]]), "?!\n");
}

#[test]
fn close_edges_rules_out_outward_connections() {
    // One tile for each single connection, and a blank.
    let potentials = [
        entry('a', 1.0, "100|000|000"),
        entry('b', 1.0, "010|000|000"),
        entry('c', 1.0, "001|000|000"),
        entry('d', 1.0, "000|001|000"),
        entry('e', 1.0, "000|000|001"),
        entry('f', 1.0, "000|000|010"),
        entry('g', 1.0, "000|000|100"),
        entry('h', 1.0, "000|100|000"),
        entry(' ', 1.0, "000|000|000"),
    ];
    let mut single = Field::new(&potentials, 1, 1);
    assert!(single.close_edges());
    assert_eq!(allowed(&single, 0, 0), vec![false, false, false, false, false, false, false, false, true]);
    assert_eq!(single.point(0).max_invalidate_step(), Some(0));
    for t in 0..8 {
        assert_eq!(single.point(0).invalidate_step(t), Some(0));
    }

    let mut field = Field::new(&potentials, 4, 3);
    assert!(field.close_edges());
    for y in 0..3 {
        for x in 0..4 {
            let cell = allowed(&field, x, y);
            for (t, potential) in potentials.iter().enumerate() {
                let b = &potential.boundary;
                let north = b.connects(Direction::North) || b.connects(Direction::NorthEast) || b.connects(Direction::NorthWest);
                let east = b.connects(Direction::East) || b.connects(Direction::NorthEast) || b.connects(Direction::SouthEast);
                let south = b.connects(Direction::South) || b.connects(Direction::SouthEast) || b.connects(Direction::SouthWest);
                let west = b.connects(Direction::West) || b.connects(Direction::NorthWest) || b.connects(Direction::SouthWest);
                let outward = (y == 0 && north) || (x == 3 && east) || (y == 2 && south) || (x == 0 && west);
                if outward {
                    assert!(!cell[t]);
                }
            }
            assert!(cell[8]);
        }
    }
    // The top left corner keeps what points inwards.
    assert_eq!(allowed(&field, 0, 0), vec![false, false, false, true, true, true, false, false, true]);
    assert!(arc_consistent(&field, &potentials));
    check_books(&field);
}

#[test]
fn close_edges_leaves_the_middle_to_propagation() {
    // A horizontal line may not touch the left or right edge, a blank may
    // stand anywhere.
    let potentials = [entry('-', 1.0, "000|101|000"), entry(' ', 1.0, "000|000|000")];
    let mut field = Field::new(&potentials, 3, 1);
    assert!(field.close_edges());
    // The line is ruled out on both edges, and then in the middle too, as
    // it has nothing to connect to.
    assert_eq!(field.render(), Some(vec![vec![1, 1, 1]]));
    assert!(arc_consistent(&field, &potentials));
    check_books(&field);
}

#[test]
fn close_edges_fails_on_an_edge_cell_that_was_empty() {
    let potentials = [entry('-', 0.0, "000|101|000")];
    let mut field = Field::new(&potentials, 2, 2);
    assert_eq!(field.close_edges(), false);
}

#[test]
fn close_edges_keeps_what_no_edge_forbids() {
    let potentials = [entry('+', 1.0, "010|101|010"), entry(' ', 1.0, "000|000|000")];
    let mut field = Field::new(&potentials, 3, 3);
    assert!(field.close_edges());
    // Crosses may not touch an edge; the middle cell would be alone.
    assert_eq!(field.render(), Some(vec![vec![1; 3]; 3]));
    let mut field = Field::new(&potentials, 4, 4);
    assert!(field.close_edges());
    assert_eq!(field.render(), Some(vec![vec![1; 4]; 4]));
}

#[test]
fn successful_propagation_is_arc_consistent() {
    let potentials = [
        entry('─', 10.0, "000|101|000"),
        entry('│', 10.0, "010|000|010"),
        entry('┌', 1.0, "000|001|010"),
        entry('┐', 1.0, "000|100|010"),
        entry('└', 1.0, "010|001|000"),
        entry('┘', 1.0, "010|100|000"),
    ];
    let mut field = Field::new(&potentials, 5, 4);
    assert!(arc_consistent(&field, &potentials));
    assert!(field.close_edges());
    assert!(arc_consistent(&field, &potentials));
    assert!(field.force_potential(1, 0, 0));
    assert!(arc_consistent(&field, &potentials));
    check_books(&field);
    // The corners are settled by the edges alone.
    assert_eq!(allowed(&field, 0, 0), vec![false, false, true, false, false, false]);
    assert_eq!(allowed(&field, 4, 0), vec![false, false, false, true, false, false]);
    assert_eq!(allowed(&field, 0, 3), vec![false, false, false, false, true, false]);
    assert_eq!(allowed(&field, 4, 3), vec![false, false, false, false, false, true]);
}

#[test]
fn propagation_from_an_empty_queue_changes_nothing() {
    let potentials = line_tiles();
    let mut field = Field::new(&potentials, 2, 2);
    let before = all_allowed(&field);
    assert!(field.propagate(ChangeQueue::new()));
    assert_eq!(all_allowed(&field), before);
}

#[test]
fn propagation_only_looks_at_queued_cells() {
    // A tile that fits nothing to its north or south, itself included.
    let potentials = [entry('x', 1.0, "010|000|000")];
    let mut field = Field::new(&potentials, 1, 2);
    assert!(!arc_consistent(&field, &potentials));
    assert!(field.propagate(ChangeQueue::new()));
    assert_eq!(field.render(), Some(vec![vec![0], vec![0]]));
    let mut queue = ChangeQueue::new();
    queue.add((0, 0));
    assert!(!field.propagate(queue));
    assert_eq!(field.point(1).num_allowed(), 0);
    assert_eq!(field.render_partial(), vec![vec![0], vec![usize::MAX]]);
}

#[test]
fn propagate_direction_prunes_one_neighbour() {
    let potentials = line_tiles();
    let mut field = Field::new(&potentials, 2, 2);
    let mut queue = ChangeQueue::new();
    // Nothing to prune while the source allows everything.
    assert!(field.propagate_direction(0, 0, 0, Direction::East, &mut queue));
    assert!(queue.is_empty());
    // No neighbour to the north of the top row.
    assert!(field.propagate_direction(0, 0, 0, Direction::North, &mut queue));
    assert!(queue.is_empty());
    assert_eq!(all_allowed(&field), vec![vec![true, true, true]; 4]);
}

#[test]
fn test_direction_rules_out_what_nothing_fits() {
    let potentials = line_tiles();
    let boundaries: Vec<_> = potentials.iter().map(|p| p.boundary).collect();
    let mut source = FieldPoint::new(3);
    source.force(0, 0);
    let mut target = FieldPoint::new(3);
    // East of a horizontal line only a horizontal line fits.
    assert!(test_direction(&boundaries, &source, &mut target, 4, Direction::East));
    assert_eq!(target.num_allowed(), 1);
    assert!(target.is_allowed(0));
    assert_eq!(target.invalidate_step(1), Some(4));
    assert_eq!(target.invalidate_step(2), Some(4));
    assert_eq!(target.max_invalidate_step(), Some(4));
    // A second look changes nothing.
    assert!(!test_direction(&boundaries, &source, &mut target, 5, Direction::East));
    assert_eq!(target.max_invalidate_step(), Some(4));
    // North of a horizontal line: a blank or another horizontal line.
    let mut above = FieldPoint::new(3);
    assert!(test_direction(&boundaries, &source, &mut above, 1, Direction::North));
    assert!(above.is_allowed(0) && !above.is_allowed(1) && above.is_allowed(2));
    // An empty source supports nothing.
    let mut empty = FieldPoint::new(3);
    for t in 0..3 {
        empty.invalidate(t, 0);
    }
    let mut victim = FieldPoint::new(3);
    assert!(test_direction(&boundaries, &empty, &mut victim, 2, Direction::South));
    assert_eq!(victim.num_allowed(), 0);
}

#[test]
fn apply_failed_edge_invalidates_and_queues() {
    let mut points = vec![FieldPoint::new(2), FieldPoint::new(2), FieldPoint::new(2), FieldPoint::new(2)];
    let mut queue = ChangeQueue::new();
    assert!(apply_failed_edge(1, 1, 2, 0, &mut points, 3, &mut queue));
    assert!(!points[3].is_allowed(0));
    assert_eq!(points[3].invalidate_step(0), Some(3));
    assert_eq!(queue.next(), Some((1, 1)));
    assert!(queue.is_empty());
    assert!(!apply_failed_edge(1, 1, 2, 1, &mut points, 3, &mut queue));
    assert_eq!(points[3].num_allowed(), 0);
    assert!(queue.is_empty());
    for i in 0..3 {
        assert_eq!(points[i].num_allowed(), 2);
    }
}

#[test]
fn indices_and_coordinates() {
    assert_eq!(generate_index(0, 0, 7), 0);
    assert_eq!(generate_index(3, 2, 7), 17);
    assert_eq!(generate_coord(17, 7), (3, 2));
    assert_eq!(generate_coord(6, 7), (6, 0));
    assert_eq!(generate_coord(7, 7), (0, 1));
    for y in 0..4 {
        for x in 0..5 {
            assert_eq!(generate_coord(generate_index(x, y, 5), 5), (x, y));
        }
    }
}

#[test]
fn build_delta_stays_in_bounds() {
    let field = Field::new(&line_tiles(), 4, 2);
    assert_eq!(field.build_delta(0, 0, Direction::NorthWest), None);
    assert_eq!(field.build_delta(0, 0, Direction::North), None);
    assert_eq!(field.build_delta(0, 0, Direction::East), Some((1, 0)));
    assert_eq!(field.build_delta(0, 0, Direction::SouthEast), Some((1, 1)));
    assert_eq!(field.build_delta(0, 0, Direction::South), Some((0, 1)));
    assert_eq!(field.build_delta(0, 0, Direction::West), None);
    // The grid is wider than high: the north-east neighbour is bounded by
    // the width, not the height.
    assert_eq!(field.build_delta(2, 1, Direction::NorthEast), Some((3, 0)));
    assert_eq!(field.build_delta(3, 1, Direction::NorthEast), None);
    assert_eq!(field.build_delta(3, 1, Direction::NorthWest), Some((2, 0)));
    assert_eq!(field.build_delta(3, 1, Direction::South), None);
    assert_eq!(field.build_delta(3, 1, Direction::SouthWest), None);
    assert_eq!(field.build_delta(3, 0, Direction::SouthWest), Some((2, 1)));
    assert_eq!(field.build_delta(3, 0, Direction::East), None);
    // From outside the grid only what lands inside counts.
    assert_eq!(field.build_delta(4, 0, Direction::West), Some((3, 0)));
    assert_eq!(field.build_delta(4, 0, Direction::East), None);
    assert_eq!(field.build_delta(0, 2, Direction::North), Some((0, 1)));
    assert_eq!(field.build_delta(9, 9, Direction::North), None);
    let tall = Field::new(&line_tiles(), 2, 4);
    assert_eq!(tall.build_delta(1, 3, Direction::NorthEast), None);
    assert_eq!(tall.build_delta(0, 3, Direction::NorthEast), Some((1, 2)));
}

#[test]
fn every_neighbour_looks_back() {
    let field = Field::new(&line_tiles(), 3, 3);
    for y in 0..3 {
        for x in 0..3 {
            for d in ALL {
                if let Some((nx, ny)) = field.build_delta(x, y, d) {
                    let back = Direction::from_index(d.to_opposite_index());
                    assert_eq!(field.build_delta(nx, ny, back), Some((x, y)));
                }
            }
        }
    }
    let neighbours = ALL.iter().filter(|d| field.build_delta(1, 1, **d).is_some()).count();
    assert_eq!(neighbours, 8);
    let neighbours = ALL.iter().filter(|d| field.build_delta(0, 0, **d).is_some()).count();
    assert_eq!(neighbours, 3);
}

#[test]
fn observe_finds_the_open_cells_in_order() {
    let potentials = corner_tiles();
    let mut field = Field::new(&potentials, 2, 2);
    assert_eq!(field.observe(0), Some(0));
    assert_eq!(field.observe(3), Some(3));
    assert_eq!(field.observe(4), None);
    assert_eq!(field.observe(usize::MAX), None);
    assert!(field.force_potential(0, 0, 0));
    assert_eq!(field.observe(0), Some(1));
    assert!(field.close_edges());
    assert_eq!(field.observe(0), None);
    let lines = line_tiles();
    let mut field = Field::new(&lines, 3, 2);
    assert!(field.force_potential(1, 0, 2));
    let open: Vec<usize> = (0..6).filter(|i| field.point(*i).num_allowed() > 1).collect();
    let mut seen = Vec::new();
    let mut from = 0;
    while let Some(i) = field.observe(from) {
        seen.push(i);
        from = i + 1;
    }
    assert_eq!(seen, open);
    assert!(!seen.contains(&1));
    assert!(seen.contains(&0));
}

#[test]
fn step_commits_a_decision() {
    let potentials = line_tiles();
    let mut field = Field::new(&potentials, 2, 2);
    assert_eq!(field.step(0, 2), StepOutcome::Progress);
    assert_eq!(field.num_steps(), 1);
    assert_eq!(allowed(&field, 0, 0), vec![false, false, true]);
    assert_eq!(field.point(0).invalidate_step(0), Some(1));
    assert_eq!(field.point(0).invalidate_step(1), Some(1));
    assert_eq!(field.point(0).max_invalidate_step(), Some(1));
    // East of a blank nothing may connect to the west, south of it nothing
    // to the north.
    assert_eq!(allowed(&field, 1, 0), vec![false, true, true]);
    assert_eq!(field.point(1).invalidate_step(0), Some(1));
    assert_eq!(allowed(&field, 0, 1), vec![true, false, true]);
    assert_eq!(allowed(&field, 1, 1), vec![true, true, true]);
    assert!(arc_consistent(&field, &potentials));
    check_books(&field);
}

#[test]
fn step_without_backtracking_fails_for_good() {
    let potentials = dead_end_tiles();
    let mut field = Field::new(&potentials, 1, 2);
    assert_eq!(field.step(0, 0), StepOutcome::Failed);
    assert_eq!(field.num_steps(), 1);
    assert_eq!(field.render_partial(), vec![vec![0], vec![usize::MAX]]);
    assert_eq!(field.render(), None);
    check_books(&field);
}

#[test]
fn step_with_backtracking_rules_the_choice_out() {
    let potentials = dead_end_tiles();
    let mut field = Field::new(&potentials, 1, 2).allow_backtracking();
    let outcome = field.step(0, 0);
    assert_eq!(outcome, StepOutcome::Retry(FoundFieldPoint { point_index: 0, num_encountered: 1 }));
    assert_eq!(field.num_steps(), 0);
    assert_eq!(allowed(&field, 0, 0), vec![false, true]);
    assert_eq!(field.point(0).invalidate_step(0), Some(0));
    // What the failed attempt had ruled out below is allowed again.
    assert_eq!(allowed(&field, 0, 1), vec![true, true]);
    assert_eq!(field.point(1).max_invalidate_step(), None);
    assert!(arc_consistent(&field, &potentials));
    check_books(&field);
    assert_eq!(field.step(0, 1), StepOutcome::Progress);
    assert_eq!(field.step(1, 0), StepOutcome::Progress);
    assert_eq!(field.num_steps(), 2);
    assert_eq!(field.render(), Some(vec![vec![1], vec![0]]));
}

#[test]
fn backtracking_gives_up_on_an_empty_stack() {
    // Both tiles connect to the south and neither to the north: whatever
    // stands on top, nothing fits below.
    let potentials = [entry('a', 1.0, "000|000|010"), entry('b', 1.0, "000|100|010")];
    let mut field = Field::new(&potentials, 1, 2).allow_backtracking();
    assert_eq!(field.step(0, 0), StepOutcome::Failed);
    assert_eq!(field.num_steps(), 0);
    assert_eq!(field.render(), None);
    check_books(&field);
}

#[test]
fn backtracking_goes_back_more_than_one_decision() {
    // Three cells in a column.  The blank on top is fine, and so is the
    // blank below it; "a" at the bottom is the only tile left there once
    // the blank is ruled out, and nothing fits above it but itself.
    let potentials = [entry('a', 1.0, "010|000|010"), entry(' ', 1.0, "000|000|000")];
    let mut field = Field::new(&potentials, 1, 3).allow_backtracking();
    assert_eq!(field.step(0, 1), StepOutcome::Progress);
    // The blank on top leaves only blanks below.
    assert_eq!(field.render(), Some(vec![vec![1], vec![1], vec![1]]));
    // Deciding for "a" at the bottom all the same cannot stand.
    let outcome = field.step(2, 0);
    match outcome {
        StepOutcome::Retry(found) => {
            assert!(field.num_steps() <= 1);
            assert!(found.point_index == 2 || found.point_index == 0);
        }
        StepOutcome::Failed => assert_eq!(field.num_steps(), 0),
        StepOutcome::Progress => panic!("the decision cannot stand"),
    }
    check_books(&field);
}

#[test]
fn revert_without_leave_does_nothing() {
    let potentials = corner_tiles();
    let mut field = Field::new(&potentials, 2, 2);
    assert_eq!(field.step(0, 0), StepOutcome::Progress);
    let before = all_allowed(&field);
    assert_eq!(field.revert(), None);
    assert_eq!(field.num_steps(), 1);
    assert_eq!(all_allowed(&field), before);
}

#[test]
fn revert_undoes_the_last_decision_and_blocks_it() {
    let potentials = line_tiles();
    let mut field = Field::new(&potentials, 2, 2).allow_backtracking();
    assert_eq!(field.step(0, 2), StepOutcome::Progress);
    assert_eq!(field.step(3, 2), StepOutcome::Progress);
    assert_eq!(field.num_steps(), 2);
    let found = field.revert();
    assert_eq!(found, Some(FoundFieldPoint { point_index: 3, num_encountered: 1 }));
    assert_eq!(field.num_steps(), 1);
    assert!(!field.point(3).is_allowed(2));
    assert_eq!(field.point(3).invalidate_step(2), Some(1));
    assert_eq!(allowed(&field, 0, 0), vec![false, false, true]);
    check_books(&field);
    assert!(arc_consistent(&field, &potentials));
}

#[test]
fn reverting_to_the_bottom_gives_back_the_first_state() {
    let potentials = [
        entry('─', 10.0, "000|101|000"),
        entry('│', 10.0, "010|000|010"),
        entry('┌', 1.0, "000|001|010"),
        entry('┐', 1.0, "000|100|010"),
        entry('└', 1.0, "010|001|000"),
        entry('┘', 1.0, "010|100|000"),
        entry(' ', 1.0, "000|000|000"),
    ];
    let mut field = Field::new(&potentials, 4, 3).allow_backtracking();
    assert!(field.close_edges());
    let first = all_allowed(&field);
    assert_eq!(field.step(5, 6), StepOutcome::Progress);
    assert_eq!(field.step(6, 6), StepOutcome::Progress);
    assert_eq!(field.step(0, 6), StepOutcome::Progress);
    assert_eq!(field.num_steps(), 3);
    let mut undone = Vec::new();
    while field.num_steps() > 0 {
        match field.revert() {
            Some(found) => undone.push(found.point_index),
            None => break,
        }
    }
    assert_eq!(field.num_steps(), 0);
    let last = all_allowed(&field);
    for (cell, (now, then)) in last.iter().zip(first.iter()).enumerate() {
        for t in 0..potentials.len() {
            // Nothing is allowed that was not allowed at the start, and
            // whatever is missing was ruled out at step 0.
            assert!(!now[t] || then[t]);
            if then[t] && !now[t] {
                assert_eq!(field.point(cell).invalidate_step(t), Some(0));
            }
        }
    }
    assert!(!undone.is_empty());
    check_books(&field);
}

#[test]
fn allow_backtracking_keeps_the_cells() {
    let potentials = line_tiles();
    let mut field = Field::new(&potentials, 2, 2);
    assert!(field.force_potential(0, 0, 0));
    let before = all_allowed(&field);
    let field = field.allow_backtracking();
    assert_eq!(all_allowed(&field), before);
    assert_eq!(field.num_steps(), 0);
    assert_eq!(field.width(), 2);
}

#[test]
fn clones_go_their_own_ways() {
    let potentials = corner_tiles();
    let field = Field::new(&potentials, 2, 2);
    let mut copy = field.clone();
    assert_eq!(copy.step(0, 0), StepOutcome::Progress);
    assert_eq!(field.num_steps(), 0);
    assert_eq!(all_allowed(&field), vec![vec![true; 4]; 4]);
    assert_eq!(copy.num_steps(), 1);
    assert_eq!(allowed(&copy, 0, 0), vec![true, false, false, false]);
    assert_eq!(allowed(&copy, 1, 0), vec![false, true, false, true]);
}
