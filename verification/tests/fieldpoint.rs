use wfc::fieldpoint::{later_stamp, stamp_is_after, FieldPoint};

fn allowed(p: &FieldPoint) -> Vec<bool> {
    (0..p.len()).map(|i| p.is_allowed(i)).collect()
}

fn stamps(p: &FieldPoint) -> Vec<Option<usize>> {
    (0..p.len()).map(|i| p.invalidate_step(i)).collect()
}

fn check_books(p: &FieldPoint) {
    let flags = allowed(p);
    let marks = stamps(p);
    assert_eq!(p.num_allowed(), flags.iter().filter(|b| **b).count());
    for i in 0..p.len() {
        assert_eq!(flags[i], marks[i].is_none());
        if let Some(at) = marks[i] {
            assert!(p.max_invalidate_step().is_some());
            assert!(at <= p.max_invalidate_step().unwrap());
        }
    }
}

#[test]
fn initialize_fieldpoint() {
    let f0 = FieldPoint::new(3);
    let f1 = FieldPoint::new(6);

    assert_eq!(f0.num_allowed(), 3);
    assert_eq!(f0.len(), 3);
    assert_eq!(f1.num_allowed(), 6);
    assert_eq!(f1.len(), 6);

    for v in allowed(&f0) {
        assert!(v);
    }

    for v in allowed(&f1) {
        assert!(v);
    }
}

#[test]
fn invalidate_fieldpoint() {
    let mut f0 = FieldPoint::new(3);

    assert_eq!(f0.num_allowed(), 3);

    f0.invalidate(0, 0);
    assert_eq!(f0.is_allowed(0), false);
    assert_eq!(f0.num_allowed(), 2);

    f0.invalidate(2, 0);
    assert_eq!(f0.is_allowed(2), false);
    assert_eq!(f0.num_allowed(), 1);

    // test repeated invalidation
    f0.invalidate(2, 0);
    assert_eq!(f0.is_allowed(2), false);
    assert_eq!(f0.num_allowed(), 1);

    f0.invalidate(1, 0);
    assert_eq!(f0.is_allowed(1), false);
    assert_eq!(f0.num_allowed(), 0);
}

#[test]
fn revert_fieldpoint() {
    let mut f0 = FieldPoint::new(3);

    assert_eq!(f0.is_allowed(0), true);
    assert_eq!(f0.is_allowed(1), true);
    assert_eq!(f0.is_allowed(2), true);
    assert_eq!(f0.num_allowed(), 3);
    assert_eq!(f0.max_invalidate_step(), None);

    f0.invalidate(0, 1);
    assert_eq!(f0.is_allowed(0), false);
    assert_eq!(f0.is_allowed(1), true);
    assert_eq!(f0.is_allowed(2), true);
    assert_eq!(f0.num_allowed(), 2);
    assert_eq!(f0.max_invalidate_step(), Some(1));

    f0.invalidate(2, 2);
    assert_eq!(f0.is_allowed(0), false);
    assert_eq!(f0.is_allowed(1), true);
    assert_eq!(f0.is_allowed(2), false);
    assert_eq!(f0.num_allowed(), 1);
    assert_eq!(f0.max_invalidate_step(), Some(2));

    // test repeated invalidation
    f0.invalidate(2, 3);
    assert_eq!(f0.is_allowed(0), false);
    assert_eq!(f0.is_allowed(1), true);
    assert_eq!(f0.is_allowed(2), false);
    assert_eq!(f0.num_allowed(), 1);
    assert_eq!(f0.max_invalidate_step(), Some(2));

    f0.invalidate(1, 4);
    assert_eq!(f0.is_allowed(0), false);
    assert_eq!(f0.is_allowed(1), false);
    assert_eq!(f0.is_allowed(2), false);
    assert_eq!(f0.num_allowed(), 0);
    assert_eq!(f0.max_invalidate_step(), Some(4));

    f0.revert_to(3);
    assert_eq!(f0.is_allowed(0), false);
    assert_eq!(f0.is_allowed(1), true);
    assert_eq!(f0.is_allowed(2), false);
    assert_eq!(f0.num_allowed(), 1);
    assert_eq!(f0.max_invalidate_step(), Some(2));

    f0.revert_to(2);
    assert_eq!(f0.is_allowed(0), false);
    assert_eq!(f0.is_allowed(1), true);
    assert_eq!(f0.is_allowed(2), false);
    assert_eq!(f0.num_allowed(), 1);
    assert_eq!(f0.max_invalidate_step(), Some(2));

    f0.revert_to(1);
    assert_eq!(f0.is_allowed(0), false);
    assert_eq!(f0.is_allowed(1), true);
    assert_eq!(f0.is_allowed(2), true);
    assert_eq!(f0.num_allowed(), 2);
    assert_eq!(f0.max_invalidate_step(), Some(1));

    f0.revert_to(0);
    assert_eq!(f0.is_allowed(0), true);
    assert_eq!(f0.is_allowed(1), true);
    assert_eq!(f0.is_allowed(2), true);
    assert_eq!(f0.num_allowed(), 3);
    assert_eq!(f0.max_invalidate_step(), None);
}

#[test]
fn invalidate_records_the_step() {
    let mut p = FieldPoint::new(4);
    p.invalidate(1, 5);
    p.invalidate(3, 7);
    p.invalidate(1, 9);
    assert_eq!(stamps(&p), vec![None, Some(5), None, Some(7)]);
    assert_eq!(p.max_invalidate_step(), Some(7));
    check_books(&p);
}

#[test]
fn force_leaves_one_tile() {
    let mut p = FieldPoint::new(4);
    p.invalidate(0, 1);
    p.force(2, 3);
    assert_eq!(allowed(&p), vec![false, false, true, false]);
    assert_eq!(stamps(&p), vec![Some(1), Some(3), None, Some(3)]);
    assert_eq!(p.num_allowed(), 1);
    assert_eq!(p.max_invalidate_step(), Some(3));
    assert_eq!(p.extract_selection(), Some(2));
    check_books(&p);
}

#[test]
fn force_brings_back_a_tile_that_was_out() {
    let mut p = FieldPoint::new(3);
    p.invalidate(1, 2);
    p.force(1, 2);
    assert_eq!(allowed(&p), vec![false, true, false]);
    assert_eq!(stamps(&p), vec![Some(2), None, Some(2)]);
    assert_eq!(p.num_allowed(), 1);
    check_books(&p);
}

#[test]
fn force_on_a_single_tile_sets_the_latest_step_all_the_same() {
    let mut p = FieldPoint::new(1);
    p.force(0, 6);
    assert_eq!(allowed(&p), vec![true]);
    assert_eq!(stamps(&p), vec![None]);
    assert_eq!(p.max_invalidate_step(), Some(6));
    p.revert_to(2);
    assert_eq!(allowed(&p), vec![true]);
    assert_eq!(p.max_invalidate_step(), None);
    check_books(&p);
}

#[test]
fn force_then_revert_restores_the_cell() {
    let mut p = FieldPoint::new(4);
    p.invalidate(3, 0);
    p.force(1, 1);
    p.revert_to(0);
    assert_eq!(allowed(&p), vec![true, true, true, false]);
    assert_eq!(stamps(&p), vec![None, None, None, Some(0)]);
    assert_eq!(p.num_allowed(), 3);
    assert_eq!(p.max_invalidate_step(), Some(0));
    check_books(&p);
}

#[test]
fn extract_selection_needs_exactly_one_tile() {
    let mut p = FieldPoint::new(3);
    assert_eq!(p.extract_selection(), None);
    p.invalidate(0, 0);
    assert_eq!(p.extract_selection(), None);
    p.invalidate(2, 0);
    assert_eq!(p.extract_selection(), Some(1));
    p.invalidate(1, 0);
    assert_eq!(p.extract_selection(), None);
    assert_eq!(FieldPoint::new(0).extract_selection(), None);
    assert_eq!(FieldPoint::new(1).extract_selection(), Some(0));
}

fn sample() -> FieldPoint {
    let mut p = FieldPoint::new(6);
    p.invalidate(4, 0);
    p.invalidate(0, 2);
    p.invalidate(5, 2);
    p.invalidate(2, 5);
    p.invalidate(1, 7);
    p
}

fn same(a: &FieldPoint, b: &FieldPoint) -> bool {
    allowed(a) == allowed(b)
        && stamps(a) == stamps(b)
        && a.num_allowed() == b.num_allowed()
        && a.max_invalidate_step() == b.max_invalidate_step()
}

#[test]
fn revert_twice_is_revert_once() {
    for k in 0..9 {
        let mut once = sample();
        once.revert_to(k);
        let mut twice = once.clone();
        twice.revert_to(k);
        assert!(same(&once, &twice));
        check_books(&once);
        assert!(!stamp_is_after(once.max_invalidate_step(), k));
    }
}

#[test]
fn revert_in_two_goes_is_revert_in_one() {
    for k1 in 0..9 {
        for k2 in 0..=k1 {
            let mut stepwise = sample();
            stepwise.revert_to(k1);
            stepwise.revert_to(k2);
            let mut direct = sample();
            direct.revert_to(k2);
            assert!(same(&stepwise, &direct));
        }
    }
}

#[test]
fn revert_keeps_what_came_before() {
    let mut p = sample();
    p.revert_to(2);
    assert_eq!(allowed(&p), vec![false, true, true, true, false, false]);
    assert_eq!(stamps(&p), vec![Some(2), None, None, None, Some(0), Some(2)]);
    assert_eq!(p.num_allowed(), 3);
    assert_eq!(p.max_invalidate_step(), Some(2));
}

#[test]
fn clone_is_a_copy_of_its_own() {
    let mut p = sample();
    let q = p.clone();
    p.revert_to(0);
    assert_eq!(allowed(&q), vec![false, false, false, true, false, false]);
    assert_eq!(q.num_allowed(), 1);
    assert_eq!(q.max_invalidate_step(), Some(7));
    assert_eq!(p.num_allowed(), 5);
}

#[test]
fn stamps_compare_with_unset_as_earliest() {
    assert!(!stamp_is_after(None, 0));
    assert!(!stamp_is_after(Some(3), 3));
    assert!(stamp_is_after(Some(4), 3));
    assert_eq!(later_stamp(None, None), None);
    assert_eq!(later_stamp(None, Some(0)), Some(0));
    assert_eq!(later_stamp(Some(2), None), Some(2));
    assert_eq!(later_stamp(Some(2), Some(9)), Some(9));
    assert_eq!(later_stamp(Some(9), Some(2)), Some(9));
}

#[test]
fn the_last_winner_of_a_draw_is_chosen() {
    let mut p = FieldPoint::new(5);
    p.invalidate(3, 0);
    assert_eq!(p.choose_tile(&[true, false, true, true, false]), Some(2));
    assert_eq!(p.choose_tile(&[true, false, false, true, false]), Some(0));
    assert_eq!(p.choose_tile(&[false, false, false, true, false]), None);
    assert_eq!(p.choose_tile(&[true, true, true, true, true]), Some(4));
    assert_eq!(p.choose_tile(&[false; 5]), None);
}

#[test]
fn a_tile_without_a_draw_has_lost() {
    let p = FieldPoint::new(4);
    assert_eq!(p.choose_tile(&[]), None);
    assert_eq!(p.choose_tile(&[false, true]), Some(1));
    assert_eq!(p.choose_tile(&[true, true, true, true, true, true]), Some(3));
    assert_eq!(FieldPoint::new(0).choose_tile(&[true]), None);
}
