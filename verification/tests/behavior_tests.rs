use water_sort::{BoardError, Color, WaterSolver, WaterSorting};

#[test]
fn pour_with_out_of_range_source_returns_invalid_index_and_changes_nothing() {
    let mut w = WaterSorting::new();
    w.init_bottle_with_one_color(Color::Blue);

    assert_eq!(w.pour(5, 0), Err(BoardError::InvalidIndex));
    assert_eq!(w.bottle_at(0).bottom, Some(Color::Blue));
    assert!(!w.undo_available());
}

#[test]
fn pour_with_out_of_range_destination_returns_invalid_index() {
    let mut w = WaterSorting::new();
    w.init_bottle_with_one_color(Color::Blue);

    assert_eq!(w.pour(0, 1), Err(BoardError::InvalidIndex));
}

#[test]
fn pour_between_mismatched_top_colors_is_a_silent_no_op() {
    let mut w = WaterSorting::new();
    w.init_bottle_with_one_color(Color::Blue);
    w.init_bottle_with_one_color(Color::Red);

    w.pour(0, 1).unwrap();

    assert_eq!(w.bottle_at(0).bottom, Some(Color::Blue));
    assert!(w.bottle_at(0).l1.is_none());
    assert_eq!(w.bottle_at(1).bottom, Some(Color::Red));
    assert!(w.bottle_at(1).l1.is_none());
}

#[test]
fn pour_into_a_full_bottle_is_a_silent_no_op() {
    let mut w = WaterSorting::new();
    w.init_bottle_with_one_color(Color::Blue);
    w.init_bottle_with_four_colors(Color::Blue, Color::Blue, Color::Blue, Color::Blue);

    w.pour(0, 1).unwrap();

    assert_eq!(w.bottle_at(0).bottom, Some(Color::Blue));
    assert!(w.bottle_at(1).is_full());
}

#[test]
fn pour_from_an_empty_bottle_is_a_silent_no_op() {
    let mut w = WaterSorting::new();
    w.init_empty_bottle();
    w.init_bottle_with_one_color(Color::Red);

    w.pour(0, 1).unwrap();

    assert!(w.bottle_at(0).is_empty());
    assert_eq!(w.bottle_at(1).bottom, Some(Color::Red));
    assert!(w.bottle_at(1).l1.is_none());
}

#[test]
fn pour_of_a_bottle_into_itself_changes_nothing() {
    let mut w = WaterSorting::new();
    w.init_bottle_with_two_colors(Color::Blue, Color::Blue);

    w.pour(0, 0).unwrap();

    assert_eq!(w.bottle_at(0).bottom, Some(Color::Blue));
    assert_eq!(w.bottle_at(0).l1, Some(Color::Blue));
    assert!(w.bottle_at(0).l2.is_none());
}

#[test]
fn undo_without_a_prior_pour_changes_nothing() {
    let mut w = WaterSorting::new();
    w.init_bottle_with_one_color(Color::Blue);

    assert!(!w.undo_available());
    w.undo();

    assert_eq!(w.bottles_count(), 1);
    assert_eq!(w.bottle_at(0).bottom, Some(Color::Blue));
}

#[test]
fn a_second_undo_with_no_intervening_pour_is_a_no_op() {
    let mut w = WaterSorting::new();
    w.init_bottle_with_one_color(Color::Blue);
    w.init_bottle_with_one_color(Color::Blue);

    w.pour(0, 1).unwrap();
    w.undo();
    assert!(!w.undo_available());

    w.undo();

    assert_eq!(w.bottle_at(0).bottom, Some(Color::Blue));
    assert_eq!(w.bottle_at(1).bottom, Some(Color::Blue));
    assert!(w.bottle_at(1).l1.is_none());
}

#[test]
fn undo_becomes_available_after_a_pour() {
    let mut w = WaterSorting::new();
    w.init_bottle_with_one_color(Color::Blue);
    w.init_bottle_with_one_color(Color::Blue);

    assert!(!w.undo_available());
    w.pour(0, 1).unwrap();
    assert!(w.undo_available());
}

#[test]
fn win_on_a_board_with_no_bottles() {
    let w = WaterSorting::new();
    assert!(w.win());
    assert!(!w.move_available());
    assert!(w.can_be_sorted());
}

#[test]
fn win_example_board_needs_full_bottles() {
    let mut w = WaterSorting::new();
    w.init_bottle_with_one_color(Color::Blue);
    w.init_bottle_with_three_colors(Color::Orange, Color::Blue, Color::Blue);

    w.pour(1, 0).unwrap();

    assert_eq!(w.bottle_at(0).bottom, Some(Color::Blue));
    assert_eq!(w.bottle_at(0).l1, Some(Color::Blue));
    assert_eq!(w.bottle_at(0).l2, Some(Color::Blue));
    assert_eq!(w.bottle_at(1).bottom, Some(Color::Orange));
    assert!(!w.win());
}

#[test]
fn serialized_bottles_use_one_stable_code_per_slot() {
    let mut w = WaterSorting::new();
    w.init_bottle_with_two_colors(Color::Blue, Color::Orange);
    w.init_empty_bottle();
    w.init_bottle_with_four_colors(Color::Red, Color::Gray, Color::Olive, Color::Teal);

    let bytes = w.bottles();

    assert_eq!(bytes, vec![1, 4, 0, 0, 0, 0, 0, 0, 2, 3, 13, 9]);
}

#[test]
fn render_writes_one_line_per_bottle_bottom_up() {
    let mut w = WaterSorting::new();
    w.init_bottle_with_two_colors(Color::Blue, Color::Orange);
    w.init_empty_bottle();
    w.init_bottle_with_three_colors(Color::Green, Color::Magenta, Color::Yellow);

    assert_eq!(w.render(), "1: BO\n2: \n3: GMY\n");
}

#[test]
fn render_numbers_lines_in_decimal_past_nine() {
    let mut w = WaterSorting::new();
    for _ in 0..11 {
        w.init_empty_bottle();
    }

    let text = w.render();
    assert!(text.ends_with("10: \n11: \n"));
}

#[test]
fn solution_is_length_prefixed_pairs() {
    let mut w = WaterSorting::new();
    w.init_bottle_with_one_color(Color::Blue);
    w.init_bottle_with_three_colors(Color::Blue, Color::Blue, Color::Blue);

    let solver = WaterSolver::new(&w);
    let flat = solver.solution(10);

    assert_eq!(flat[0] * 2 + 1, flat.len());
    let moves = solver.solve(10);
    assert_eq!(flat[0], moves.len());
    for (i, p) in moves.iter().enumerate() {
        assert_eq!(flat[1 + 2 * i], p.from);
        assert_eq!(flat[2 + 2 * i], p.to);
    }
    for p in moves.iter() {
        w.pour(p.from, p.to).unwrap();
    }
    assert!(w.win());
}

#[test]
fn solver_gives_up_when_a_color_total_is_not_four() {
    let mut w = WaterSorting::new();
    w.init_bottle_with_one_color(Color::Blue);
    w.init_empty_bottle();

    assert!(!w.can_be_sorted());
    let solver = WaterSolver::new(&w);
    assert!(solver.solve(25).is_empty());
}

#[test]
fn solver_respects_the_depth_limit() {
    let mut w = WaterSorting::new();
    w.init_bottle_with_three_colors(Color::Blue, Color::Blue, Color::Blue);
    w.init_bottle_with_one_color(Color::Blue);
    w.init_bottle_with_three_colors(Color::Red, Color::Red, Color::Red);
    w.init_bottle_with_one_color(Color::Red);

    let solver = WaterSolver::new(&w);
    // two single-color pairs cannot both be finished by one pour
    assert!(solver.solve(1).is_empty());

    let moves = solver.solve(2);
    assert!(!moves.is_empty() && moves.len() <= 2);
    for p in moves.iter() {
        w.pour(p.from, p.to).unwrap();
    }
    assert!(w.win());
}

#[test]
fn solver_returns_empty_on_an_already_won_board() {
    let mut w = WaterSorting::new();
    w.init_bottle_with_four_colors(Color::Blue, Color::Blue, Color::Blue, Color::Blue);
    w.init_empty_bottle();

    let solver = WaterSolver::new(&w);
    assert!(solver.solve(10).is_empty());
    assert!(w.win());
}

#[test]
fn pour_keeps_every_color_total() {
    let mut w = WaterSorting::new();
    w.init_bottle_with_three_colors(Color::Green, Color::Red, Color::Red);
    w.init_bottle_with_two_colors(Color::Green, Color::Red);

    w.pour(0, 1).unwrap();

    let bytes = w.bottles();
    let reds = bytes.iter().filter(|&&b| b == 2).count();
    let greens = bytes.iter().filter(|&&b| b == 7).count();
    assert_eq!(reds, 3);
    assert_eq!(greens, 2);
}

#[test]
fn reset_keeps_the_undo_snapshot() {
    let mut w = WaterSorting::new();
    w.init_bottle_with_one_color(Color::Blue);
    w.init_bottle_with_one_color(Color::Blue);

    w.pour(0, 1).unwrap();
    w.reset();
    assert_eq!(w.bottles_count(), 0);

    w.undo();
    assert_eq!(w.bottles_count(), 2);
    assert_eq!(w.bottle_at(0).bottom, Some(Color::Blue));
    assert_eq!(w.bottle_at(1).bottom, Some(Color::Blue));
    assert!(w.bottle_at(1).l1.is_none());
}

#[test]
fn top_color_reports_the_highest_occupied_slot() {
    let mut w = WaterSorting::new();
    w.init_bottle_with_three_colors(Color::Green, Color::Red, Color::Blue);
    w.init_empty_bottle();

    assert_eq!(w.bottle_at(0).top_color(), Some(Color::Blue));
    assert_eq!(w.bottle_at(1).top_color(), None);
}
