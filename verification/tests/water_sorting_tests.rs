use water_sort::Color;
use water_sort::WaterSolver;
use water_sort::{Bottle, WaterSorting};

#[test]
fn reset_removes_all_the_elements() {
    let mut w = WaterSorting::new();
    w.init_bottle_with_one_color(Color::Blue);

    w.reset();

    assert_eq!(w.bottles_count(), 0);
}

#[test]
fn pour_works_on_one_level() {
    let mut w = WaterSorting::new();
    w.init_bottle_with_one_color(Color::Blue);
    w.init_bottle_with_two_colors(Color::Orange, Color::Blue);

    w.pour(1, 0).unwrap();

    assert_eq!(w.bottle_at(0).bottom, Some(Color::Blue));
    assert!(w.bottle_at(1).l1.is_none());
    assert_eq!(w.bottle_at(1).bottom, Some(Color::Orange));
}

#[test]
fn pour_works_on_empty_bottle() {
    let mut w = WaterSorting::new();
    w.init_bottle_with_one_color(Color::Blue);
    w.init_empty_bottle();

    w.pour(1, 0).unwrap();
    assert!(w.bottle_at(1).bottom.is_none());
    assert_eq!(w.bottle_at(0).bottom, Some(Color::Blue));
}

#[test]
fn pour_works_on_multiple_levels() {
    let mut w = WaterSorting::new();
    w.init_bottle_with_one_color(Color::Blue);
    w.init_bottle_with_two_colors(Color::Blue, Color::Blue);

    w.pour(1, 0).unwrap();

    assert_eq!(w.bottle_at(0).bottom, Some(Color::Blue));
    assert_eq!(w.bottle_at(0).l1, Some(Color::Blue));
    assert_eq!(w.bottle_at(0).l2, Some(Color::Blue));
    assert!(w.bottle_at(1).l1.is_none());
    assert!(w.bottle_at(1).bottom.is_none());
}

#[test]
fn pour_works_on_multiple_levels_with_different_bottom_one() {
    let mut w = WaterSorting::new();
    w.init_bottle_with_one_color(Color::Blue);
    w.init_bottle_with_three_colors(Color::Orange, Color::Blue, Color::Blue);

    w.pour(1, 0).unwrap();

    assert_eq!(w.bottle_at(0).bottom, Some(Color::Blue));
    assert_eq!(w.bottle_at(0).l1, Some(Color::Blue));
    assert_eq!(w.bottle_at(0).l2, Some(Color::Blue));
    assert!(w.bottle_at(1).l1.is_none());
    assert_eq!(w.bottle_at(1).bottom, Some(Color::Orange));
}

#[test]
fn undo_restore_previous_level() {
    let mut w = WaterSorting::new();
    w.init_bottle_with_one_color(Color::Blue);
    w.init_bottle_with_two_colors(Color::Orange, Color::Blue);

    w.pour(1, 0).unwrap();

    w.undo();

    assert_eq!(w.bottle_at(0).bottom, Some(Color::Blue));
    assert!(w.bottle_at(0).l1.is_none());
    assert_eq!(w.bottle_at(1).bottom, Some(Color::Orange));
    assert_eq!(w.bottle_at(1).l1, Some(Color::Blue));
}

#[test]
fn undo_restore_only_the_last_state() {
    let mut w = WaterSorting::new();
    w.init_bottle_with_one_color(Color::Blue);
    w.init_bottle_with_two_colors(Color::Orange, Color::Blue);
    w.init_empty_bottle();

    w.pour(1, 0).unwrap();
    w.pour(1, 2).unwrap();

    w.undo();

    assert_eq!(w.bottle_at(0).bottom, Some(Color::Blue));
    assert_eq!(w.bottle_at(0).l1, Some(Color::Blue));
    assert_eq!(w.bottle_at(1).bottom, Some(Color::Orange));
    assert!(w.bottle_at(2).bottom.is_none());
}

#[test]
fn bottle_is_sorted_if_only_one_color_on_one_level() {
    let b = Bottle::with_one_color(0, Color::Blue);
    assert!(b.is_empty_or_one_color())
}

#[test]
fn bottle_is_sorted_if_only_one_color_is_one_two_levels() {
    let b = Bottle::with_two_colors(0, Color::Blue, Color::Blue);
    assert!(b.is_empty_or_one_color())
}

#[test]
fn bottle_is_not_sorted_if_different_colors_on_two_bottom_levels() {
    let b = Bottle::with_two_colors(0, Color::Blue, Color::Orange);
    assert!(!b.is_empty_or_one_color())
}

#[test]
fn bottle_is_not_sorted_if_different_colors_on_two_middle_levels() {
    let b = Bottle::with_three_colors(0, Color::Blue, Color::Orange, Color::Blue);
    assert!(!b.is_empty_or_one_color())
}

#[test]
fn bottle_is_not_sorted_if_different_colors_on_two_top_levels() {
    let b = Bottle::new(
        None,
        Some(Color::Blue),
        Some(Color::Blue),
        Some(Color::Orange),
        Some(Color::Blue),
    );
    assert!(!b.is_empty_or_one_color())
}

#[test]
fn game_is_won_if_all_bottles_are_sorted() {
    let mut w = WaterSorting::new();
    w.init_bottle_with_one_color(Color::Blue);
    w.init_bottle_with_three_colors(Color::Blue, Color::Blue, Color::Blue);

    w.pour(0, 1).unwrap();

    assert!(w.win())
}

#[test]
fn game_is_won_if_all_bottles_are_sorted_in_full() {
    let mut w = WaterSorting::new();
    w.init_bottle_with_one_color(Color::Red);
    w.init_bottle_with_one_color(Color::Magenta);
    w.init_bottle_with_three_colors(Color::Red, Color::Red, Color::Red);
    w.init_bottle_with_three_colors(Color::Magenta, Color::Magenta, Color::Magenta);

    assert!(!w.win())
}

#[test]
fn if_there_is_an_empty_bottle_move_is_available() {
    let mut w = WaterSorting::new();
    w.init_empty_bottle();

    assert!(w.move_available())
}

#[test]
fn if_there_are_all_full_bottles_move_is_not_available() {
    let mut w = WaterSorting::new();

    w.init_bottle_with_three_colors(Color::Blue, Color::Blue, Color::Blue);
    w.init_bottle_with_four_colors(Color::Green, Color::Green, Color::Green, Color::Green);

    assert!(!w.move_available())
}

#[test]
fn if_top_colors_do_not_match_if_there_is_room_move_is_not_available() {
    let mut w = WaterSorting::new();
    w.init_bottle_with_two_colors(Color::Blue, Color::Magenta);
    w.init_bottle_with_two_colors(Color::Magenta, Color::Blue);

    assert!(!w.move_available())
}

#[test]
fn if_top_colors_do_not_match_if_there_is_no_room_move_is_not_available() {
    let mut w = WaterSorting::new();
    w.init_bottle_with_four_colors(Color::Blue, Color::Magenta, Color::Red, Color::Green);
    w.init_bottle_with_four_colors(Color::Magenta, Color::Blue, Color::Red, Color::Green);

    assert!(!w.move_available())
}

#[test]
fn if_top_colors_do_match_if_there_is_room_move_is_available() {
    let mut w = WaterSorting::new();
    w.init_bottle_with_two_colors(Color::Blue, Color::Magenta);
    w.init_bottle_with_two_colors(Color::Blue, Color::Magenta);

    assert!(w.move_available())
}

#[test]
fn solve_real_game() {
    let mut w = WaterSorting::new();
    w.init_bottle_with_four_colors(Color::Green, Color::Red, Color::Green, Color::Red);
    w.init_bottle_with_four_colors(Color::Red, Color::Green, Color::Red, Color::Green);
    w.init_empty_bottle();

    w.pour(1, 2).unwrap();
    w.pour(0, 1).unwrap();
    w.pour(0, 2).unwrap();
    w.pour(1, 0).unwrap();
    w.pour(1, 2).unwrap();
    w.pour(0, 1).unwrap();
    w.pour(2, 0).unwrap();

    assert!(w.win());
}

#[test]
fn pour_as_much_as_possible() {
    let mut w = WaterSorting::new();
    w.init_bottle_with_three_colors(Color::Green, Color::Red, Color::Red);
    w.init_bottle_with_three_colors(Color::Green, Color::Red, Color::Red);

    w.pour(0, 1).unwrap();

    let b1 = w.bottle_at(0);
    let b2 = w.bottle_at(1);

    assert_eq!(b1.bottom, Some(Color::Green));
    assert_eq!(b1.l1, Some(Color::Red));
    assert!(b1.l2.is_none());
    assert!(b1.top.is_none());
    assert_eq!(b2.bottom, Some(Color::Green));
    assert_eq!(b2.l1, Some(Color::Red));
    assert_eq!(b2.l2, Some(Color::Red));
    assert_eq!(b2.top, Some(Color::Red));
}

#[test]
fn solve_automatically() {
    let mut w = WaterSorting::new();
    w.init_bottle_with_four_colors(Color::Green, Color::Green, Color::Green, Color::Red);
    w.init_bottle_with_four_colors(Color::Red, Color::Red, Color::Red, Color::Green);
    w.init_empty_bottle();

    let solver = WaterSolver::new(&w);

    let moves = solver.solve(10);

    for _move in moves.iter() {
        w.pour(_move.from, _move.to).unwrap()
    }
    assert!(w.win());
}
