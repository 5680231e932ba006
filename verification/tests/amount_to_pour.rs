use water_sort::{Bottle, Color};

#[test]
fn empty_bottle_has_zero_amount_to_pour() {
    let b = Bottle::empty(0);
    assert_eq!(0, b.amount_to_pour())
}

#[test]
fn bottle_with_just_one_entry_has_one_amount_to_pour() {
    let b = Bottle::with_one_color(0, Color::Orange);
    assert_eq!(1, b.amount_to_pour())
}

#[test]
fn bottle_with_two_entries_that_are_different_has_one_amount_to_pour() {
    let b = Bottle::with_two_colors(0, Color::Orange, Color::Green);
    assert_eq!(1, b.amount_to_pour())
}

#[test]
fn bottle_with_two_entries_that_are_same_has_two_amount_to_pour() {
    let b = Bottle::with_two_colors(0, Color::Orange, Color::Orange);
    assert_eq!(2, b.amount_to_pour())
}

#[test]
fn bottle_with_three_entries_that_two_top_are_different_has_one_amount_to_pour() {
    let b = Bottle::with_three_colors(0, Color::Orange, Color::Orange, Color::Green);
    assert_eq!(1, b.amount_to_pour())
}

#[test]
fn bottle_with_three_entries_that_two_top_are_same_has_two_amount_to_pour() {
    let b = Bottle::with_three_colors(0, Color::Brown, Color::Orange, Color::Orange);
    assert_eq!(2, b.amount_to_pour())
}

#[test]
fn bottle_with_three_entries_that_three_top_are_same_has_three_amount_to_pour() {
    let b = Bottle::with_three_colors(0, Color::Orange, Color::Orange, Color::Orange);
    assert_eq!(3, b.amount_to_pour())
}

#[test]
fn bottle_with_four_entries_that_top_are_different_has_one_amount_to_pour() {
    let b = Bottle::with_four_colors(0, Color::Orange, Color::Orange, Color::Orange, Color::Blue);
    assert_eq!(1, b.amount_to_pour())
}

#[test]
fn bottle_with_four_entries_that_top_two_are_same_has_two_amount_to_pour() {
    let b = Bottle::with_four_colors(0, Color::Orange, Color::Orange, Color::Blue, Color::Blue);
    assert_eq!(2, b.amount_to_pour())
}

#[test]
fn bottle_with_four_entries_that_top_three_are_same_has_three_amount_to_pour() {
    let b = Bottle::with_four_colors(0, Color::Orange, Color::Blue, Color::Blue, Color::Blue);
    assert_eq!(3, b.amount_to_pour())
}

#[test]
fn bottle_with_four_entries_that_top_four_are_same_has_four_amount_to_pour() {
    let b = Bottle::with_four_colors(0, Color::Blue, Color::Blue, Color::Blue, Color::Blue);
    assert_eq!(4, b.amount_to_pour())
}
