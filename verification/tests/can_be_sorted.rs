use water_sort::{Color, WaterSorting};

#[test]
fn if_number_of_elements_for_each_color_is_not_equal_to_4_returns_false_two_colors() {
    let mut w1 = WaterSorting::new();
    w1.init_bottle_with_four_colors(Color::Orange, Color::Blue, Color::Orange, Color::Orange);
    w1.init_bottle_with_three_colors(Color::Orange, Color::Blue, Color::Blue);

    assert!(!w1.can_be_sorted())
}

#[test]
fn if_number_of_elements_for_each_color_is_not_equal_to_4_returns_false_three_colors() {
    let mut w1 = WaterSorting::new();
    w1.init_bottle_with_four_colors(Color::Orange, Color::Blue, Color::Orange, Color::Orange);
    w1.init_bottle_with_four_colors(Color::Orange, Color::Blue, Color::Blue, Color::Teal);
    w1.init_bottle_with_three_colors(Color::Blue, Color::Teal, Color::Teal);

    assert!(!w1.can_be_sorted())
}

#[test]
fn if_number_of_elements_for_each_color_is_not_equal_to_4_returns_false_four_colors() {
    let mut w1 = WaterSorting::new();
    w1.init_bottle_with_four_colors(Color::Orange, Color::Blue, Color::Orange, Color::Orange);
    w1.init_bottle_with_four_colors(Color::Orange, Color::Blue, Color::Blue, Color::Teal);
    w1.init_bottle_with_four_colors(Color::Teal, Color::Teal, Color::Green, Color::Green);
    w1.init_bottle_with_two_colors(Color::Teal, Color::Blue);

    assert!(!w1.can_be_sorted())
}

#[test]
fn if_number_of_elements_for_each_color_is_equal_to_4_returns_true_four_colors() {
    let mut w1 = WaterSorting::new();
    w1.init_bottle_with_four_colors(Color::Orange, Color::Blue, Color::Orange, Color::Orange);
    w1.init_bottle_with_four_colors(Color::Orange, Color::Blue, Color::Blue, Color::Teal);
    w1.init_bottle_with_four_colors(Color::Teal, Color::Teal, Color::Green, Color::Green);
    w1.init_bottle_with_three_colors(Color::Teal, Color::Blue, Color::Green);
    w1.init_bottle_with_one_color(Color::Green);

    assert!(w1.can_be_sorted())
}
