use farkle::display::{die_column, die_middle_row, draw_blank_dice, score_column};

#[test]
fn scores_are_right_aligned_in_seven_columns() {
    assert_eq!(score_column(1234), "   1234");
    assert_eq!(score_column(0), "      0");
    assert_eq!(score_column(1234567), "1234567");
}

#[test]
fn long_scores_are_cut_to_seven_digits() {
    assert_eq!(score_column(123456789), "1234567");
}

#[test]
fn die_pictures() {
    assert_eq!(die_middle_row(0), "│   │");
    assert_eq!(die_middle_row(3), "│ 3 │");
    assert_eq!(die_middle_row(6), "│ 6 │");
}

#[test]
fn dice_stand_six_columns_apart() {
    assert_eq!(die_column(0), 2);
    assert_eq!(die_column(5), 32);
}

#[test]
fn blank_dice_show_no_face() {
    assert_eq!(draw_blank_dice(&3), vec![0, 0, 0]);
    assert!(draw_blank_dice(&0).is_empty());
}
