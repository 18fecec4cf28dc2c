use farkle::scoring::{bot_score_dice, find_points, score_dice};

fn points(dice: Vec<u8>) -> (usize, Vec<u8>) {
    let mut d = dice;
    find_points(&mut d)
}

#[test]
fn straight_scores_1500() {
    assert_eq!(points(vec![1, 2, 3, 4, 5, 6]), (1500, vec![]));
    assert_eq!(points(vec![3, 1, 4, 2, 6, 5]), (1500, vec![]));
}

#[test]
fn six_of_a_kind_scores_3000() {
    assert_eq!(points(vec![2, 2, 2, 2, 2, 2]), (3000, vec![]));
}

#[test]
fn two_triplets_score_2500() {
    assert_eq!(points(vec![2, 5, 2, 5, 2, 5]), (2500, vec![]));
}

#[test]
fn three_pairs_score_1500() {
    assert_eq!(points(vec![1, 1, 3, 3, 4, 4]), (1500, vec![]));
}

#[test]
fn five_of_a_kind_scores_2000() {
    assert_eq!(points(vec![4, 4, 2, 4, 4, 4]), (2000, vec![2]));
}

#[test]
fn four_of_a_kind_scores_1000() {
    assert_eq!(points(vec![6, 6, 1, 6, 6, 5]), (1000, vec![1, 5]));
}

#[test]
fn three_ones_score_300() {
    assert_eq!(points(vec![1, 2, 1, 3, 1, 4]), (300, vec![2, 3, 4]));
}

#[test]
fn three_of_a_kind_scores_face_times_100() {
    assert_eq!(points(vec![5, 5, 2, 5]), (500, vec![2]));
    assert_eq!(points(vec![6, 6, 6]), (600, vec![]));
}

#[test]
fn single_one_scores_100_and_leaves_the_rest_in_order() {
    assert_eq!(points(vec![2, 1, 3, 1]), (100, vec![2, 3, 1]));
}

#[test]
fn single_five_scores_50() {
    assert_eq!(points(vec![2, 3, 5, 5]), (50, vec![2, 3, 5]));
}

#[test]
fn nothing_scores_0() {
    assert_eq!(points(vec![2, 3, 4, 6]), (0, vec![2, 3, 4, 6]));
    assert_eq!(points(vec![]), (0, vec![]));
}

#[test]
fn find_points_leaves_its_argument_unchanged() {
    let mut d = vec![1, 5, 2];
    let _ = find_points(&mut d);
    assert_eq!(d, vec![1, 5, 2]);
}

#[test]
fn score_dice_adds_every_combination() {
    assert_eq!(score_dice(&mut vec![1, 5]), 150);
    assert_eq!(score_dice(&mut vec![1, 1, 1, 5]), 350);
    assert_eq!(score_dice(&mut vec![1, 2, 3, 4, 5, 6]), 1500);
}

#[test]
fn score_dice_refuses_a_die_that_does_not_score() {
    assert_eq!(score_dice(&mut vec![1, 2]), 0);
    assert_eq!(score_dice(&mut vec![1, 1, 1, 5, 2, 3]), 0);
    assert_eq!(score_dice(&mut vec![]), 0);
}

#[test]
fn score_dice_does_not_depend_on_order() {
    assert_eq!(score_dice(&mut vec![5, 1, 1, 1]), score_dice(&mut vec![1, 1, 5, 1]));
    assert_eq!(score_dice(&mut vec![2, 1]), score_dice(&mut vec![1, 2]));
}

#[test]
fn bot_score_dice_keeps_what_scores() {
    assert_eq!(bot_score_dice(&mut vec![1, 2]), (100, 1));
    assert_eq!(bot_score_dice(&mut vec![1, 1, 1, 5, 2, 3]), (350, 4));
    assert_eq!(bot_score_dice(&mut vec![2, 3, 4, 6]), (0, 0));
    assert_eq!(bot_score_dice(&mut vec![6, 6, 6, 6, 6, 6]), (3000, 6));
}

#[test]
fn scores_are_multiples_of_50() {
    for d in [vec![1u8], vec![5], vec![1, 5], vec![2, 2, 2], vec![5, 5, 5, 1, 1]] {
        assert_eq!(bot_score_dice(&mut d.clone()).0 % 50, 0);
        assert_eq!(score_dice(&mut d.clone()) % 50, 0);
    }
}
