use farkle::extra::expected_value::{all_throws, count_farkles, total_score_of_all_throws};
use farkle::game::{player_play_roll, Player};

#[test]
fn all_throws_lists_each_throw_once() {
    for n in 0..=3u8 {
        let throws = all_throws(n);
        assert_eq!(throws.len(), 6usize.pow(n as u32));
        let mut sorted = throws.clone();
        sorted.sort();
        sorted.dedup();
        assert_eq!(sorted.len(), throws.len());
        assert!(throws.iter().all(|t| t.len() == n as usize && t.iter().all(|d| (1..=6).contains(d))));
    }
}

#[test]
fn farkle_chances_of_one_to_six_dice() {
    // 2/3, 4/9, 5/18, 1 in 6.35, 1 in 13 (600 of 7776), 5/216
    let expected = [4, 16, 60, 204, 600, 1080];
    for n in 1..=6u8 {
        assert_eq!(count_farkles(n), expected[n as usize - 1]);
    }
    assert_eq!(count_farkles(1) * 3, 6 * 2);
    assert_eq!(count_farkles(2) * 9, 36 * 4);
    assert_eq!(count_farkles(3) * 18, 216 * 5);
    assert_eq!(count_farkles(6) * 216, 46656 * 5);
}

#[test]
fn expected_values_of_one_to_six_dice() {
    let totals = [150, 1800, 18050, 172000, 1580750, 17925000];
    let means = [25, 50, 83, 132, 203, 384];
    for n in 1..=6u8 {
        let total = total_score_of_all_throws(n);
        assert_eq!(total, totals[n as usize - 1]);
        assert_eq!(total / 6usize.pow(n as u32), means[n as usize - 1]);
    }
}

#[test]
fn player_throw_without_points_is_a_farkle() {
    let mut players = vec![Player::new("a", false), Player::new("b", true)];
    players[0].tmp = 250;
    let mut turn = 0;
    let mut dice = vec![2, 3, 4, 6];
    assert!(player_play_roll(&mut players, &mut turn, &mut dice));
    assert_eq!((players[0].tmp, turn), (0, 1));
    assert_eq!(dice, vec![2, 3, 4, 6]);
}

#[test]
fn player_throw_with_points_changes_nothing_yet() {
    let mut players = vec![Player::new("a", false), Player::new("b", true)];
    players[0].tmp = 250;
    let mut turn = 0;
    let mut dice = vec![2, 5, 4, 6];
    assert!(!player_play_roll(&mut players, &mut turn, &mut dice));
    assert_eq!((players[0].tmp, turn), (250, 0));
}
