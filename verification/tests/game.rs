use farkle::dice::{roll_die, roll_n_die};
use farkle::extra::expected_value;
use farkle::game::{
    bot_play_roll, can_pass, end_round, game_over, held_dice, hold_dice, key_to_position, menu_down,
    menu_up, new_players, pass_the_dice, player_take_score, refill_dice, sleep_base_for, winner,
    Player,
};

fn table(totals: &[usize]) -> Vec<Player> {
    totals
        .iter()
        .map(|t| {
            let mut p = Player::new("p", true);
            p.total = *t;
            p
        })
        .collect()
}

#[test]
fn new_player_has_no_points() {
    let p = Player::new("Davis", false);
    assert_eq!(p.name, "Davis");
    assert_eq!((p.total, p.tmp, p.bot), (0, 0, false));
}

#[test]
fn roll_gives_faces_one_to_six() {
    for _ in 0..100 {
        let d = roll_die();
        assert!((1..=6).contains(&d));
    }
    let dice = roll_n_die(5);
    assert_eq!(dice.len(), 5);
    assert!(dice.iter().all(|d| (1..=6).contains(d)));
    assert!(roll_n_die(0).is_empty());
}

#[test]
fn passing_needs_500_points() {
    let mut players = table(&[0]);
    players[0].tmp = 400;
    assert!(!can_pass(&players, &0));
    assert!(!pass_the_dice(&players, &0, &1));
    players[0].total = 100;
    assert!(can_pass(&players, &0));
}

#[test]
fn bot_passes_when_a_throw_is_not_worth_it() {
    let mut players = table(&[0]);
    players[0].tmp = 500;
    assert!(pass_the_dice(&players, &0, &1));
    assert!(!pass_the_dice(&players, &0, &6));
    players[0].tmp = 0;
    players[0].total = 1000;
    assert!(!pass_the_dice(&players, &0, &1));
}

#[test]
fn banking_moves_round_points_to_total() {
    let mut players = table(&[100, 200]);
    players[1].tmp = 350;
    let mut turn = 1;
    end_round(&mut players, &mut turn, true);
    assert_eq!((players[1].total, players[1].tmp), (550, 0));
    assert_eq!(players[0].total, 100);
    assert_eq!(turn, 0);
}

#[test]
fn farkle_loses_round_points() {
    let mut players = table(&[100, 200]);
    players[0].tmp = 350;
    let mut turn = 0;
    end_round(&mut players, &mut turn, false);
    assert_eq!((players[0].total, players[0].tmp), (100, 0));
    assert_eq!(turn, 1);
}

#[test]
fn refill_gives_six_dice_when_none_left() {
    let mut n = 0;
    refill_dice(&mut n);
    assert_eq!(n, 6);
    let mut n = 3;
    refill_dice(&mut n);
    assert_eq!(n, 3);
}

#[test]
fn bot_roll_without_points_is_a_farkle() {
    let mut players = table(&[0, 0]);
    players[0].tmp = 300;
    let mut turn = 0;
    let mut dice = vec![2, 3, 4, 6];
    let mut n = 4;
    let mut score = 7;
    assert!(bot_play_roll(&mut players, &mut turn, &mut dice, &mut n, &mut score));
    assert_eq!((players[0].tmp, turn, n, score), (0, 1, 4, 7));
}

#[test]
fn bot_roll_keeps_scoring_dice() {
    let mut players = table(&[0, 0]);
    players[0].tmp = 300;
    let mut turn = 0;
    let mut dice = vec![1, 1, 1, 5, 2, 3];
    let mut n = 6;
    let mut score = 0;
    assert!(!bot_play_roll(&mut players, &mut turn, &mut dice, &mut n, &mut score));
    assert_eq!((players[0].tmp, turn, n, score), (650, 0, 2, 350));
}

#[test]
fn keys_one_to_six_select_dice() {
    assert_eq!(key_to_position(b'1', 6), Some(0));
    assert_eq!(key_to_position(b'3', 3), Some(2));
    assert_eq!(key_to_position(b'6', 3), None);
    assert_eq!(key_to_position(b'a', 6), None);
    assert_eq!(key_to_position(b'0', 6), None);
}

#[test]
fn holding_toggles_and_twice_undoes() {
    let held = hold_dice(vec![false, false, false], 1);
    assert_eq!(held, vec![false, true, false]);
    assert_eq!(hold_dice(held, 1), vec![false, false, false]);
}

#[test]
fn held_dice_are_selected_in_order() {
    assert_eq!(held_dice(&vec![1, 2, 3], &vec![true, false, true]), vec![1, 3]);
    assert_eq!(held_dice(&vec![1, 2, 3], &vec![false, false, false]), Vec::<u8>::new());
}

#[test]
fn player_scores_held_dice() {
    let mut players = table(&[0]);
    let mut n = 3;
    let mut score = 0;
    let ok = player_take_score(&mut players, &0, &vec![1, 5, 2], &vec![true, true, false], &mut n, &mut score);
    assert!(ok);
    assert_eq!((players[0].tmp, n, score), (150, 1, 150));
}

#[test]
fn player_cannot_hold_a_useless_die() {
    let mut players = table(&[0]);
    players[0].tmp = 100;
    let mut n = 3;
    let mut score = 50;
    let ok = player_take_score(&mut players, &0, &vec![1, 5, 2], &vec![true, false, true], &mut n, &mut score);
    assert!(!ok);
    assert_eq!((players[0].tmp, n, score), (100, 3, 0));
}

#[test]
fn game_ends_at_5000() {
    assert!(!game_over(&table(&[4999, 0])));
    assert!(game_over(&table(&[4999, 5000])));
    assert!(!game_over(&table(&[])));
}

#[test]
fn winner_is_last_of_the_highest() {
    assert_eq!(winner(&table(&[10, 30, 30, 5])), 2);
    assert_eq!(winner(&table(&[7])), 0);
    assert_eq!(winner(&table(&[9, 3])), 0);
}

#[test]
fn menu_wraps_around() {
    assert_eq!(menu_up(0, 3), 2);
    assert_eq!(menu_up(2, 3), 1);
    assert_eq!(menu_down(2, 3), 0);
    assert_eq!(menu_down(0, 3), 1);
    for s in 0..3 {
        assert_eq!(menu_down(menu_up(s, 3), 3), s);
        assert_eq!(menu_up(menu_down(s, 3), 3), s);
    }
}

#[test]
fn quick_mode_does_not_wait() {
    assert_eq!(sleep_base_for(1), 0);
    assert_eq!(sleep_base_for(0), 1);
    assert_eq!(sleep_base_for(2), 1);
}

#[test]
fn table_has_human_then_bots() {
    let names = vec!["Billy", "Charlie", "Debbie"];
    let players = new_players("Davis", &names, 2);
    assert_eq!(players.len(), 3);
    assert_eq!(players[0].name, "Davis");
    assert!(!players[0].bot);
    for p in &players[1..] {
        assert!(p.bot);
        assert!(p.name == "Charlie" || p.name == "Debbie");
        assert_eq!((p.total, p.tmp), (0, 0));
    }
}

#[test]
fn partial_score_counts_what_scores() {
    assert_eq!(expected_value::score_dice(&mut vec![1, 2]), 100);
    assert_eq!(expected_value::score_dice(&mut vec![2, 3]), 0);
    assert_eq!(expected_value::score_dice(&mut vec![5, 5, 5, 1]), 600);
}

#[test]
fn average_rounds_down() {
    assert_eq!(expected_value::average(vec![1, 2, 3, 4]), 2);
    assert_eq!(expected_value::average(vec![10]), 10);
}

#[test]
fn expected_score_stays_within_500_per_die() {
    for n in 1..=6u8 {
        let m = expected_value::expected_score(n, 200);
        assert!(m <= 500 * n as usize);
    }
}
