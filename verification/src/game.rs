use vstd::prelude::*;
use crate::dice::gen_range;
use crate::scoring::{
    bot_score_dice, count, find_points, find_points_spec, lemma_count_le_len, lemma_run_points_le,
    run_points, run_rest, score_dice, score_dice_spec,
};

verus! {

/// The total at which a player wins the game.
pub const WINNING_SCORE: usize = 5000;

/// The points a player must hold (banked and this round's together) before passing.
pub const PASS_THRESHOLD: usize = 500;

/// A player of the game: banked points (`total`) and the points of the round under way (`tmp`).
pub struct Player {
    pub name: String,
    pub total: usize,
    pub tmp: usize,
    pub bot: bool,
}

impl Player {
    /// A player with no points yet.
    pub fn new(name: &str, bot: bool) -> (p: Self)
        ensures
            p.name@ == name@,
            p.total == 0,
            p.tmp == 0,
            p.bot == bot,
    {
        Player { name: String::from_str(name), total: 0, tmp: 0, bot }
    }
}

/// The player after `turn` in a table of `n` players.
pub open spec fn next_turn_spec(turn: int, n: int) -> int {
    (turn + 1) % n
}

/// The players after the current one ends a round that banks `tmp` (`bank`) or loses it.
pub open spec fn end_round_spec(old_players: Seq<Player>, turn: int, bank: bool) -> Seq<Player> {
    let p = old_players[turn];
    old_players.update(
        turn,
        (Player {
            name: p.name,
            total: if bank { (p.total + p.tmp) as usize } else { p.total },
            tmp: 0,
            bot: p.bot,
        }),
    )
}

/// Ends the round of the player at `turn`: when `bank`, the round's points join the
/// player's total, else they are lost; the dice pass to the next player.
pub fn end_round(players: &mut Vec<Player>, turn: &mut usize, bank: bool)
    requires
        *old(turn) < old(players).len(),
        bank ==> old(players)@[*old(turn) as int].total + old(players)@[*old(turn) as int].tmp
            <= usize::MAX,
    ensures
        final(players)@ == end_round_spec(old(players)@, *old(turn) as int, bank),
        *final(turn) == next_turn_spec(*old(turn) as int, old(players)@.len() as int),
{
    let t = *turn;
    if bank {
        players[t].total = players[t].total + players[t].tmp;
    }
    players[t].tmp = 0;
    *turn = (t + 1) % players.len();
}


/// Ending a round touches only the current player: banking moves the round's points
/// into the total, losing them leaves the total as it was, either way the round's
/// points are then 0, and everybody else keeps their points.
pub proof fn lemma_end_round(players: Seq<Player>, turn: int, bank: bool)
    requires
        0 <= turn < players.len(),
        bank ==> players[turn].total + players[turn].tmp <= usize::MAX,
    ensures
        end_round_spec(players, turn, bank).len() == players.len(),
        end_round_spec(players, turn, bank)[turn].total == if bank {
            players[turn].total + players[turn].tmp
        } else {
            players[turn].total as int
        },
        end_round_spec(players, turn, bank)[turn].tmp == 0,
        end_round_spec(players, turn, bank)[turn].name == players[turn].name,
        end_round_spec(players, turn, bank)[turn].bot == players[turn].bot,
        forall|j: int| 0 <= j < players.len() && j != turn ==> #[trigger] end_round_spec(players, turn, bank)[j]
            == players[j],
{
}

/// The player holds enough points, banked and from this round, to pass the dice.
pub open spec fn can_pass_spec(p: Player) -> bool {
    p.tmp + p.total >= PASS_THRESHOLD
}

/// Whether the player at `turn` may pass the dice.
pub fn can_pass(players: &Vec<Player>, turn: &usize) -> (r: bool)
    requires
        *turn < players.len(),
        players@[*turn as int].tmp + players@[*turn as int].total <= usize::MAX,
    ensures
        r == can_pass_spec(players@[*turn as int]),
{
    players[*turn].tmp + players[*turn].total >= PASS_THRESHOLD
}

/// What a throw of `n` dice (1 to 6) promises: its expected score `e`, and its chance of
/// scoring nothing (a farkle) as the fraction `a / b`, with `(b - a) / b` the chance of
/// scoring.
pub open spec fn roll_stats(n: int) -> (int, int, int) {
    if n == 1 {
        (24, 2, 3)
    } else if n == 2 {
        (49, 4, 9)
    } else if n == 3 {
        (83, 5, 18)
    } else if n == 4 {
        (132, 20, 127)
    } else if n == 5 {
        (203, 1, 13)
    } else {
        (384, 5, 216)
    }
}

/// A bot passes when it may, and when throwing `n` dice is not expected to gain:
/// `e + tmp * (-a / b) + tmp * ((b - a) / b) <= tmp`, here multiplied through by `b`.
pub open spec fn pass_the_dice_spec(p: Player, n: int) -> bool {
    let (e, a, b) = roll_stats(n);
    can_pass_spec(p) && e * b + p.tmp * (b - a) - p.tmp * a <= p.tmp * b
}

/// The bot's choice: pass the dice (true) or throw the `n_dice` dice it has.
pub fn pass_the_dice(players: &Vec<Player>, turn: &usize, n_dice: &u8) -> (pass: bool)
    requires
        *turn < players.len(),
        players@[*turn as int].tmp + players@[*turn as int].total <= usize::MAX,
        can_pass_spec(players@[*turn as int]) ==> 1 <= *n_dice <= 6,
    ensures
        pass == pass_the_dice_spec(players@[*turn as int], *n_dice as int),
        1 <= *n_dice <= 6 ==> (pass <==> (players@[*turn as int].tmp + players@[*turn as int].total >= 500
            && players@[*turn as int].tmp >= if *n_dice == 1 {
            18int
        } else if *n_dice == 2 {
            56int
        } else if *n_dice == 3 {
            150int
        } else if *n_dice == 4 {
            420int
        } else if *n_dice == 5 {
            1320int
        } else {
            8295int
        })),
{
    proof {
        if 1 <= *n_dice <= 6 {
            lemma_pass_threshold(players@[*turn as int], *n_dice as int);
        }
    }
    if !can_pass(players, turn) {
        return false;
    }
    let (e, a, b): (u128, u128, u128) = match *n_dice {
        1 => (24, 2, 3),
        2 => (49, 4, 9),
        3 => (83, 5, 18),
        4 => (132, 20, 127),
        5 => (203, 1, 13),
        _ => (384, 5, 216),
    };
    let tmp = players[*turn].tmp as u128;
    proof {
        assert(tmp * b <= 0xffff_ffff_ffff_ffffu128 * 216) by (nonlinear_arith)
            requires
                tmp <= 0xffff_ffff_ffff_ffffu128,
                b <= 216,
        ;
        assert(tmp * (b - a) <= tmp * b) by (nonlinear_arith)
            requires
                a <= b,
        ;
        assert(tmp * a <= tmp * b) by (nonlinear_arith)
            requires
                a <= b,
        ;
    }
    e * b + tmp * (b - a) <= tmp * b + tmp * a
}

/// Once the player holds 500 points, the bot passes exactly when the round's points
/// reach the least score at which another throw of `n` dice is expected to lose:
/// 18, 56, 150, 420, 1320 and 8295 points for one to six dice.
pub proof fn lemma_pass_threshold(p: Player, n: int)
    requires
        1 <= n <= 6,
    ensures
        pass_the_dice_spec(p, n) <==> (p.tmp + p.total >= 500 && p.tmp >= if n == 1 {
            18int
        } else if n == 2 {
            56int
        } else if n == 3 {
            150int
        } else if n == 4 {
            420int
        } else if n == 5 {
            1320int
        } else {
            8295int
        }),
{
    let t = p.tmp as int;
    if n == 1 {
        assert(roll_stats(n) == (24int, 2int, 3int));
        assert(24 * 3 + t * (3 - 2) - t * 2 <= t * 3 <==> t >= 18);
    } else if n == 2 {
        assert(roll_stats(n) == (49int, 4int, 9int));
        assert(49 * 9 + t * (9 - 4) - t * 4 <= t * 9 <==> t >= 56);
    } else if n == 3 {
        assert(roll_stats(n) == (83int, 5int, 18int));
        assert(83 * 18 + t * (18 - 5) - t * 5 <= t * 18 <==> t >= 150);
    } else if n == 4 {
        assert(roll_stats(n) == (132int, 20int, 127int));
        assert(132 * 127 + t * (127 - 20) - t * 20 <= t * 127 <==> t >= 420);
    } else if n == 5 {
        assert(roll_stats(n) == (203int, 1int, 13int));
        assert(203 * 13 + t * (13 - 1) - t * 1 <= t * 13 <==> t >= 1320);
    } else {
        assert(roll_stats(n) == (384int, 5int, 216int));
        assert(384 * 216 + t * (216 - 5) - t * 5 <= t * 216 <==> t >= 8295);
    }
}

/// A round starts with all six dice when the player has none left to throw.
pub fn refill_dice(n_dice: &mut u8)
    ensures
        *final(n_dice) == if *old(n_dice) == 0 { 6 } else { *old(n_dice) },
{
    if *n_dice == 0 {
        *n_dice = 6;
    }
}


/// What the bot's throw `dice` does to the round: no combination means a farkle, which
/// loses the round's points and passes the dice (true); else the bot keeps every
/// combination it finds, adds their points, and throws the unused dice next (false).
pub fn bot_play_roll(
    players: &mut Vec<Player>,
    turn: &mut usize,
    dice: &mut Vec<u8>,
    n_dice: &mut u8,
    score: &mut usize,
) -> (round_over: bool)
    requires
        *old(turn) < old(players).len(),
        old(dice).len() == *old(n_dice),
        old(players)@[*old(turn) as int].tmp + run_points(old(dice)@) <= usize::MAX,
    ensures
        *final(dice) == *old(dice),
        round_over == (find_points_spec(old(dice)@).0 == 0),
        round_over ==> final(players)@ == end_round_spec(old(players)@, *old(turn) as int, false)
            && *final(turn) == next_turn_spec(*old(turn) as int, old(players)@.len() as int)
            && *final(n_dice) == *old(n_dice) && *final(score) == *old(score),
        !round_over ==> *final(score) == run_points(old(dice)@) && *final(turn) == *old(turn)
            && *final(n_dice) == *old(n_dice) - (old(dice)@.len() - run_rest(old(dice)@).len())
            && final(players)@ == old(players)@.update(
            *old(turn) as int,
            (Player {
                tmp: (old(players)@[*old(turn) as int].tmp + run_points(old(dice)@)) as usize,
                ..old(players)@[*old(turn) as int]
            }),
        ),
{
    proof {
        assert forall|v: u8| count(dice@, v) <= 255 by {
            lemma_count_le_len(dice@, v);
        }
    }
    let (possible_points, _) = find_points(dice);
    if possible_points == 0 {
        end_round(players, turn, false);
        return true;
    }
    let (points, n_used) = bot_score_dice(dice);
    *score = points;
    let t = *turn;
    players[t].tmp = players[t].tmp + points;
    *n_dice = *n_dice - n_used as u8;
    false
}


/// The held marks after the die at `pos` is toggled.
pub open spec fn hold_spec(held: Seq<bool>, pos: int) -> Seq<bool> {
    held.update(pos, !held[pos])
}

/// What the player's throw `dice` does to the round before any die is held: no
/// combination means a farkle, which loses the round's points and passes the dice
/// (true); else nothing changes yet and the player picks dice to hold (false).
pub fn player_play_roll(players: &mut Vec<Player>, turn: &mut usize, dice: &mut Vec<u8>) -> (round_over: bool)
    requires
        *old(turn) < old(players).len(),
        old(dice).len() <= 255,
    ensures
        *final(dice) == *old(dice),
        round_over == (find_points_spec(old(dice)@).0 == 0),
        round_over ==> final(players)@ == end_round_spec(old(players)@, *old(turn) as int, false)
            && *final(turn) == next_turn_spec(*old(turn) as int, old(players)@.len() as int),
        !round_over ==> final(players)@ == old(players)@ && *final(turn) == *old(turn),
{
    proof {
        assert forall|v: u8| count(dice@, v) <= 255 by {
            lemma_count_le_len(dice@, v);
        }
    }
    let (possible_points, _) = find_points(dice);
    if possible_points == 0 {
        end_round(players, turn, false);
        return true;
    }
    false
}

/// Toggles whether the die at `pos` is held.
pub fn hold_dice(held: Vec<bool>, pos: u8) -> (r: Vec<bool>)
    requires
        pos < held.len(),
    ensures
        r@ == hold_spec(held@, pos as int),
{
    let mut held = held;
    let b = held[pos as usize];
    held.set(pos as usize, !b);
    held
}

/// Selecting the same die twice leaves the held dice as they were.
pub proof fn lemma_hold_twice(held: Seq<bool>, pos: int)
    requires
        0 <= pos < held.len(),
    ensures
        hold_spec(hold_spec(held, pos), pos) == held,
{
    assert(hold_spec(hold_spec(held, pos), pos) =~= held);
}

/// The key codes of '1' and '6', which select the dice by position.
pub const ASCII_ONE: u8 = 49;
pub const ASCII_SIX: u8 = 54;

/// The die that the key `key` selects among `n_dice` dice: '1' to '6' select the
/// first to the sixth die, where there is one.
pub fn key_to_position(key: u8, n_dice: usize) -> (pos: Option<u8>)
    ensures
        pos == if ASCII_ONE <= key <= ASCII_SIX && key - ASCII_ONE < n_dice {
            Some((key - ASCII_ONE) as u8)
        } else {
            None::<u8>
        },
{
    if ASCII_ONE <= key && key <= ASCII_SIX {
        let pos = key - ASCII_ONE;
        if (pos as usize) < n_dice {
            return Some(pos);
        }
    }
    None
}

/// The dice of `dice` whose place in `held` is set, in their order.
pub open spec fn selected(dice: Seq<u8>, held: Seq<bool>) -> Seq<u8>
    decreases dice.len(),
{
    if dice.len() == 0 || held.len() == 0 {
        Seq::empty()
    } else if held.last() {
        selected(dice.drop_last(), held.drop_last()).push(dice.last())
    } else {
        selected(dice.drop_last(), held.drop_last())
    }
}

proof fn lemma_selected_len(dice: Seq<u8>, held: Seq<bool>)
    ensures
        selected(dice, held).len() <= dice.len(),
    decreases dice.len(),
{
    if dice.len() > 0 && held.len() > 0 {
        lemma_selected_len(dice.drop_last(), held.drop_last());
    }
}

/// The positions of the held dice, in increasing order.
proof fn held_positions(dice: Seq<u8>, held: Seq<bool>) -> (idx: Seq<int>)
    requires
        dice.len() == held.len(),
    ensures
        idx.len() == selected(dice, held).len(),
        forall|k: int| 0 <= k < idx.len() ==> 0 <= #[trigger] idx[k] < dice.len() && held[idx[k]]
            && selected(dice, held)[k] == dice[idx[k]],
        forall|k: int, l: int| 0 <= k < l < idx.len() ==> idx[k] < idx[l],
        forall|i: int| 0 <= i < dice.len() && #[trigger] held[i] ==> idx.contains(i),
    decreases dice.len(),
{
    if dice.len() == 0 {
        Seq::empty()
    } else {
        let d = dice.drop_last();
        let h = held.drop_last();
        let prev = held_positions(d, h);
        let n = dice.len() - 1;
        let idx = if held.last() { prev.push(n) } else { prev };
        assert forall|k: int| 0 <= k < idx.len() implies 0 <= #[trigger] idx[k] < dice.len()
            && held[idx[k]] && selected(dice, held)[k] == dice[idx[k]] by {
            if k < prev.len() {
                assert(idx[k] == prev[k]);
                assert(held[prev[k]] == h[prev[k]]);
                assert(dice[prev[k]] == d[prev[k]]);
            }
        }
        assert forall|i: int| 0 <= i < dice.len() && #[trigger] held[i] implies idx.contains(i) by {
            if i < n {
                assert(h[i] == held[i]);
                assert(prev.contains(i));
                let k = choose|k: int| 0 <= k < prev.len() && prev[k] == i;
                assert(idx[k] == i);
            } else {
                assert(idx[idx.len() - 1] == i);
            }
        }
        idx
    }
}

/// `r` is the dice of `dice` at the positions `idx`: each such position is held, the
/// positions increase, and every held position is among them.
pub open spec fn picks_held(dice: Seq<u8>, held: Seq<bool>, idx: Seq<int>, r: Seq<u8>) -> bool {
    &&& idx.len() == r.len()
    &&& forall|k: int| 0 <= k < idx.len() ==> 0 <= #[trigger] idx[k] < dice.len() && held[idx[k]]
        && r[k] == dice[idx[k]]
    &&& forall|k: int, l: int| 0 <= k < l < idx.len() ==> idx[k] < idx[l]
    &&& forall|i: int| 0 <= i < dice.len() && #[trigger] held[i] ==> idx.contains(i)
}

/// The dice that the player holds are exactly the dice at the held positions, in
/// their order: each selected die stands at a held position, the positions increase,
/// and every held position gives one selected die.
pub proof fn lemma_selected_held(dice: Seq<u8>, held: Seq<bool>)
    requires
        dice.len() == held.len(),
    ensures
        exists|idx: Seq<int>| #[trigger] picks_held(dice, held, idx, selected(dice, held)),
{
    let idx = held_positions(dice, held);
    assert(picks_held(dice, held, idx, selected(dice, held)));
}

/// The dice that the player holds.
pub fn held_dice(dice: &Vec<u8>, held: &Vec<bool>) -> (r: Vec<u8>)
    requires
        dice.len() == held.len(),
    ensures
        r@ == selected(dice@, held@),
        exists|idx: Seq<int>| #[trigger] picks_held(dice@, held@, idx, r@),
{
    proof {
        lemma_selected_held(dice@, held@);
    }
    let mut r: Vec<u8> = Vec::new();
    let mut i: usize = 0;
    while i < dice.len()
        invariant
            i <= dice.len(),
            dice.len() == held.len(),
            r@ == selected(dice@.take(i as int), held@.take(i as int)),
        decreases dice.len() - i,
    {
        assert(dice@.take(i + 1).drop_last() =~= dice@.take(i as int));
        assert(held@.take(i + 1).drop_last() =~= held@.take(i as int));
        if held[i] {
            r.push(dice[i]);
        }
        i = i + 1;
    }
    assert(dice@.take(dice.len() as int) =~= dice@);
    assert(held@.take(held.len() as int) =~= held@);
    r
}

/// Scores the dice that the player holds out of the throw `dice`. A set that is not
/// made only of scoring combinations is refused (false) and changes nothing but
/// `score`, which becomes 0; else its points join the round's and the held dice are
/// set aside (true).
pub fn player_take_score(
    players: &mut Vec<Player>,
    turn: &usize,
    dice: &Vec<u8>,
    held: &Vec<bool>,
    n_dice: &mut u8,
    score: &mut usize,
) -> (taken: bool)
    requires
        *turn < old(players).len(),
        dice.len() == held.len(),
        dice.len() == *old(n_dice),
        old(players)@[*turn as int].tmp + score_dice_spec(selected(dice@, held@)) <= usize::MAX,
    ensures
        *final(score) == score_dice_spec(selected(dice@, held@)),
        taken == (*final(score) != 0),
        !taken ==> final(players)@ == old(players)@ && *final(n_dice) == *old(n_dice),
        taken ==> *final(n_dice) == *old(n_dice) - selected(dice@, held@).len()
            && final(players)@ == old(players)@.update(
            *turn as int,
            (Player {
                tmp: (old(players)@[*turn as int].tmp + *final(score)) as usize,
                ..old(players)@[*turn as int]
            }),
        ),
{
    let mut tmp_dice = held_dice(dice, held);
    proof {
        lemma_selected_len(dice@, held@);
        lemma_run_points_le(tmp_dice@);
        assert forall|v: u8| count(tmp_dice@, v) <= 255 by {
            lemma_count_le_len(tmp_dice@, v);
        }
    }
    *score = score_dice(&mut tmp_dice);
    if *score == 0 {
        return false;
    }
    let t = *turn;
    players[t].tmp = players[t].tmp + *score;
    *n_dice = *n_dice - tmp_dice.len() as u8;
    true
}


/// Some player has reached the winning score.
pub open spec fn game_over_spec(players: Seq<Player>) -> bool {
    exists|i: int| 0 <= i < players.len() && #[trigger] players[i].total >= WINNING_SCORE
}

/// Whether the game is over: some player's total has reached `WINNING_SCORE`.
pub fn game_over(players: &Vec<Player>) -> (over: bool)
    ensures
        over == game_over_spec(players@),
        forall|i: int| 0 <= i < players.len() && #[trigger] players@[i].total >= 5000 ==> over,
        (forall|i: int| 0 <= i < players.len() ==> #[trigger] players@[i].total < 5000) ==> !over,
{
    let mut i: usize = 0;
    while i < players.len()
        invariant
            i <= players.len(),
            forall|j: int| 0 <= j < i ==> #[trigger] players@[j].total < WINNING_SCORE,
        decreases players.len() - i,
    {
        if players[i].total >= WINNING_SCORE {
            return true;
        }
        i = i + 1;
    }
    false
}

/// The game is over as soon as any player, whichever, has 5000 points, and goes on
/// while every player has fewer.
pub proof fn lemma_game_over(players: Seq<Player>)
    ensures
        forall|i: int| 0 <= i < players.len() && #[trigger] players[i].total >= 5000 ==> game_over_spec(players),
        (forall|i: int| 0 <= i < players.len() ==> #[trigger] players[i].total < 5000) ==> !game_over_spec(players),
{
}

/// The winner: the player with the highest total, the last of them on a tie.
pub fn winner(players: &Vec<Player>) -> (w: usize)
    requires
        players.len() > 0,
    ensures
        w < players.len(),
        forall|j: int| 0 <= j < players.len() ==> #[trigger] players@[j].total <= players@[w as int].total,
        forall|j: int| w < j < players.len() ==> #[trigger] players@[j].total < players@[w as int].total,
{
    let mut best: usize = 0;
    let mut i: usize = 1;
    while i < players.len()
        invariant
            1 <= i <= players.len(),
            best < i,
            forall|j: int| 0 <= j < i ==> #[trigger] players@[j].total <= players@[best as int].total,
            forall|j: int| best < j < i ==> #[trigger] players@[j].total < players@[best as int].total,
        decreases players.len() - i,
    {
        if players[i].total >= players[best].total {
            best = i;
        }
        i = i + 1;
    }
    best
}

/// The entry above `selection` in a menu of `n` entries, wrapping from the first to the last.
pub open spec fn menu_up_spec(selection: int, n: int) -> int {
    if selection == 0 { n - 1 } else { selection - 1 }
}

/// The entry below `selection` in a menu of `n` entries, wrapping from the last to the first.
pub open spec fn menu_down_spec(selection: int, n: int) -> int {
    (selection + 1) % n
}

/// The menu entry above `selection` among `n`, wrapping from the first to the last.
pub fn menu_up(selection: usize, n: usize) -> (r: usize)
    requires
        selection < n,
    ensures
        r == menu_up_spec(selection as int, n as int),
{
    if selection == 0 {
        n - 1
    } else {
        proof {
            vstd::arithmetic::div_mod::lemma_small_mod((selection - 1) as nat, n as nat);
        }
        (selection - 1) % n
    }
}

/// The menu entry below `selection` among `n`, wrapping from the last to the first.
pub fn menu_down(selection: usize, n: usize) -> (r: usize)
    requires
        selection < n,
    ensures
        r == menu_down_spec(selection as int, n as int),
{
    (selection + 1) % n
}

/// Moving up then down in the menu, or down then up, comes back to the same entry.
pub proof fn lemma_menu_moves_undo(selection: int, n: int)
    requires
        0 <= selection < n,
    ensures
        menu_down_spec(menu_up_spec(selection, n), n) == selection,
        menu_up_spec(menu_down_spec(selection, n), n) == selection,
{
    vstd::arithmetic::div_mod::lemma_mod_self_0(n);
    if selection + 1 < n {
        vstd::arithmetic::div_mod::lemma_small_mod((selection + 1) as nat, n as nat);
    }
    if selection > 0 {
        vstd::arithmetic::div_mod::lemma_small_mod(selection as nat, n as nat);
    }
}

/// The game speed that a menu entry chooses: quick mode (the second entry) waits 0
/// seconds between a bot's steps, the others 1.
pub fn sleep_base_for(selection: usize) -> (base: u64)
    ensures
        base == if selection == 1 { 0u64 } else { 1u64 },
{
    if selection == 1 {
        0
    } else {
        1
    }
}

/// The table: the human player first, then `n_bots` bots, each named after one of
/// `bot_names` other than the first, picked at random.
pub fn new_players(human: &str, bot_names: &Vec<&str>, n_bots: usize) -> (players: Vec<Player>)
    requires
        bot_names.len() >= 2,
        n_bots < usize::MAX,
    ensures
        players.len() == n_bots + 1,
        players@[0].name@ == human@ && !players@[0].bot,
        forall|i: int| 0 <= i < players.len() ==> #[trigger] players@[i].total == 0 && players@[i].tmp == 0,
        forall|i: int| 1 <= i < players.len() ==> (#[trigger] players@[i]).bot
            && exists|k: int| 1 <= k < bot_names.len() && players@[i].name@ == bot_names@[k]@,
{
    let mut players: Vec<Player> = Vec::new();
    players.push(Player::new(human, false));
    let mut b: usize = 0;
    while b < n_bots
        invariant
            b <= n_bots,
            bot_names.len() >= 2,
            players.len() == b + 1,
            players@[0].name@ == human@ && !players@[0].bot,
            forall|i: int| 0 <= i < players.len() ==> #[trigger] players@[i].total == 0 && players@[i].tmp == 0,
            forall|i: int| 1 <= i < players.len() ==> (#[trigger] players@[i]).bot
                && exists|k: int| 1 <= k < bot_names.len() && players@[i].name@ == bot_names@[k]@,
        decreases n_bots - b,
    {
        let idx = gen_range(1, bot_names.len());
        let p = Player::new(bot_names[idx], true);
        players.push(p);
        assert(players@[b + 1].name@ == bot_names@[idx as int]@);
        b = b + 1;
    }
    players
}

} // verus!
