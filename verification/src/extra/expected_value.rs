use vstd::prelude::*;
use crate::dice::roll_n_die;
use crate::scoring::{
    all_faces, count, find_points, find_points_spec, lemma_all_faces, lemma_count_le_len,
    lemma_find_points_rest, lemma_find_points_step, lemma_run_points_bound, run_points,
};

verus! {

/// Scores a throw by taking combination after combination until none is left or the
/// dice run out; the points taken count even where some dice score nothing.
/// `dice` is left as it was.
pub fn score_dice(dice: &mut Vec<u8>) -> (total: usize)
    requires
        forall|v: u8| count(old(dice)@, v) <= 255,
        run_points(old(dice)@) <= usize::MAX,
    ensures
        *final(dice) == *old(dice),
        total as nat == run_points(old(dice)@),
{
    let ghost s = dice@;
    let mut size1 = dice.len();
    let mut tot_score: usize = 0;
    let mut rice = dice.clone();
    assert(rice@ =~= s);
    loop
        invariant_except_break
            size1 == rice.len(),
            tot_score + run_points(rice@) == run_points(s),
            forall|v: u8| count(rice@, v) <= 255,
            run_points(s) <= usize::MAX,
        ensures
            tot_score == run_points(s),
        decreases rice.len(),
    {
        let ghost before = rice@;
        let (tmp_score, next) = find_points(&mut rice);
        proof {
            lemma_find_points_rest(before);
            assert forall|v: u8| count(next@, v) <= 255 by {
                assert(count(next@, v) <= count(before, v));
            }
        }
        rice = next;
        tot_score = tot_score + tmp_score;
        if size1 == rice.len() {
            break;
        } else if rice.len() == 0 {
            break;
        }
        size1 = rice.len();
    }
    tot_score
}

/// The sum of `s`.
pub open spec fn sum(s: Seq<usize>) -> int
    decreases s.len(),
{
    if s.len() == 0 {
        0
    } else {
        sum(s.drop_last()) + s.last()
    }
}

/// The mean of `numbers`, rounded down.
pub fn average(numbers: Vec<usize>) -> (mean: usize)
    requires
        numbers.len() > 0,
        sum(numbers@) <= usize::MAX,
    ensures
        mean == sum(numbers@) / numbers.len() as int,
{
    let mut total: usize = 0;
    let mut i: usize = 0;
    while i < numbers.len()
        invariant
            i <= numbers.len(),
            total == sum(numbers@.take(i as int)),
            sum(numbers@) <= usize::MAX,
        decreases numbers.len() - i,
    {
        assert(numbers@.take(i + 1).drop_last() =~= numbers@.take(i as int));
        proof {
            lemma_sum_prefix(numbers@, i as int + 1);
        }
        total = total + numbers[i];
        i = i + 1;
    }
    assert(numbers@.take(numbers.len() as int) =~= numbers@);
    let count = numbers.len();
    total / count
}

/// A prefix of a sequence of counts sums to no more than the whole.
proof fn lemma_sum_prefix(s: Seq<usize>, k: int)
    requires
        0 <= k <= s.len(),
    ensures
        sum(s.take(k)) <= sum(s),
    decreases s.len(),
{
    if k < s.len() {
        assert(s.drop_last().take(k) =~= s.take(k));
        lemma_sum_prefix(s.drop_last(), k);
    } else {
        assert(s.take(k) =~= s);
    }
}

/// A throw of `n` dice, each showing a face from 1 to 6.
pub open spec fn valid_throw(throw: Seq<u8>, n: nat) -> bool {
    throw.len() == n && forall|i: int| 0 <= i < throw.len() ==> 1 <= #[trigger] throw[i] <= 6
}

/// The points of all `throws`, each scored by `score_dice`.
pub open spec fn total_points(throws: Seq<Seq<u8>>) -> int
    decreases throws.len(),
{
    if throws.len() == 0 {
        0
    } else {
        total_points(throws.drop_last()) + run_points(throws.last())
    }
}

/// The mean score, rounded down, of `trials` throws of `n` dice, each scored by
/// `score_dice`. The throws are random: whatever they show, the mean is the total of
/// their points divided by `trials`, and at most 500 points per die.
pub fn expected_score(n: u8, trials: usize) -> (mean: usize)
    requires
        trials > 0,
        500 * n * trials <= usize::MAX,
    ensures
        mean <= 500 * n,
        exists|throws: Seq<Seq<u8>>|
            throws.len() == trials
            && (forall|i: int| 0 <= i < throws.len() ==> valid_throw(#[trigger] throws[i], n as nat))
            && mean == total_points(throws) / (trials as int),
{
    let mut scores: Vec<usize> = Vec::new();
    let ghost mut throws: Seq<Seq<u8>> = Seq::empty();
    let mut t: usize = 0;
    while t < trials
        invariant
            t <= trials,
            scores.len() == t,
            throws.len() == t,
            forall|i: int| 0 <= i < throws.len() ==> valid_throw(#[trigger] throws[i], n as nat),
            sum(scores@) == total_points(throws),
            500 * n * trials <= usize::MAX,
            sum(scores@) <= 500 * n * t,
            forall|i: int| 0 <= i < scores.len() ==> #[trigger] scores@[i] <= 500 * n,
        decreases trials - t,
    {
        let mut throw = roll_n_die(n);
        proof {
            lemma_all_faces(throw@);
            lemma_run_points_bound(throw@);
            assert forall|v: u8| count(throw@, v) <= 255 by {
                lemma_count_le_len(throw@, v);
            }
            assert(500 * n * t + 500 * n <= 500 * n * trials) by (nonlinear_arith)
                requires
                    t < trials,
            ;
        }
        let ghost thrown = throw@;
        let s = score_dice(&mut throw);
        let ghost before = scores@;
        let ghost before_throws = throws;
        scores.push(s);
        proof {
            throws = throws.push(thrown);
            assert(throws.drop_last() =~= before_throws);
            assert(valid_throw(throws[t as int], n as nat));
        }
        assert(scores@.drop_last() =~= before);
        assert(s <= 500 * n);
        assert(sum(scores@) == sum(before) + s);
        assert(500 * n * t + 500 * n == 500 * n * (t + 1)) by (nonlinear_arith);
        t = t + 1;
    }
    proof {
        assert(sum(scores@) <= 500 * n * trials);
        lemma_mean_bound(scores@, 500 * n);
    }
    let mean = average(scores);
    assert(throws.len() == trials
        && (forall|i: int| 0 <= i < throws.len() ==> valid_throw(#[trigger] throws[i], n as nat))
        && mean == total_points(throws) / (trials as int));
    mean
}

/// Numbers that are each at most `m` have a mean at most `m`.
proof fn lemma_mean_bound(s: Seq<usize>, m: int)
    requires
        s.len() > 0,
        forall|i: int| 0 <= i < s.len() ==> #[trigger] s[i] <= m,
    ensures
        sum(s) / (s.len() as int) <= m,
{
    lemma_sum_bound(s, m);
    let n = s.len() as int;
    let t = sum(s);
    assert(t / n <= m) by (nonlinear_arith)
        requires
            t <= m * n,
            n > 0,
    ;
}

proof fn lemma_sum_bound(s: Seq<usize>, m: int)
    requires
        forall|i: int| 0 <= i < s.len() ==> #[trigger] s[i] <= m,
    ensures
        sum(s) <= m * s.len(),
    decreases s.len(),
{
    if s.len() > 0 {
        lemma_sum_bound(s.drop_last(), m);
        assert(s[s.len() - 1] <= m);
        assert(m * (s.len() - 1) + m == m * s.len()) by (nonlinear_arith);
    }
}


/// `6` to the power `n`: how many throws of `n` dice there are.
pub open spec fn pow6(n: nat) -> nat
    decreases n,
{
    if n == 0 {
        1
    } else {
        6 * pow6((n - 1) as nat)
    }
}

/// Every throw of `n` dice, each listed once: the throws of `n - 1` dice, each followed
/// in turn by a die showing 1, 2, ..., 6.
pub open spec fn throws_of(n: nat) -> Seq<Seq<u8>>
    decreases n,
{
    if n == 0 {
        seq![Seq::<u8>::empty()]
    } else {
        let prev = throws_of((n - 1) as nat);
        Seq::new(6 * prev.len(), |i: int| prev[i / 6].push((i % 6 + 1) as u8))
    }
}

/// `throws_of(n)` lists `6^n` throws of `n` dice, no throw twice, and every throw of
/// `n` dice is among them.
pub proof fn lemma_throws_of(n: nat)
    ensures
        throws_of(n).len() == pow6(n),
        forall|i: int| 0 <= i < throws_of(n).len() ==> valid_throw(#[trigger] throws_of(n)[i], n),
        forall|i: int, k: int|
            0 <= i < k < throws_of(n).len() ==> #[trigger] throws_of(n)[i] != #[trigger] throws_of(n)[k],
        forall|t: Seq<u8>| valid_throw(t, n) ==> #[trigger] throws_of(n).contains(t),
    decreases n,
{
    if n == 0 {
        assert forall|t: Seq<u8>| valid_throw(t, n) implies #[trigger] throws_of(n).contains(t) by {
            assert(t =~= Seq::<u8>::empty());
            assert(throws_of(n)[0] == t);
        }
    } else {
        let m = (n - 1) as nat;
        lemma_throws_of(m);
        let prev = throws_of(m);
        let all = throws_of(n);
        assert(all.len() == 6 * prev.len());
        assert forall|i: int| 0 <= i < all.len() implies valid_throw(#[trigger] all[i], n) by {
            assert(0 <= i / 6 < prev.len());
            assert(valid_throw(prev[i / 6], m));
            let t = all[i];
            assert(t == prev[i / 6].push((i % 6 + 1) as u8));
            assert forall|j: int| 0 <= j < t.len() implies 1 <= #[trigger] t[j] <= 6 by {
                if j < m {
                    assert(t[j] == prev[i / 6][j]);
                }
            }
        }
        assert forall|i: int, k: int| 0 <= i < k < all.len() implies #[trigger] all[i] != #[trigger] all[k] by {
            assert(all[i] == prev[i / 6].push((i % 6 + 1) as u8));
            assert(all[k] == prev[k / 6].push((k % 6 + 1) as u8));
            if i / 6 == k / 6 {
                assert(i % 6 != k % 6);
                assert(all[i][m as int] != all[k][m as int]);
            } else {
                assert(i / 6 < k / 6);
                assert(prev[i / 6] != prev[k / 6]);
                assert(all[i].drop_last() =~= prev[i / 6]);
                assert(all[k].drop_last() =~= prev[k / 6]);
            }
        }
        assert forall|t: Seq<u8>| valid_throw(t, n) implies #[trigger] all.contains(t) by {
            let u = t.drop_last();
            assert(valid_throw(u, m));
            assert(prev.contains(u));
            let j = choose|j: int| 0 <= j < prev.len() && prev[j] == u;
            let f = t.last();
            let i = 6 * j + (f - 1);
            assert(i / 6 == j);
            assert(i % 6 == f - 1);
            assert(all[i] =~= t);
        }
    }
}

/// Each throw in `throws` whose first combination scores nothing (a farkle) counts once.
pub open spec fn farkles(throws: Seq<Seq<u8>>) -> nat
    decreases throws.len(),
{
    if throws.len() == 0 {
        0
    } else {
        farkles(throws.drop_last()) + if find_points_spec(throws.last()).0 == 0 {
            1nat
        } else {
            0nat
        }
    }
}

proof fn lemma_pow6_le(n: nat)
    requires
        n <= 6,
    ensures
        pow6(n) <= 46656,
        pow6(n) >= 1,
    decreases n,
{
    lemma_pow6_pos(n);
    if n > 0 {
        lemma_pow6_monotone((n - 1) as nat, 5);
        assert(pow6(0) == 1);
        assert(pow6(1) == 6);
        assert(pow6(2) == 36);
        assert(pow6(3) == 216);
        assert(pow6(4) == 1296);
        assert(pow6(5) == 7776);
    }
}

proof fn lemma_pow6_monotone(a: nat, b: nat)
    requires
        a <= b,
    ensures
        pow6(a) <= pow6(b),
    decreases b,
{
    if a < b {
        lemma_pow6_monotone(a, (b - 1) as nat);
        lemma_pow6_pos((b - 1) as nat);
    }
}

proof fn lemma_pow6_pos(n: nat)
    ensures
        pow6(n) >= 1,
    decreases n,
{
    if n > 0 {
        lemma_pow6_pos((n - 1) as nat);
    }
}

/// Lists every throw of `n` dice, in the order of `throws_of(n)`.
pub fn all_throws(n: u8) -> (throws: Vec<Vec<u8>>)
    requires
        n <= 6,
    ensures
        throws.len() == throws_of(n as nat).len(),
        forall|i: int| 0 <= i < throws.len() ==> (#[trigger] throws@[i])@ == throws_of(n as nat)[i],
{
    let mut cur: Vec<Vec<u8>> = Vec::new();
    cur.push(Vec::new());
    let mut k: u8 = 0;
    while k < n
        invariant
            k <= n <= 6,
            cur.len() == throws_of(k as nat).len(),
            cur.len() == pow6(k as nat),
            forall|i: int| 0 <= i < cur.len() ==> (#[trigger] cur@[i])@ == throws_of(k as nat)[i],
        decreases n - k,
    {
        proof {
            lemma_pow6_le(k as nat);
            lemma_throws_of(k as nat);
            lemma_throws_of(k as nat + 1);
        }
        let ghost prev = throws_of(k as nat);
        let ghost all = throws_of(k as nat + 1);
        assert(all.len() == 6 * prev.len());
        let mut next: Vec<Vec<u8>> = Vec::new();
        let mut j: usize = 0;
        while j < cur.len()
            invariant
                cur.len() == prev.len(),
                cur.len() <= 46656,
                all.len() == 6 * prev.len(),
                forall|i: int| 0 <= i < cur.len() ==> (#[trigger] cur@[i])@ == prev[i],
                forall|i: int| 0 <= i < all.len() ==> #[trigger] all[i] == prev[i / 6].push((i % 6 + 1) as u8),
                j <= cur.len(),
                next.len() == 6 * j,
                forall|i: int| 0 <= i < next.len() ==> (#[trigger] next@[i])@ == all[i],
            decreases cur.len() - j,
        {
            let mut f: u8 = 1;
            while f <= 6
                invariant
                    1 <= f <= 7,
                    j < cur.len(),
                    cur.len() == prev.len(),
                    cur.len() <= 46656,
                    all.len() == 6 * prev.len(),
                    (cur@[j as int])@ == prev[j as int],
                    forall|i: int| 0 <= i < all.len() ==> #[trigger] all[i] == prev[i / 6].push((i % 6 + 1) as u8),
                    next.len() == 6 * j + f - 1,
                    forall|i: int| 0 <= i < next.len() ==> (#[trigger] next@[i])@ == all[i],
                decreases 7 - f,
            {
                let mut t = cur[j].clone();
                assert(t@ =~= prev[j as int]);
                t.push(f);
                let ghost idx = 6 * j + f - 1;
                assert(idx / 6 == j);
                assert(idx % 6 == f - 1);
                assert(t@ =~= all[idx]);
                next.push(t);
                f = f + 1;
            }
            j = j + 1;
        }
        cur = next;
        k = k + 1;
    }
    cur
}

/// Among all `6^n` throws of `n` dice, how many are farkles: throws in which no
/// combination scores.
pub fn count_farkles(n: u8) -> (c: usize)
    requires
        n <= 6,
    ensures
        c == farkles(throws_of(n as nat)),
{
    let throws = all_throws(n);
    proof {
        lemma_throws_of(n as nat);
        lemma_pow6_le(n as nat);
    }
    let mut c: usize = 0;
    let mut i: usize = 0;
    while i < throws.len()
        invariant
            n <= 6,
            i <= throws.len(),
            throws.len() == throws_of(n as nat).len(),
            throws.len() <= 46656,
            forall|j: int| 0 <= j < throws.len() ==> (#[trigger] throws@[j])@ == throws_of(n as nat)[j],
            forall|j: int| 0 <= j < throws.len() ==> valid_throw(#[trigger] throws_of(n as nat)[j], n as nat),
            c == farkles(throws_of(n as nat).take(i as int)),
            c <= i,
        decreases throws.len() - i,
    {
        let mut t = throws[i].clone();
        assert(t@ =~= throws_of(n as nat)[i as int]);
        proof {
            assert(valid_throw(throws_of(n as nat)[i as int], n as nat));
            assert forall|v: u8| count(t@, v) <= 255 by {
                lemma_count_le_len(t@, v);
            }
            assert(throws_of(n as nat).take(i + 1).drop_last() =~= throws_of(n as nat).take(i as int));
        }
        let (p, _) = find_points(&mut t);
        if p == 0 {
            c = c + 1;
        }
        i = i + 1;
    }
    assert(throws_of(n as nat).take(throws.len() as int) =~= throws_of(n as nat));
    c
}

/// The points that `score_dice` gives all `6^n` throws of `n` dice together; divided by
/// `6^n`, the expected score of a throw.
pub fn total_score_of_all_throws(n: u8) -> (total: usize)
    requires
        n <= 6,
    ensures
        total == total_points(throws_of(n as nat)),
{
    let throws = all_throws(n);
    proof {
        lemma_throws_of(n as nat);
        lemma_pow6_le(n as nat);
    }
    let mut total: usize = 0;
    let mut i: usize = 0;
    while i < throws.len()
        invariant
            n <= 6,
            i <= throws.len(),
            throws.len() == throws_of(n as nat).len(),
            throws.len() <= 46656,
            forall|j: int| 0 <= j < throws.len() ==> (#[trigger] throws@[j])@ == throws_of(n as nat)[j],
            forall|j: int| 0 <= j < throws.len() ==> valid_throw(#[trigger] throws_of(n as nat)[j], n as nat),
            total == total_points(throws_of(n as nat).take(i as int)),
            total <= 3000 * i,
        decreases throws.len() - i,
    {
        let mut t = throws[i].clone();
        assert(t@ =~= throws_of(n as nat)[i as int]);
        proof {
            assert(valid_throw(t@, n as nat));
            lemma_all_faces(t@);
            lemma_run_points_bound(t@);
            assert forall|v: u8| count(t@, v) <= 255 by {
                lemma_count_le_len(t@, v);
            }
            assert(throws_of(n as nat).take(i + 1).drop_last() =~= throws_of(n as nat).take(i as int));
        }
        let s = score_dice(&mut t);
        total = total + s;
        i = i + 1;
    }
    assert(throws_of(n as nat).take(throws.len() as int) =~= throws_of(n as nat));
    total
}

/// On dice with faces 1 to 6, a throw scores nothing by `score_dice` exactly when it
/// is a farkle: its first combination scores nothing.
pub proof fn lemma_farkle_scores_nothing(s: Seq<u8>)
    requires
        all_faces(s),
    ensures
        run_points(s) == 0 <==> find_points_spec(s).0 == 0,
{
    lemma_find_points_step(s);
}

} // verus!
