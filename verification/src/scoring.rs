use vstd::prelude::*;

verus! {

/// How many dice in `s` show the face `v`.
pub open spec fn count(s: Seq<u8>, v: u8) -> nat
    decreases s.len(),
{
    if s.len() == 0 {
        0
    } else {
        count(s.drop_last(), v) + if s.last() == v { 1nat } else { 0nat }
    }
}

pub proof fn lemma_count_le_len(s: Seq<u8>, v: u8)
    ensures
        count(s, v) <= s.len(),
    decreases s.len(),
{
    if s.len() > 0 {
        lemma_count_le_len(s.drop_last(), v);
    }
}

/// For each face value (0 to 255), how many dice in `dice` show it.
fn tally(dice: &Vec<u8>) -> (counts: Vec<usize>)
    ensures
        counts.len() == 256,
        forall|v: u8| #[trigger] counts@[v as int] == count(dice@, v),
{
    let mut counts: Vec<usize> = Vec::new();
    let mut i: usize = 0;
    while i < 256
        invariant
            i <= 256,
            counts.len() == i,
            forall|j: int| 0 <= j < i ==> counts@[j] == 0,
        decreases 256 - i,
    {
        counts.push(0);
        i = i + 1;
    }
    let mut k: usize = 0;
    while k < dice.len()
        invariant
            k <= dice.len(),
            counts.len() == 256,
            forall|v: u8| #[trigger] counts@[v as int] == count(dice@.take(k as int), v),
        decreases dice.len() - k,
    {
        let d = dice[k];
        proof {
            assert(dice@.take(k + 1).drop_last() =~= dice@.take(k as int));
            lemma_count_le_len(dice@.take(k as int), d);
        }
        let c = counts[d as usize];
        counts.set(d as usize, c + 1);
        k = k + 1;
        assert forall|v: u8| #[trigger] counts@[v as int] == count(dice@.take(k as int), v) by {
            assert(dice@.take(k as int).drop_last() =~= dice@.take(k - 1));
        }
    }
    assert(dice@.take(dice.len() as int) =~= dice@);
    counts
}


/// The face values, in increasing order, that exactly `k` dice show.
fn values_with_count(counts: &Vec<usize>, k: usize) -> (r: Vec<u8>)
    requires
        counts.len() == 256,
    ensures
        forall|i: int| 0 <= i < r.len() ==> counts@[#[trigger] r@[i] as int] == k,
        forall|i: int, j: int| 0 <= i < j < r.len() ==> r@[i] < r@[j],
        forall|v: u8| counts@[v as int] == k ==> #[trigger] r@.contains(v),
{
    let mut r: Vec<u8> = Vec::new();
    let mut v: usize = 0;
    while v < 256
        invariant
            v <= 256,
            counts.len() == 256,
            forall|i: int| 0 <= i < r.len() ==> counts@[#[trigger] r@[i] as int] == k,
            forall|i: int| 0 <= i < r.len() ==> #[trigger] r@[i] < v,
            forall|i: int, j: int| 0 <= i < j < r.len() ==> r@[i] < r@[j],
            forall|w: u8| w < v && counts@[w as int] == k ==> #[trigger] r@.contains(w),
        decreases 256 - v,
    {
        if counts[v] == k {
            let ghost old_r = r@;
            r.push(v as u8);
            assert forall|w: u8| w < v + 1 && counts@[w as int] == k implies #[trigger] r@.contains(w) by {
                if w < v {
                    assert(old_r.contains(w));
                    let i = choose|i: int| 0 <= i < old_r.len() && old_r[i] == w;
                    assert(r@[i] == w);
                } else {
                    assert(r@[r.len() - 1] == w);
                }
            }
        }
        v = v + 1;
    }
    r
}

/// The dice of `s` that do not show `v`, in their order.
pub open spec fn without(s: Seq<u8>, v: u8) -> Seq<u8>
    decreases s.len(),
{
    if s.len() == 0 {
        s
    } else if s.last() == v {
        without(s.drop_last(), v)
    } else {
        without(s.drop_last(), v).push(s.last())
    }
}

/// Keeps the dice that do not show `v`.
fn without_value(dice: &Vec<u8>, v: u8) -> (r: Vec<u8>)
    ensures
        r@ == without(dice@, v),
{
    let mut r: Vec<u8> = Vec::new();
    let mut i: usize = 0;
    while i < dice.len()
        invariant
            i <= dice.len(),
            r@ == without(dice@.take(i as int), v),
        decreases dice.len() - i,
    {
        assert(dice@.take(i + 1).drop_last() =~= dice@.take(i as int));
        if dice[i] != v {
            r.push(dice[i]);
        }
        i = i + 1;
    }
    assert(dice@.take(dice.len() as int) =~= dice@);
    r
}

/// The position of the first die of `s` that shows `v` (meaningful when one does).
pub open spec fn first_index(s: Seq<u8>, v: u8) -> int {
    choose|i: int| 0 <= i < s.len() && s[i] == v && forall|j: int| 0 <= j < i ==> s[j] != v
}

/// Where some die shows `v`, `first_index` gives the first such die.
pub proof fn lemma_first_index(s: Seq<u8>, v: u8, j: int)
    requires
        0 <= j < s.len(),
        s[j] == v,
    ensures
        0 <= first_index(s, v) <= j,
        s[first_index(s, v)] == v,
        forall|k: int| 0 <= k < first_index(s, v) ==> s[k] != v,
    decreases j,
{
    if exists|k: int| 0 <= k < j && s[k] == v {
        let k = choose|k: int| 0 <= k < j && s[k] == v;
        lemma_first_index(s, v, k);
    } else {
        assert(0 <= j < s.len() && s[j] == v && forall|k: int| 0 <= k < j ==> s[k] != v);
        let f = first_index(s, v);
        if f < j {
            assert(s[f] != v);
        }
    }
}

/// Finds the first die that shows `v`.
fn position_of(dice: &Vec<u8>, v: u8) -> (r: Option<usize>)
    ensures
        r is None <==> !dice@.contains(v),
        r matches Some(i) ==> i == first_index(dice@, v) && i < dice.len() && dice@[i as int] == v,
{
    let mut i: usize = 0;
    while i < dice.len()
        invariant
            i <= dice.len(),
            forall|j: int| 0 <= j < i ==> dice@[j] != v,
        decreases dice.len() - i,
    {
        if dice[i] == v {
            proof {
                let f = first_index(dice@, v);
                assert(0 <= i < dice@.len() && dice@[i as int] == v && forall|j: int|
                    0 <= j < i ==> dice@[j] != v);
                assert(0 <= f < dice@.len() && dice@[f] == v && forall|j: int|
                    0 <= j < f ==> dice@[j] != v);
                if f < i as int {
                    assert(dice@[f] != v);
                }
                if (i as int) < f {
                    assert(dice@[i as int] != v);
                }
            }
            return Some(i);
        }
        i = i + 1;
    }
    None
}


/// Some face is shown by exactly `k` dice.
pub open spec fn has_count(s: Seq<u8>, k: nat) -> bool {
    exists|v: u8| count(s, v) == k
}

/// `v` is the smallest face shown by exactly `k` dice.
pub open spec fn is_least_with_count(s: Seq<u8>, k: nat, v: u8) -> bool {
    count(s, v) == k && forall|w: u8| w < v ==> count(s, w) != k
}

/// The smallest face shown by exactly `k` dice (meaningful when `has_count(s, k)`).
pub open spec fn least_with_count(s: Seq<u8>, k: nat) -> u8 {
    choose|v: u8| is_least_with_count(s, k, v)
}

/// Six dice showing 1, 2, 3, 4, 5 and 6.
pub open spec fn is_straight(s: Seq<u8>) -> bool {
    s.len() == 6 && forall|v: u8| 1 <= v <= 6 ==> count(s, v) == 1
}

/// Six dice that all show one face.
pub open spec fn is_six_of_a_kind(s: Seq<u8>) -> bool {
    s.len() == 6 && has_count(s, 6)
}

/// Six dice that show two faces three times each.
pub open spec fn is_two_triplets(s: Seq<u8>) -> bool {
    s.len() == 6 && exists|a: u8, b: u8| a != b && count(s, a) == 3 && count(s, b) == 3
}

/// Six dice that show three faces twice each.
pub open spec fn is_three_pairs(s: Seq<u8>) -> bool {
    s.len() == 6 && exists|a: u8, b: u8, c: u8|
        a != b && a != c && b != c && count(s, a) == 2 && count(s, b) == 2 && count(s, c) == 2
}

/// The best single combination in a throw: its points, and the dice that it leaves.
/// The combinations are tried in this order: a straight (1500), six of a kind (3000),
/// two triplets (2500), three pairs (1500), five of a kind (2000, all dice of that
/// face leave), four of a kind (1000), three of a kind (300 for ones, else 100 times
/// the face), a single one (100), a single five (50); else nothing scores.
#[verifier::opaque]
pub open spec fn find_points_spec(s: Seq<u8>) -> (nat, Seq<u8>) {
    if is_straight(s) {
        (1500, Seq::empty())
    } else if is_six_of_a_kind(s) {
        (3000, Seq::empty())
    } else if is_two_triplets(s) {
        (2500, Seq::empty())
    } else if is_three_pairs(s) {
        (1500, Seq::empty())
    } else if has_count(s, 5) {
        (2000, without(s, least_with_count(s, 5)))
    } else if has_count(s, 4) {
        (1000, without(s, least_with_count(s, 4)))
    } else if has_count(s, 3) {
        let v = least_with_count(s, 3);
        (if v == 1 { 300 } else { v as nat * 100 }, without(s, v))
    } else if s.contains(1) {
        (100, s.remove(first_index(s, 1)))
    } else if s.contains(5) {
        (50, s.remove(first_index(s, 5)))
    } else {
        (0, s)
    }
}

/// Ties the faces found by `values_with_count` to `has_count` and `least_with_count`.
proof fn lemma_values_with_count(s: Seq<u8>, counts: Seq<usize>, k: usize, r: Seq<u8>)
    requires
        counts.len() == 256,
        forall|v: u8| #[trigger] counts[v as int] == count(s, v),
        forall|i: int| 0 <= i < r.len() ==> counts[#[trigger] r[i] as int] == k,
        forall|i: int, j: int| 0 <= i < j < r.len() ==> r[i] < r[j],
        forall|v: u8| counts[v as int] == k ==> #[trigger] r.contains(v),
    ensures
        has_count(s, k as nat) <==> r.len() > 0,
        r.len() > 0 ==> least_with_count(s, k as nat) == r[0],
        forall|v: u8| count(s, v) == k ==> #[trigger] r.contains(v),
        forall|i: int| 0 <= i < r.len() ==> count(s, #[trigger] r[i]) == k,
{
    assert forall|v: u8| count(s, v) == k implies #[trigger] r.contains(v) by {
        assert(counts[v as int] == count(s, v));
    }
    assert forall|i: int| 0 <= i < r.len() implies count(s, #[trigger] r[i]) == k by {
        assert(counts[r[i] as int] == count(s, r[i]));
    }
    if has_count(s, k as nat) {
        let v = choose|v: u8| count(s, v) == k;
        assert(r.contains(v));
    }
    if r.len() > 0 {
        assert(count(s, r[0]) == k);
        assert forall|w: u8| w < r[0] implies count(s, w) != k by {
            if count(s, w) == k {
                assert(r.contains(w));
                let i = choose|i: int| 0 <= i < r.len() && r[i] == w;
                if i > 0 {
                    assert(r[0] < r[i]);
                }
            }
        }
        assert(is_least_with_count(s, k as nat, r[0]));
        let l = least_with_count(s, k as nat);
        assert(is_least_with_count(s, k as nat, l));
        if l < r[0] {
            assert(count(s, l) != k);
        }
        if r[0] < l {
            assert(count(s, r[0]) != k);
        }
    }
}

/// Takes the best single scoring combination out of a throw: returns its points and
/// the dice that remain. `dice` is left as it was.
pub fn find_points(dice: &mut Vec<u8>) -> (res: (usize, Vec<u8>))
    requires
        forall|v: u8| count(old(dice)@, v) <= 255,
    ensures
        *final(dice) == *old(dice),
        res.0 as nat == find_points_spec(old(dice)@).0,
        res.1@ == find_points_spec(old(dice)@).1,
{
    proof {
        reveal(find_points_spec);
    }
    let ghost s = dice@;
    let counts = tally(dice);
    let len = dice.len();
    let sixes = values_with_count(&counts, 6);
    let fives = values_with_count(&counts, 5);
    let fours = values_with_count(&counts, 4);
    let threes = values_with_count(&counts, 3);
    let pairs = values_with_count(&counts, 2);
    proof {
        lemma_values_with_count(s, counts@, 6, sixes@);
        lemma_values_with_count(s, counts@, 5, fives@);
        lemma_values_with_count(s, counts@, 4, fours@);
        lemma_values_with_count(s, counts@, 3, threes@);
        lemma_values_with_count(s, counts@, 2, pairs@);
    }
    let straight = len == 6 && counts[1] == 1 && counts[2] == 1 && counts[3] == 1
        && counts[4] == 1 && counts[5] == 1 && counts[6] == 1;
    proof {
        if straight {
            assert forall|v: u8| 1 <= v <= 6 implies count(s, v) == 1 by {
                assert(counts@[v as int] == count(s, v));
            }
        }
        if is_straight(s) {
            assert(count(s, 1) == 1 && count(s, 2) == 1 && count(s, 3) == 1);
            assert(count(s, 4) == 1 && count(s, 5) == 1 && count(s, 6) == 1);
            assert(counts@[1u8 as int] == count(s, 1u8));
            assert(counts@[2u8 as int] == count(s, 2u8));
            assert(counts@[3u8 as int] == count(s, 3u8));
            assert(counts@[4u8 as int] == count(s, 4u8));
            assert(counts@[5u8 as int] == count(s, 5u8));
            assert(counts@[6u8 as int] == count(s, 6u8));
        }
    }
    let two_triplets = len == 6 && threes.len() >= 2;
    proof {
        if two_triplets {
            assert(threes@[0] < threes@[1]);
            assert(count(s, threes@[0]) == 3 && count(s, threes@[1]) == 3);
        }
        if is_two_triplets(s) {
            let (a, b) = choose|a: u8, b: u8| a != b && count(s, a) == 3 && count(s, b) == 3;
            assert(threes@.contains(a) && threes@.contains(b));
        }
    }
    let three_pairs = len == 6 && pairs.len() >= 3;
    proof {
        if three_pairs {
            assert(pairs@[0] < pairs@[1] && pairs@[1] < pairs@[2]);
            assert(count(s, pairs@[0]) == 2 && count(s, pairs@[1]) == 2 && count(s, pairs@[2]) == 2);
        }
        if is_three_pairs(s) {
            let (a, b, c) = choose|a: u8, b: u8, c: u8|
                a != b && a != c && b != c && count(s, a) == 2 && count(s, b) == 2 && count(s, c) == 2;
            assert(pairs@.contains(a) && pairs@.contains(b) && pairs@.contains(c));
        }
    }
    if straight {
        (1500, Vec::new())
    } else if len == 6 && sixes.len() > 0 {
        (3000, Vec::new())
    } else if two_triplets {
        (2500, Vec::new())
    } else if three_pairs {
        (1500, Vec::new())
    } else if fives.len() > 0 {
        (2000, without_value(dice, fives[0]))
    } else if fours.len() > 0 {
        (1000, without_value(dice, fours[0]))
    } else if threes.len() > 0 {
        let v = threes[0];
        let rest = without_value(dice, v);
        if v == 1 {
            (300, rest)
        } else {
            (v as usize * 100, rest)
        }
    } else {
        match position_of(dice, 1) {
            Some(i) => {
                let mut rest = dice.clone();
                assert(rest@ =~= dice@);
                rest.remove(i);
                (100, rest)
            },
            None => match position_of(dice, 5) {
                Some(i) => {
                    let mut rest = dice.clone();
                    assert(rest@ =~= dice@);
                    rest.remove(i);
                    (50, rest)
                },
                None => {
                    let rest = dice.clone();
                    assert(rest@ =~= dice@);
                    (0, rest)
                },
            },
        }
    }
}


proof fn lemma_count_add(a: Seq<u8>, b: Seq<u8>, v: u8)
    ensures
        count(a + b, v) == count(a, v) + count(b, v),
    decreases b.len(),
{
    if b.len() == 0 {
        assert(a + b =~= a);
    } else {
        lemma_count_add(a, b.drop_last(), v);
        assert((a + b).drop_last() =~= a + b.drop_last());
    }
}

proof fn lemma_count_push(s: Seq<u8>, x: u8, v: u8)
    ensures
        count(s.push(x), v) == count(s, v) + (if x == v { 1nat } else { 0nat }),
{
    assert(s.push(x).drop_last() =~= s);
}

/// Taking out every die that shows `u` takes out `count(s, u)` dice and no die of another face.
pub proof fn lemma_without(s: Seq<u8>, u: u8)
    ensures
        without(s, u).len() + count(s, u) == s.len(),
        count(without(s, u), u) == 0,
        forall|w: u8| w != u ==> #[trigger] count(without(s, u), w) == count(s, w),
    decreases s.len(),
{
    if s.len() > 0 {
        lemma_without(s.drop_last(), u);
        let r = without(s.drop_last(), u);
        if s.last() != u {
            lemma_count_push(r, s.last(), u);
            assert forall|w: u8| w != u implies #[trigger] count(without(s, u), w) == count(s, w) by {
                lemma_count_push(r, s.last(), w);
            }
        }
    }
}

/// Taking out the die at position `i` takes one die of its face.
pub proof fn lemma_count_remove(s: Seq<u8>, i: int, v: u8)
    requires
        0 <= i < s.len(),
    ensures
        count(s.remove(i), v) + (if s[i] == v { 1nat } else { 0nat }) == count(s, v),
{
    assert(s =~= s.take(i).push(s[i]) + s.skip(i + 1));
    assert(s.remove(i) =~= s.take(i) + s.skip(i + 1));
    lemma_count_add(s.take(i).push(s[i]), s.skip(i + 1), v);
    lemma_count_push(s.take(i), s[i], v);
    lemma_count_add(s.take(i), s.skip(i + 1), v);
}

/// The dice that `find_points_spec` leaves are some of the dice it was given:
/// no face occurs more often afterwards, and there are no more dice.
pub proof fn lemma_find_points_rest(s: Seq<u8>)
    ensures
        find_points_spec(s).1.len() <= s.len(),
        forall|w: u8| #[trigger] count(find_points_spec(s).1, w) <= count(s, w),
{
    reveal(find_points_spec);
    let r = find_points_spec(s).1;
    if is_straight(s) || is_six_of_a_kind(s) || is_two_triplets(s) || is_three_pairs(s) {
        assert(r =~= Seq::<u8>::empty());
    } else if has_count(s, 5) || has_count(s, 4) || has_count(s, 3) {
        let u = if has_count(s, 5) {
            least_with_count(s, 5)
        } else if has_count(s, 4) {
            least_with_count(s, 4)
        } else {
            least_with_count(s, 3)
        };
        assert(r == without(s, u));
        lemma_without(s, u);
    } else if s.contains(1) || s.contains(5) {
        let v: u8 = if s.contains(1) { 1 } else { 5 };
        let i = first_index(s, v);
        let j = choose|j: int| 0 <= j < s.len() && s[j] == v;
        lemma_first_index(s, v, j);
        assert(r == s.remove(i));
        assert forall|w: u8| #[trigger] count(r, w) <= count(s, w) by {
            lemma_count_remove(s, i, w);
        }
    }
}

/// The points of scoring a throw combination after combination, as long as each
/// combination leaves fewer dice and some are left.
pub open spec fn run_points(s: Seq<u8>) -> nat
    decreases s.len(),
{
    let r = find_points_spec(s).1;
    if r.len() == 0 || r.len() >= s.len() {
        find_points_spec(s).0
    } else {
        find_points_spec(s).0 + run_points(r)
    }
}

/// The dice left when scoring combination after combination stops.
pub open spec fn run_rest(s: Seq<u8>) -> Seq<u8>
    decreases s.len(),
{
    let r = find_points_spec(s).1;
    if r.len() == 0 || r.len() >= s.len() {
        r
    } else {
        run_rest(r)
    }
}

/// Scoring combination after combination ends on a throw that no combination uses,
/// rather than on no dice left.
pub open spec fn run_stalls(s: Seq<u8>) -> bool
    decreases s.len(),
{
    let r = find_points_spec(s).1;
    if r.len() >= s.len() {
        true
    } else if r.len() == 0 {
        false
    } else {
        run_stalls(r)
    }
}

/// The score of a set of kept dice: the points of all its combinations when every
/// die scores, else nothing.
pub open spec fn score_dice_spec(s: Seq<u8>) -> nat {
    if run_stalls(s) {
        0
    } else {
        run_points(s)
    }
}

/// Scores a set of dice that a player keeps: every die must belong to a scoring
/// combination, else the set scores 0. `dice` is left as it was.
pub fn score_dice(dice: &mut Vec<u8>) -> (total: usize)
    requires
        forall|v: u8| count(old(dice)@, v) <= 255,
        run_points(old(dice)@) <= usize::MAX,
    ensures
        *final(dice) == *old(dice),
        total as nat == score_dice_spec(old(dice)@),
{
    let ghost s = dice@;
    let mut size1 = dice.len();
    let mut tot_score: usize = 0;
    let mut rice = dice.clone();
    assert(rice@ =~= s);
    loop
        invariant_except_break
            size1 == rice.len(),
            tot_score + run_points(rice@) == run_points(s),
            run_stalls(rice@) == run_stalls(s),
            forall|v: u8| count(rice@, v) <= 255,
            run_points(s) <= usize::MAX,
        ensures
            tot_score == score_dice_spec(s),
        decreases rice.len(),
    {
        let ghost before = rice@;
        let (tmp_score, next) = find_points(&mut rice);
        proof {
            lemma_find_points_rest(before);
            assert forall|v: u8| count(next@, v) <= 255 by {
                assert(count(next@, v) <= count(before, v));
            }
        }
        rice = next;
        tot_score = tot_score + tmp_score;
        if size1 == rice.len() {
            tot_score = 0;
            break;
        } else if rice.len() == 0 {
            break;
        }
        size1 = rice.len();
    }
    tot_score
}

/// Scores a throw for a bot: takes combination after combination until none is left
/// or the dice run out; returns the points and how many dice were used.
/// `dice` is left as it was.
pub fn bot_score_dice(dice: &mut Vec<u8>) -> (res: (usize, usize))
    requires
        forall|v: u8| count(old(dice)@, v) <= 255,
        run_points(old(dice)@) <= usize::MAX,
    ensures
        *final(dice) == *old(dice),
        res.0 as nat == run_points(old(dice)@),
        res.1 == old(dice)@.len() - run_rest(old(dice)@).len(),
{
    let ghost s = dice@;
    let mut size1 = dice.len();
    let mut tot_score: usize = 0;
    let mut rice = dice.clone();
    assert(rice@ =~= s);
    loop
        invariant_except_break
            size1 == rice.len(),
            rice.len() <= s.len(),
            tot_score + run_points(rice@) == run_points(s),
            run_rest(rice@) == run_rest(s),
            forall|v: u8| count(rice@, v) <= 255,
            run_points(s) <= usize::MAX,
        ensures
            tot_score == run_points(s),
            rice@ == run_rest(s),
            rice.len() <= s.len(),
        decreases rice.len(),
    {
        let ghost before = rice@;
        let (tmp_score, next) = find_points(&mut rice);
        proof {
            lemma_find_points_rest(before);
            assert forall|v: u8| count(next@, v) <= 255 by {
                assert(count(next@, v) <= count(before, v));
            }
        }
        rice = next;
        tot_score = tot_score + tmp_score;
        if size1 == rice.len() {
            break;
        } else if rice.len() == 0 {
            break;
        }
        size1 = rice.len();
    }
    (tot_score, dice.len() - rice.len())
}


/// Every die shows a face from 1 to 6.
pub open spec fn all_faces(s: Seq<u8>) -> bool {
    forall|v: u8| (v < 1 || v > 6) ==> #[trigger] count(s, v) == 0
}

/// A throw whose dice all show faces from 1 to 6 is `all_faces`.
pub proof fn lemma_all_faces(s: Seq<u8>)
    requires
        forall|i: int| 0 <= i < s.len() ==> 1 <= #[trigger] s[i] <= 6,
    ensures
        all_faces(s),
    decreases s.len(),
{
    if s.len() > 0 {
        lemma_all_faces(s.drop_last());
        assert(1 <= s[s.len() - 1] <= 6);
        assert forall|v: u8| (v < 1 || v > 6) implies #[trigger] count(s, v) == 0 by {
            assert(count(s.drop_last(), v) == 0);
        }
    }
}

/// On dice with faces 1 to 6, one combination pays at most 500 points per die that it
/// uses, the dice it leaves have faces 1 to 6 too, and it scores nothing exactly when it
/// uses no die.
pub proof fn lemma_find_points_step(s: Seq<u8>)
    requires
        all_faces(s),
    ensures
        find_points_spec(s).0 <= 500 * (s.len() - find_points_spec(s).1.len()),
        find_points_spec(s).0 == 0 <==> find_points_spec(s).1.len() == s.len(),
        all_faces(find_points_spec(s).1),
{
    reveal(find_points_spec);
    lemma_find_points_rest(s);
    let r = find_points_spec(s).1;
    assert forall|v: u8| (v < 1 || v > 6) implies #[trigger] count(r, v) == 0 by {
        assert(count(r, v) <= count(s, v));
    }
    if is_straight(s) || is_six_of_a_kind(s) || is_two_triplets(s) || is_three_pairs(s) {
    } else if has_count(s, 5) || has_count(s, 4) || has_count(s, 3) {
        let k: nat = if has_count(s, 5) { 5 } else if has_count(s, 4) { 4 } else { 3 };
        let w = choose|w: u8| count(s, w) == k;
        let u = least_with_count(s, k);
        assert(is_least_with_count(s, k, w) || exists|x: u8| x < w && count(s, x) == k);
        if !is_least_with_count(s, k, w) {
            let x = choose|x: u8| x < w && count(s, x) == k;
            lemma_least_exists(s, k, x);
        } else {
            lemma_least_exists(s, k, w);
        }
        assert(count(s, u) == k);
        lemma_without(s, u);
        assert(1 <= u <= 6);
    } else if s.contains(1) || s.contains(5) {
        let v: u8 = if s.contains(1) { 1 } else { 5 };
        let j = choose|j: int| 0 <= j < s.len() && s[j] == v;
        lemma_first_index(s, v, j);
    }
}

/// Where some face is shown by exactly `k` dice, `least_with_count` is the smallest such face.
pub proof fn lemma_least_exists(s: Seq<u8>, k: nat, w: u8)
    requires
        count(s, w) == k,
    ensures
        is_least_with_count(s, k, least_with_count(s, k)),
        least_with_count(s, k) <= w,
    decreases w,
{
    if exists|x: u8| x < w && count(s, x) == k {
        let x = choose|x: u8| x < w && count(s, x) == k;
        lemma_least_exists(s, k, x);
    } else {
        assert(is_least_with_count(s, k, w));
        let l = least_with_count(s, k);
        if l > w {
            assert(count(s, w) != k);
        }
    }
}

/// On dice with faces 1 to 6, scoring combination after combination pays at most 500
/// points per die used, and never more than 500 points per die thrown.
pub proof fn lemma_run_points_bound(s: Seq<u8>)
    requires
        all_faces(s),
    ensures
        run_rest(s).len() <= s.len(),
        run_points(s) <= 500 * (s.len() - run_rest(s).len()),
        run_points(s) <= 500 * s.len(),
    decreases s.len(),
{
    lemma_find_points_step(s);
    let r = find_points_spec(s).1;
    if r.len() == 0 || r.len() >= s.len() {
    } else {
        lemma_run_points_bound(r);
    }
}


/// A face occurs among the dice exactly when some die shows it.
pub proof fn lemma_count_contains(s: Seq<u8>, v: u8)
    ensures
        count(s, v) > 0 <==> s.contains(v),
    decreases s.len(),
{
    if s.len() > 0 {
        lemma_count_contains(s.drop_last(), v);
        if s.drop_last().contains(v) {
            let i = choose|i: int| 0 <= i < s.drop_last().len() && s.drop_last()[i] == v;
            assert(s[i] == v);
        }
        if s.contains(v) && s.last() != v {
            let i = choose|i: int| 0 <= i < s.len() && s[i] == v;
            assert(s.drop_last()[i] == v);
        }
    }
}

/// The same dice, in any order: as many, and as many of each face.
pub open spec fn same_dice(s: Seq<u8>, t: Seq<u8>) -> bool {
    s.len() == t.len() && forall|v: u8|
        #![trigger count(s, v)]
        #![trigger count(t, v)]
        count(s, v) == count(t, v)
}

/// The smallest face shown by exactly `k` dice is the only face with that property.
proof fn lemma_least_unique(s: Seq<u8>, k: nat, v: u8)
    requires
        is_least_with_count(s, k, v),
    ensures
        least_with_count(s, k) == v,
{
    lemma_least_exists(s, k, v);
    let l = least_with_count(s, k);
    if l < v {
        assert(count(s, l) != k);
    }
}

/// `find_points_spec` looks only at how many dice show each face: the same dice in
/// another order score the same points and leave the same dice.
pub proof fn lemma_find_points_order(s: Seq<u8>, t: Seq<u8>)
    requires
        same_dice(s, t),
    ensures
        find_points_spec(s).0 == find_points_spec(t).0,
        same_dice(find_points_spec(s).1, find_points_spec(t).1),
{
    reveal(find_points_spec);
    if is_straight(s) {
        assert forall|v: u8| 1 <= v <= 6 implies count(t, v) == 1 by {
            assert(count(s, v) == 1);
        }
    }
    if is_straight(t) {
        assert forall|v: u8| 1 <= v <= 6 implies count(s, v) == 1 by {
            assert(count(t, v) == 1);
        }
    }
    assert(has_count(s, 6) ==> has_count(t, 6));
    assert(has_count(t, 6) ==> has_count(s, 6));
    assert(is_two_triplets(s) ==> is_two_triplets(t));
    assert(is_two_triplets(t) ==> is_two_triplets(s));
    assert(is_three_pairs(s) ==> is_three_pairs(t));
    assert(is_three_pairs(t) ==> is_three_pairs(s));
    assert(has_count(s, 5) == has_count(t, 5));
    assert(has_count(s, 4) == has_count(t, 4));
    assert(has_count(s, 3) == has_count(t, 3));
    let rs = find_points_spec(s).1;
    let rt = find_points_spec(t).1;
    if is_straight(s) || is_six_of_a_kind(s) || is_two_triplets(s) || is_three_pairs(s) {
    } else if has_count(s, 5) || has_count(s, 4) || has_count(s, 3) {
        let k: nat = if has_count(s, 5) { 5 } else if has_count(s, 4) { 4 } else { 3 };
        let w = choose|w: u8| count(s, w) == k;
        lemma_least_exists(s, k, w);
        let u = least_with_count(s, k);
        assert(is_least_with_count(t, k, u)) by {
            assert forall|x: u8| x < u implies count(t, x) != k by {
                assert(count(s, x) != k);
            }
        }
        lemma_least_unique(t, k, u);
        lemma_without(s, u);
        lemma_without(t, u);
        assert forall|v: u8| #[trigger] count(rs, v) == count(rt, v) by {
            if v != u {
                assert(count(without(s, u), v) == count(s, v));
                assert(count(without(t, u), v) == count(t, v));
            }
        }
    } else {
        lemma_count_contains(s, 1);
        lemma_count_contains(t, 1);
        lemma_count_contains(s, 5);
        lemma_count_contains(t, 5);
        assert(count(s, 1) == count(t, 1));
        assert(count(s, 5) == count(t, 5));
        if s.contains(1) || s.contains(5) {
            let v: u8 = if s.contains(1) { 1 } else { 5 };
            let i = choose|i: int| 0 <= i < s.len() && s[i] == v;
            let j = choose|j: int| 0 <= j < t.len() && t[j] == v;
            lemma_first_index(s, v, i);
            lemma_first_index(t, v, j);
            assert forall|w: u8| #[trigger] count(rs, w) == count(rt, w) by {
                lemma_count_remove(s, first_index(s, v), w);
                lemma_count_remove(t, first_index(t, v), w);
            }
        }
    }
}

/// Scoring combination after combination looks only at how many dice show each face:
/// the same dice in another order score the same and leave as many dice.
pub proof fn lemma_run_order(s: Seq<u8>, t: Seq<u8>)
    requires
        same_dice(s, t),
    ensures
        run_points(s) == run_points(t),
        run_stalls(s) == run_stalls(t),
        run_rest(s).len() == run_rest(t).len(),
        score_dice_spec(s) == score_dice_spec(t),
    decreases s.len(),
{
    lemma_find_points_order(s, t);
    let rs = find_points_spec(s).1;
    let rt = find_points_spec(t).1;
    if rs.len() == 0 || rs.len() >= s.len() {
    } else {
        lemma_run_order(rs, rt);
    }
}

/// A set of kept dice scores exactly when every die in it belongs to a combination:
/// it then scores what the bots' rule scores, with no die left over.
pub proof fn lemma_score_dice_uses_all(s: Seq<u8>)
    ensures
        run_rest(s).len() <= s.len(),
        !run_stalls(s) <==> (run_rest(s).len() == 0 && s.len() > 0),
        score_dice_spec(s) == if run_rest(s).len() == 0 && s.len() > 0 {
            run_points(s)
        } else {
            0
        },
    decreases s.len(),
{
    lemma_find_points_rest(s);
    let r = find_points_spec(s).1;
    if r.len() == 0 || r.len() >= s.len() {
    } else {
        lemma_score_dice_uses_all(r);
    }
}

/// On dice with faces 1 to 6, one combination scores a multiple of 50.
proof fn lemma_find_points_multiple_of_50(s: Seq<u8>)
    requires
        all_faces(s),
    ensures
        find_points_spec(s).0 % 50 == 0,
{
    reveal(find_points_spec);
    if !(is_straight(s) || is_six_of_a_kind(s) || is_two_triplets(s) || is_three_pairs(s))
        && !has_count(s, 5) && !has_count(s, 4) && has_count(s, 3) {
        let w = choose|w: u8| count(s, w) == 3;
        lemma_least_exists(s, 3, w);
        let u = least_with_count(s, 3);
        assert(count(s, u) == 3);
        assert(1 <= u <= 6);
        assert(u == 1 || u == 2 || u == 3 || u == 4 || u == 5 || u == 6);
    }
}

/// On dice with faces 1 to 6, every score is a multiple of 50.
pub proof fn lemma_points_multiple_of_50(s: Seq<u8>)
    requires
        all_faces(s),
    ensures
        run_points(s) % 50 == 0,
        score_dice_spec(s) % 50 == 0,
    decreases s.len(),
{
    lemma_find_points_step(s);
    lemma_find_points_multiple_of_50(s);
    let p = find_points_spec(s).0;
    let r = find_points_spec(s).1;
    if r.len() == 0 || r.len() >= s.len() {
        assert(run_points(s) == p);
    } else {
        lemma_points_multiple_of_50(r);
        assert(run_points(s) == p + run_points(r));
    }
}


/// One combination scores at most 25500 points (three dice of face 255), and no dice score nothing.
proof fn lemma_find_points_le(s: Seq<u8>)
    ensures
        find_points_spec(s).0 <= 25500,
        s.len() == 0 ==> find_points_spec(s).0 == 0,
{
    reveal(find_points_spec);
    if s.len() == 0 {
        assert(count(s, 1) == 0);
        assert forall|v: u8| #[trigger] count(s, v) == 0 by {}
    }
}

/// Scoring combination after combination pays at most 25500 points per die, whatever
/// faces the dice show.
pub proof fn lemma_run_points_le(s: Seq<u8>)
    ensures
        run_points(s) <= 25500 * s.len(),
    decreases s.len(),
{
    lemma_find_points_le(s);
    let r = find_points_spec(s).1;
    if r.len() == 0 || r.len() >= s.len() {
    } else {
        lemma_run_points_le(r);
    }
}

} // verus!

verus! {

// The scoring table, stated face by face over the counts of the dice.

proof fn lemma_count_sum2(s: Seq<u8>, a: u8, b: u8)
    requires
        a != b,
    ensures
        count(s, a) + count(s, b) <= s.len(),
    decreases s.len(),
{
    if s.len() > 0 {
        lemma_count_sum2(s.drop_last(), a, b);
    }
}

proof fn lemma_count_sum3(s: Seq<u8>, a: u8, b: u8, c: u8)
    requires
        a != b && a != c && b != c,
    ensures
        count(s, a) + count(s, b) + count(s, c) <= s.len(),
    decreases s.len(),
{
    if s.len() > 0 {
        lemma_count_sum3(s.drop_last(), a, b, c);
    }
}

proof fn lemma_count_sum4(s: Seq<u8>, a: u8, b: u8, c: u8, d: u8)
    requires
        a != b && a != c && a != d && b != c && b != d && c != d,
    ensures
        count(s, a) + count(s, b) + count(s, c) + count(s, d) <= s.len(),
    decreases s.len(),
{
    if s.len() > 0 {
        lemma_count_sum4(s.drop_last(), a, b, c, d);
    }
}

/// Taking out every die of face `v` keeps the other dice in their order.
proof fn lemma_without_filter(s: Seq<u8>, v: u8)
    ensures
        without(s, v) == s.filter(|x: u8| x != v),
    decreases s.len(),
{
    reveal(Seq::filter);
    if s.len() > 0 {
        lemma_without_filter(s.drop_last(), v);
    }
}

/// A face that some die shows is a face from 1 to 6.
proof fn lemma_face_in_range(s: Seq<u8>, v: u8)
    requires
        all_faces(s),
        count(s, v) > 0,
    ensures
        1 <= v <= 6,
{
    if v < 1 || v > 6 {
        assert(count(s, v) == 0);
    }
}

/// Three dice of one face, and no other face three times or more: the three score
/// 100 times their face (300 for ones), and the dice of every other face remain, in order.
pub proof fn lemma_three_of_a_kind(s: Seq<u8>, v: u8)
    requires
        all_faces(s),
        count(s, v) == 3,
        forall|w: u8| w != v ==> #[trigger] count(s, w) < 3,
    ensures
        find_points_spec(s).0 == if v == 1 { 300 } else { 100 * v },
        find_points_spec(s).1 == s.filter(|x: u8| x != v),
{
    reveal(find_points_spec);
    lemma_face_in_range(s, v);
    assert(!is_straight(s)) by {
        if is_straight(s) {
            assert(count(s, v) == 1);
        }
    }
    assert(!has_count(s, 6) && !has_count(s, 5) && !has_count(s, 4)) by {
        if has_count(s, 6) {
            let w = choose|w: u8| count(s, w) == 6;
        }
        if has_count(s, 5) {
            let w = choose|w: u8| count(s, w) == 5;
        }
        if has_count(s, 4) {
            let w = choose|w: u8| count(s, w) == 4;
        }
    }
    assert(!is_two_triplets(s)) by {
        if is_two_triplets(s) {
            let (a, b) = choose|a: u8, b: u8| a != b && count(s, a) == 3 && count(s, b) == 3;
            if a != v {
                assert(count(s, a) < 3);
            } else {
                assert(count(s, b) < 3);
            }
        }
    }
    assert(!is_three_pairs(s)) by {
        if is_three_pairs(s) {
            let (a, b, c) = choose|a: u8, b: u8, c: u8|
                a != b && a != c && b != c && count(s, a) == 2 && count(s, b) == 2 && count(s, c) == 2;
            lemma_count_sum4(s, a, b, c, v);
        }
    }
    assert(is_least_with_count(s, 3, v));
    lemma_least_unique(s, 3, v);
    lemma_without_filter(s, v);
}

/// Four dice of one face, and no other face four times or more: they score 1000, and
/// the dice of every other face remain, in order.
pub proof fn lemma_four_of_a_kind(s: Seq<u8>, v: u8)
    requires
        all_faces(s),
        count(s, v) == 4,
        forall|w: u8| w != v ==> #[trigger] count(s, w) < 4,
    ensures
        find_points_spec(s).0 == 1000,
        find_points_spec(s).1 == s.filter(|x: u8| x != v),
{
    reveal(find_points_spec);
    lemma_face_in_range(s, v);
    assert(!is_straight(s)) by {
        if is_straight(s) {
            assert(count(s, v) == 1);
        }
    }
    assert(!has_count(s, 6) && !has_count(s, 5)) by {
        if has_count(s, 6) {
            let w = choose|w: u8| count(s, w) == 6;
        }
        if has_count(s, 5) {
            let w = choose|w: u8| count(s, w) == 5;
        }
    }
    assert(!is_two_triplets(s)) by {
        if is_two_triplets(s) {
            let (a, b) = choose|a: u8, b: u8| a != b && count(s, a) == 3 && count(s, b) == 3;
            lemma_count_sum3(s, a, b, v);
        }
    }
    assert(!is_three_pairs(s)) by {
        if is_three_pairs(s) {
            let (a, b, c) = choose|a: u8, b: u8, c: u8|
                a != b && a != c && b != c && count(s, a) == 2 && count(s, b) == 2 && count(s, c) == 2;
            lemma_count_sum4(s, a, b, c, v);
        }
    }
    assert(is_least_with_count(s, 4, v));
    lemma_least_unique(s, 4, v);
    lemma_without_filter(s, v);
}

/// Five dice of one face: they score 2000, and the dice of every other face remain, in order.
pub proof fn lemma_five_of_a_kind(s: Seq<u8>, v: u8)
    requires
        all_faces(s),
        count(s, v) == 5,
        forall|w: u8| w != v ==> #[trigger] count(s, w) < 5,
    ensures
        find_points_spec(s).0 == 2000,
        find_points_spec(s).1 == s.filter(|x: u8| x != v),
{
    reveal(find_points_spec);
    lemma_face_in_range(s, v);
    assert(!is_straight(s)) by {
        if is_straight(s) {
            assert(count(s, v) == 1);
        }
    }
    assert(!has_count(s, 6)) by {
        if has_count(s, 6) {
            let w = choose|w: u8| count(s, w) == 6;
        }
    }
    assert(!is_two_triplets(s)) by {
        if is_two_triplets(s) {
            let (a, b) = choose|a: u8, b: u8| a != b && count(s, a) == 3 && count(s, b) == 3;
            lemma_count_sum3(s, a, b, v);
        }
    }
    assert(!is_three_pairs(s)) by {
        if is_three_pairs(s) {
            let (a, b, c) = choose|a: u8, b: u8, c: u8|
                a != b && a != c && b != c && count(s, a) == 2 && count(s, b) == 2 && count(s, c) == 2;
            lemma_count_sum4(s, a, b, c, v);
        }
    }
    assert(is_least_with_count(s, 5, v));
    lemma_least_unique(s, 5, v);
    lemma_without_filter(s, v);
}

/// Six dice of one face score 3000 and use every die.
pub proof fn lemma_six_of_a_kind(s: Seq<u8>, v: u8)
    requires
        all_faces(s),
        s.len() == 6,
        count(s, v) == 6,
    ensures
        find_points_spec(s).0 == 3000,
        find_points_spec(s).1.len() == 0,
{
    reveal(find_points_spec);
    lemma_face_in_range(s, v);
    assert(!is_straight(s)) by {
        if is_straight(s) {
            assert(count(s, v) == 1);
        }
    }
}

/// Six dice showing 1 to 6 once each score 1500 and use every die.
pub proof fn lemma_straight(s: Seq<u8>)
    requires
        s.len() == 6,
        forall|v: u8| 1 <= v <= 6 ==> #[trigger] count(s, v) == 1,
    ensures
        find_points_spec(s).0 == 1500,
        find_points_spec(s).1.len() == 0,
{
    reveal(find_points_spec);
}

/// Six dice showing two faces three times each score 2500 and use every die.
pub proof fn lemma_two_triplets(s: Seq<u8>, a: u8, b: u8)
    requires
        all_faces(s),
        s.len() == 6,
        a != b,
        count(s, a) == 3,
        count(s, b) == 3,
    ensures
        find_points_spec(s).0 == 2500,
        find_points_spec(s).1.len() == 0,
{
    reveal(find_points_spec);
    lemma_face_in_range(s, a);
    assert(!is_straight(s)) by {
        if is_straight(s) {
            assert(count(s, a) == 1);
        }
    }
    assert(!has_count(s, 6)) by {
        if has_count(s, 6) {
            let w = choose|w: u8| count(s, w) == 6;
            if w != a {
                lemma_count_sum2(s, w, a);
            }
        }
    }
}

/// Six dice showing three faces twice each score 1500 and use every die.
pub proof fn lemma_three_pairs(s: Seq<u8>, a: u8, b: u8, c: u8)
    requires
        all_faces(s),
        s.len() == 6,
        a != b && a != c && b != c,
        count(s, a) == 2,
        count(s, b) == 2,
        count(s, c) == 2,
    ensures
        find_points_spec(s).0 == 1500,
        find_points_spec(s).1.len() == 0,
{
    reveal(find_points_spec);
    lemma_face_in_range(s, a);
    assert(!is_straight(s)) by {
        if is_straight(s) {
            assert(count(s, a) == 1);
        }
    }
    assert(!has_count(s, 6)) by {
        if has_count(s, 6) {
            let w = choose|w: u8| count(s, w) == 6;
            if w != a {
                lemma_count_sum2(s, w, a);
            }
        }
    }
    assert(!is_two_triplets(s)) by {
        if is_two_triplets(s) {
            let (x, y) = choose|x: u8, y: u8| x != y && count(s, x) == 3 && count(s, y) == 3;
            lemma_count_sum3(s, x, y, a);
        }
    }
}

/// No face three times or more, and not six dice in three pairs.
pub open spec fn no_set(s: Seq<u8>) -> bool {
    &&& forall|w: u8| #[trigger] count(s, w) < 3
    &&& !(s.len() == 6 && exists|a: u8, b: u8, c: u8|
        a != b && a != c && b != c && count(s, a) == 2 && count(s, b) == 2 && count(s, c) == 2)
}

/// Without a set, and not a straight of six dice, a one scores 100: the first die
/// showing 1 is used, the others remain in order.
pub proof fn lemma_single_one(s: Seq<u8>)
    requires
        no_set(s),
        count(s, 1) >= 1,
        !(s.len() == 6 && forall|v: u8| 1 <= v <= 6 ==> #[trigger] count(s, v) == 1),
    ensures
        find_points_spec(s).0 == 100,
        exists|i: int|
            0 <= i < s.len() && s[i] == 1 && (forall|j: int| 0 <= j < i ==> s[j] != 1)
                && find_points_spec(s).1 == s.remove(i),
{
    reveal(find_points_spec);
    lemma_no_kind(s);
    lemma_count_contains(s, 1);
    let j = choose|j: int| 0 <= j < s.len() && s[j] == 1;
    lemma_first_index(s, 1, j);
    let i = first_index(s, 1);
    assert(0 <= i < s.len() && s[i] == 1 && (forall|j: int| 0 <= j < i ==> s[j] != 1)
        && find_points_spec(s).1 == s.remove(i));
}

/// Without a set and without a one, a five scores 50: the first die showing 5 is
/// used, the others remain in order.
pub proof fn lemma_single_five(s: Seq<u8>)
    requires
        no_set(s),
        count(s, 1) == 0,
        count(s, 5) >= 1,
    ensures
        find_points_spec(s).0 == 50,
        exists|i: int|
            0 <= i < s.len() && s[i] == 5 && (forall|j: int| 0 <= j < i ==> s[j] != 5)
                && find_points_spec(s).1 == s.remove(i),
{
    reveal(find_points_spec);
    lemma_no_kind(s);
    lemma_count_contains(s, 1);
    lemma_count_contains(s, 5);
    assert(!is_straight(s));
    let j = choose|j: int| 0 <= j < s.len() && s[j] == 5;
    lemma_first_index(s, 5, j);
    let i = first_index(s, 5);
    assert(0 <= i < s.len() && s[i] == 5 && (forall|j: int| 0 <= j < i ==> s[j] != 5)
        && find_points_spec(s).1 == s.remove(i));
}

/// Without a set, a one or a five, nothing scores and every die remains: a farkle.
pub proof fn lemma_farkle(s: Seq<u8>)
    requires
        no_set(s),
        count(s, 1) == 0,
        count(s, 5) == 0,
    ensures
        find_points_spec(s).0 == 0,
        find_points_spec(s).1 == s,
{
    reveal(find_points_spec);
    lemma_no_kind(s);
    lemma_count_contains(s, 1);
    lemma_count_contains(s, 5);
    assert(!is_straight(s));
}

/// Without a set there is no kind, two triplets or three pairs.
proof fn lemma_no_kind(s: Seq<u8>)
    requires
        no_set(s),
    ensures
        !has_count(s, 6) && !has_count(s, 5) && !has_count(s, 4) && !has_count(s, 3),
        !is_six_of_a_kind(s) && !is_two_triplets(s) && !is_three_pairs(s),
{
    if has_count(s, 6) {
        let w = choose|w: u8| count(s, w) == 6;
    }
    if has_count(s, 5) {
        let w = choose|w: u8| count(s, w) == 5;
    }
    if has_count(s, 4) {
        let w = choose|w: u8| count(s, w) == 4;
    }
    if has_count(s, 3) {
        let w = choose|w: u8| count(s, w) == 3;
    }
    if is_two_triplets(s) {
        let (a, b) = choose|a: u8, b: u8| a != b && count(s, a) == 3 && count(s, b) == 3;
    }
}

} // verus!

verus! {

/// How a kept set's score follows from its first combination, on dice with faces
/// 1 to 6: a first combination that uses every die scores its points; one that
/// uses no die leaves the set worth nothing; otherwise the set scores the first
/// combination's points plus the score of the dice it leaves, or nothing when those
/// are worth nothing.
pub proof fn lemma_score_dice_step(s: Seq<u8>)
    requires
        all_faces(s),
    ensures
        ({
            let p = find_points_spec(s).0;
            let r = find_points_spec(s).1;
            &&& (s.len() > 0 && r.len() == 0 ==> score_dice_spec(s) == p)
            &&& (r.len() == s.len() ==> score_dice_spec(s) == 0)
            &&& (0 < r.len() < s.len() ==> score_dice_spec(s) == if score_dice_spec(r) == 0 {
                0
            } else {
                p + score_dice_spec(r)
            })
        }),
{
    lemma_find_points_rest(s);
    lemma_find_points_step(s);
    let r = find_points_spec(s).1;
    if 0 < r.len() < s.len() {
        lemma_score_dice_uses_all(r);
        if !run_stalls(r) {
            lemma_find_points_step(r);
            let r2 = find_points_spec(r).1;
            lemma_find_points_rest(r);
            assert(r2.len() < r.len());
            assert(find_points_spec(r).0 > 0);
            assert(run_points(r) >= find_points_spec(r).0);
        }
    }
}

} // verus!
