use rand::Rng;
use vstd::prelude::*;

verus! {

/// Calls `rand::thread_rng().gen_range(low..high)`: a number that the thread's random
/// generator draws from `low..high`. Its documentation promises a value in the range,
/// and a panic on an empty range, which `requires` leaves out. Which value comes is
/// chance, so nothing more is said of it.
#[verifier::external_body]
pub(crate) fn gen_range(low: usize, high: usize) -> (r: usize)
    requires
        low < high,
    ensures
        low <= r < high,
{
    rand::thread_rng().gen_range(low..high)
}

/// Throws one die: a face from 1 to 6.
pub fn roll_die() -> (face: u8)
    ensures
        1 <= face <= 6,
{
    gen_range(1, 7) as u8
}

/// Throws `n` dice.
pub fn roll_n_die(n: u8) -> (dice: Vec<u8>)
    ensures
        dice.len() == n,
        forall|i: int| 0 <= i < dice.len() ==> 1 <= #[trigger] dice@[i] <= 6,
{
    let mut dice: Vec<u8> = Vec::new();
    let mut i: u8 = 0;
    while i < n
        invariant
            i <= n,
            dice.len() == i,
            forall|j: int| 0 <= j < dice.len() ==> 1 <= #[trigger] dice@[j] <= 6,
        decreases n - i,
    {
        let d = roll_die();
        dice.push(d);
        i = i + 1;
    }
    dice
}

} // verus!
