//! The one lie that every feedback row of the lying variant carries.

use vstd::prelude::*;
use rand::rngs::ThreadRng;
use rand::Rng;
use crate::letters::{differing_tiles, LetterState};

verus! {

/// The generator of random numbers that `rand` keeps for each thread.
#[verifier::external_type_specification]
#[verifier::external_body]
pub struct ExThreadRng(ThreadRng);

/// `rand::thread_rng` hands out the generator of the calling thread. Nothing
/// is said of the numbers it will give. It panics where the operating
/// system gives the generator no seed at its first use.
pub assume_specification[ rand::thread_rng ]() -> (rng: ThreadRng)
;

/// `Rng::gen_range` on the half-open range from 0 to `bound` gives a number
/// of that range, whichever the generator picks. An empty range makes it
/// panic, so `bound` is not 0. The generator of the thread also panics
/// where the operating system gives it no seed, at its first use or when it
/// seeds itself anew; no argument can rule that out.
#[verifier::external_body]
fn draw_below(rng: &mut ThreadRng, bound: usize) -> (drawn: usize)
    requires
        bound > 0,
    ensures
        drawn < bound,
{
    rng.gen_range(0..bound)
}

/// One of the two states that a tile is not in: the first of them, in the
/// order correct, present, absent, where `choice` is 0, and the second
/// otherwise. The letter stays.
pub open spec fn lie_of(state: LetterState, choice: int) -> LetterState {
    match state {
        LetterState::Correct(c) => if choice == 0 {
            LetterState::Present(c)
        } else {
            LetterState::Absent(c)
        },
        LetterState::Present(c) => if choice == 0 {
            LetterState::Correct(c)
        } else {
            LetterState::Absent(c)
        },
        LetterState::Absent(c) => if choice == 0 {
            LetterState::Correct(c)
        } else {
            LetterState::Present(c)
        },
    }
}

/// The tiles with the one at `index` replaced by a lie.
pub open spec fn lied_tiles(letters: Seq<LetterState>, index: int, choice: int) -> Seq<
    LetterState,
> {
    letters.update(index, lie_of(letters[index], choice))
}

/// The tiles are `truth` with exactly one tile replaced by one of the two
/// states it is not in.
pub open spec fn is_single_lie(truth: Seq<LetterState>, told: Seq<LetterState>) -> bool {
    exists|index: int, choice: int|
        0 <= index < truth.len() && 0 <= choice < 2 && told == #[trigger] lied_tiles(
            truth,
            index,
            choice,
        )
}

/// A lie differs from the truth and keeps the letter.
pub proof fn lemma_lie_of(state: LetterState, choice: int)
    ensures
        lie_of(state, choice) != state,
        lie_of(state, choice).spec_letter() == state.spec_letter(),
{
}

proof fn lemma_differing_same(a: Seq<LetterState>, b: Seq<LetterState>, n: int)
    requires
        0 <= n <= a.len(),
        a.len() == b.len(),
        forall|i: int| 0 <= i < n ==> a[i] == b[i],
    ensures
        differing_tiles(a, b, n) == 0,
    decreases n,
{
    if n > 0 {
        lemma_differing_same(a, b, n - 1);
    }
}

/// Tiles with one lie differ from the truth in exactly one tile, have the
/// same length and carry the same letters.
pub proof fn lemma_lied_tiles(letters: Seq<LetterState>, index: int, choice: int, n: int)
    requires
        0 <= index < letters.len(),
        0 <= n <= letters.len(),
    ensures
        lied_tiles(letters, index, choice).len() == letters.len(),
        forall|i: int|
            0 <= i < letters.len() ==> (#[trigger] lied_tiles(
                letters,
                index,
                choice,
            )[i]).spec_letter() == letters[i].spec_letter(),
        differing_tiles(letters, lied_tiles(letters, index, choice), n) == if index < n {
            1nat
        } else {
            0nat
        },
    decreases n,
{
    lemma_lie_of(letters[index], choice);
    if n > 0 {
        lemma_lied_tiles(letters, index, choice, n - 1);
    }
}

/// The lie that replaces `state`: the first of the two other states where
/// `choice` is 0, the second otherwise.
pub fn lie_state(state: &LetterState, choice: usize) -> (lie: LetterState)
    ensures
        lie == lie_of(*state, choice as int),
{
    let letter = state.letter();
    match state {
        LetterState::Correct(_) => if choice == 0 {
            LetterState::Present(letter)
        } else {
            LetterState::Absent(letter)
        },
        LetterState::Present(_) => if choice == 0 {
            LetterState::Correct(letter)
        } else {
            LetterState::Absent(letter)
        },
        LetterState::Absent(_) => if choice == 0 {
            LetterState::Correct(letter)
        } else {
            LetterState::Present(letter)
        },
    }
}

/// Picks one of the two states that `state` is not in, as the generator
/// decides.
pub fn random_lie_state(state: &LetterState, rng: &mut ThreadRng) -> (lie: LetterState)
    ensures
        lie == lie_of(*state, 0) || lie == lie_of(*state, 1),
{
    let choice = draw_below(rng, 2);
    lie_state(state, choice)
}

/// Replaces the tile at `lie_index` by the lie that `choice` names.
pub fn apply_lie_at(letters: &mut Vec<LetterState>, lie_index: usize, choice: usize)
    requires
        lie_index < old(letters).len(),
    ensures
        final(letters)@ == lied_tiles(old(letters)@, lie_index as int, choice as int),
{
    let truth = letters[lie_index];
    letters[lie_index] = lie_state(&truth, choice);
}

/// Replaces one tile, picked at random, by one of the two states it is not
/// in, picked at random. Tiles without any tile stay as they are.
pub fn apply_fibble_lie(letters: &mut Vec<LetterState>)
    ensures
        old(letters).len() == 0 ==> final(letters)@ == old(letters)@,
        old(letters).len() > 0 ==> is_single_lie(old(letters)@, final(letters)@),
{
    if letters.len() == 0 {
        return ;
    }
    let mut rng = rand::thread_rng();
    let lie_index = draw_below(&mut rng, letters.len());
    let truth = letters[lie_index];
    let lie = random_lie_state(&truth, &mut rng);
    let ghost before = letters@;
    letters[lie_index] = lie;
    proof {
        if lie == lie_of(truth, 0) {
            assert(letters@ == lied_tiles(before, lie_index as int, 0));
        } else {
            assert(letters@ == lied_tiles(before, lie_index as int, 1));
        }
    }
}

} // verus!
