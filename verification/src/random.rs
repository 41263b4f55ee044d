//! Random choices.
use crate::addr::Peer;
use rand::rngs::ThreadRng;
use rand::seq::{IteratorRandom, SliceRandom};
use rand::Rng;
use rand_chacha::ChaChaRng;
use vstd::prelude::*;

verus! {

/// The type `rand_chacha::ChaChaRng`: a source of random numbers.
#[verifier::external_type_specification]
#[verifier::external_body]
pub struct ExChaChaRng(rand_chacha::ChaCha20Rng);

/// The type `rand::rngs::ThreadRng`: the source of random numbers that belongs to a thread.
#[verifier::external_type_specification]
#[verifier::external_body]
pub struct ExThreadRng(rand::rngs::ThreadRng);

/// `picked` holds the items of `from` that stand at the places `at`, of which no two are the same.
pub open spec fn picked_at(from: Seq<Peer>, picked: Seq<Peer>, at: Seq<int>) -> bool {
    &&& at.len() == picked.len()
    &&& at.no_duplicates()
    &&& forall|i: int|
        0 <= i < at.len() ==> 0 <= #[trigger] at[i] < from.len() && picked[i] == from[at[i]]
}

/// `picked` is a sample of `from` of the given size, without repetition; of all of `from`, where it
/// has no more items than that.
pub open spec fn sample_of(from: Seq<Peer>, picked: Seq<Peer>, amount: nat) -> bool {
    &&& picked.len() == if amount <= from.len() {
        amount
    } else {
        from.len()
    }
    &&& exists|at: Seq<int>| picked_at(from, picked, at)
}

/// A draw with a probability of `numerator` in `denominator`, and how it came out.
#[derive(Clone, Copy, Debug)]
pub struct Draw {
    pub numerator: u32,
    pub denominator: u32,
    pub came_out: bool,
}

/// `Rng::gen_ratio`: a draw that comes out with a probability of `numerator` in `denominator`. How
/// it comes out is a matter of chance, but for a probability of one or of zero.
#[verifier::external_body]
fn gen_ratio(rng: &mut ChaChaRng, numerator: u32, denominator: u32) -> (r: Draw)
    requires
        0 < denominator,
        numerator <= denominator,
    ensures
        r.numerator == numerator,
        r.denominator == denominator,
        numerator == denominator ==> r.came_out,
        numerator == 0 ==> !r.came_out,
{
    Draw { numerator, denominator, came_out: rng.gen_ratio(numerator, denominator) }
}

/// `IteratorRandom::choose` on the items of a slice: one of them at random, or `None` if there is
/// none. Which one is a matter of chance.
#[verifier::external_body]
fn choose_one(rng: &mut ChaChaRng, from: &[Peer]) -> (r: Option<Peer>)
    ensures
        match r {
            Some(peer) => from@.contains(peer),
            None => from@.len() == 0,
        },
{
    from.iter().choose(rng).copied()
}

/// `SliceRandom::choose_multiple`: a random sample without repetition, in random order. Which items
/// it holds is a matter of chance.
#[verifier::external_body]
fn choose_multiple(rng: &mut ChaChaRng, from: &[Peer], amount: usize) -> (r: Vec<Peer>)
    ensures
        sample_of(from@, r@, amount as nat),
{
    from.choose_multiple(rng, amount).copied().collect()
}

/// A source of random choices that remembers with which chances it was asked to draw, and how the
/// draws came out.
pub struct Chance {
    rng: ChaChaRng,
    draws: Ghost<Seq<Draw>>,
}

impl Chance {
    /// The draws so far, oldest first.
    pub closed spec fn draws(&self) -> Seq<Draw> {
        self.draws@
    }

    /// A source from which nothing was drawn yet.
    pub fn new(rng: ChaChaRng) -> (r: Chance)
        ensures
            r.draws() == Seq::<Draw>::empty(),
    {
        Chance { rng, draws: Ghost(Seq::empty()) }
    }

    /// True with a probability of `numerator` in `denominator`.
    pub fn flip(&mut self, numerator: u32, denominator: u32) -> (r: bool)
        requires
            0 < denominator,
            numerator <= denominator,
        ensures
            final(self).draws() == old(self).draws().push(
                Draw { numerator, denominator, came_out: r },
            ),
            numerator == denominator ==> r,
            numerator == 0 ==> !r,
    {
        let draw = gen_ratio(&mut self.rng, numerator, denominator);
        self.draws = Ghost(self.draws@.push(draw));
        draw.came_out
    }

    /// One of the peers at random.
    pub fn pick(&mut self, from: &Vec<Peer>) -> (r: Option<Peer>)
        ensures
            final(self).draws() == old(self).draws(),
            match r {
                Some(peer) => from@.contains(peer),
                None => from@.len() == 0,
            },
    {
        choose_one(&mut self.rng, from.as_slice())
    }

    /// A random sample of the peers.
    pub fn sample(&mut self, from: &Vec<Peer>, amount: usize) -> (r: Vec<Peer>)
        ensures
            final(self).draws() == old(self).draws(),
            sample_of(from@, r@, amount as nat),
    {
        choose_multiple(&mut self.rng, from.as_slice(), amount)
    }
}

/// `SliceRandom::choose` with the source of the thread: one item at random, or `None` if there is
/// none. Which one is a matter of chance.
#[verifier::external_body]
pub(crate) fn thread_choose_one(rng: &mut ThreadRng, from: &[Peer]) -> (r: Option<Peer>)
    ensures
        match r {
            Some(peer) => from@.contains(peer),
            None => from@.len() == 0,
        },
{
    from.choose(rng).copied()
}

/// `SliceRandom::choose_multiple` with the source of the thread: a random sample without
/// repetition, in random order. Which items it holds is a matter of chance.
#[verifier::external_body]
pub(crate) fn thread_choose_multiple(rng: &mut ThreadRng, from: &[Peer], amount: usize) -> (r: Vec<
    Peer,
>)
    ensures
        sample_of(from@, r@, amount as nat),
{
    from.choose_multiple(rng, amount).copied().collect()
}

} // verus!
