use vstd::prelude::*;
use rand::rngs::StdRng;
use rand::{Rng, SeedableRng};

verus! {

/// The faces that `count` dice with `faces` faces show, one after another,
/// when they are thrown with a generator seeded with `seed`.
pub uninterp spec fn seeded_rolls(seed: u64, count: u32, faces: u32) -> Seq<u32>;

/// The number below `bound` that a generator seeded with `seed` draws first.
pub uninterp spec fn seeded_index(seed: u64, bound: u32) -> u32;

/// Throws `count` dice with `faces` faces: seeds `rand`'s `StdRng` with
/// `seed` through `SeedableRng::seed_from_u64` and draws each die with
/// `Rng::gen_range(1..=faces)`. The contract claims that the faces depend on
/// the three arguments alone, that there is one per die, and that each lies
/// between 1 and `faces`.
#[verifier::external_body]
pub(crate) fn roll_dice(seed: u64, count: u32, faces: u32) -> (rolls: Vec<u32>)
    requires
        faces >= 1,
    ensures
        rolls@ == seeded_rolls(seed, count, faces),
        rolls.len() == count,
        forall|i: int| 0 <= i < rolls.len() ==> 1 <= #[trigger] rolls[i] <= faces,
{
    let mut rng = StdRng::seed_from_u64(seed);
    (0..count).map(|_| rng.gen_range(1..=faces)).collect()
}

/// Draws a number below `bound`: seeds `rand`'s `StdRng` with `seed` through
/// `SeedableRng::seed_from_u64` and calls `Rng::gen_range(0..bound)` on
/// signed 32-bit numbers. The contract claims that the number depends on the
/// two arguments alone and that it is below `bound`.
#[verifier::external_body]
pub(crate) fn draw_below(seed: u64, bound: u32) -> (drawn: u32)
    requires
        1 <= bound <= i32::MAX,
    ensures
        drawn == seeded_index(seed, bound),
        drawn < bound,
{
    let mut rng = StdRng::seed_from_u64(seed);
    rng.gen_range(0..bound as i32) as u32
}

/// The sum of the numbers of `s`.
pub open spec fn seq_sum(s: Seq<u32>) -> int
    decreases s.len(),
{
    if s.len() == 0 {
        0
    } else {
        seq_sum(s.drop_last()) + s.last()
    }
}

/// A sum of numbers that are at most `cap` is at most `cap` times their
/// count, and is not negative.
pub proof fn lemma_seq_sum_bound(s: Seq<u32>, cap: int)
    requires
        forall|i: int| 0 <= i < s.len() ==> #[trigger] s[i] <= cap,
    ensures
        0 <= seq_sum(s) <= s.len() * cap,
    decreases s.len(),
{
    if s.len() > 0 {
        lemma_seq_sum_bound(s.drop_last(), cap);
        assert((s.len() - 1) * cap + cap == s.len() * cap) by (nonlinear_arith);
    } else {
        assert(0 * cap == 0);
    }
}

/// The sum of the numbers of `values`, where it fits.
pub fn sum_u32(values: &Vec<u32>) -> (total: u32)
    requires
        seq_sum(values@) <= u32::MAX,
    ensures
        total == seq_sum(values@),
{
    let mut total: u32 = 0;
    let mut i: usize = 0;
    while i < values.len()
        invariant
            i <= values.len(),
            total == seq_sum(values@.take(i as int)),
            seq_sum(values@) <= u32::MAX,
        decreases values.len() - i,
    {
        proof {
            assert(values@.take(i + 1).drop_last() =~= values@.take(i as int));
            lemma_seq_sum_prefix(values@, i + 1);
        }
        total = total + values[i];
        i = i + 1;
    }
    assert(values@.take(values.len() as int) =~= values@);
    total
}

/// The sum of a prefix is at most the sum of the whole.
pub proof fn lemma_seq_sum_prefix(s: Seq<u32>, n: int)
    requires
        0 <= n <= s.len(),
    ensures
        seq_sum(s.take(n)) <= seq_sum(s),
    decreases s.len(),
{
    if n == s.len() {
        assert(s.take(n) =~= s);
    } else {
        assert(s.drop_last().take(n) =~= s.take(n));
        lemma_seq_sum_prefix(s.drop_last(), n);
        lemma_seq_sum_bound(s.drop_last(), u32::MAX as int);
    }
}

/// The dice of a game: how many there are, how many faces each has, the seed
/// of the next throw and the sum that the last throw showed.
#[derive(Clone, Copy, Debug)]
pub struct Dice {
    pub n_dice: u32,
    pub n_faces: u32,
    pub seed: u64,
    pub n_throws: u32,
    pub draw: Option<u32>,
}

impl Dice {
    /// Dice that can be thrown: each has a face, and the largest sum stays
    /// below the largest `u32`.
    pub open spec fn wf(self) -> bool {
        self.n_faces >= 1 && self.n_dice * self.n_faces < u32::MAX
    }

    /// The dice after the next throw: the draw is the sum of the faces thrown
    /// with the current seed, and the seed moves on by one.
    pub open spec fn thrown(self) -> Dice {
        Dice {
            seed: if self.seed == u64::MAX {
                0
            } else {
                (self.seed + 1) as u64
            },
            draw: Some(seq_sum(seeded_rolls(self.seed, self.n_dice, self.n_faces)) as u32),
            ..self
        }
    }

    /// Dice that have not been thrown yet.
    pub fn new(n_dice: u32, n_faces: u32, seed: u64) -> (dice: Self)
        ensures
            dice == (Dice { n_dice, n_faces, seed, n_throws: 0, draw: None }),
    {
        Dice { n_dice, n_faces, seed, n_throws: 0, draw: None }
    }

    /// Whether the dice can be thrown.
    pub fn is_valid(&self) -> (valid: bool)
        ensures
            valid == self.wf(),
    {
        let dice: u64 = self.n_dice as u64;
        let faces: u64 = self.n_faces as u64;
        assert(dice * faces <= 0xffff_ffff * 0xffff_ffff) by (nonlinear_arith)
            requires
                dice <= 0xffff_ffff,
                faces <= 0xffff_ffff,
        ;
        self.n_faces >= 1 && dice * faces < 0xffff_ffff
    }

    /// Throws the dice: the result carries the sum of the faces and the seed
    /// of the throw after this one.
    pub fn throw(self) -> (dice: Self)
        requires
            self.wf(),
        ensures
            dice == self.thrown(),
            dice.draw matches Some(sum) && self.n_dice <= sum <= self.n_dice * self.n_faces,
    {
        let rolls = roll_dice(self.seed, self.n_dice, self.n_faces);
        proof {
            lemma_seq_sum_bound(rolls@, self.n_faces as int);
            lemma_seq_sum_at_least(rolls@, 1);
        }
        let sum = sum_u32(&rolls);
        Dice {
            n_dice: self.n_dice,
            n_faces: self.n_faces,
            seed: self.seed.wrapping_add(1),
            n_throws: self.n_throws,
            draw: Some(sum),
        }
    }
}

/// A sum of numbers that are at least `floor` is at least `floor` times
/// their count.
pub proof fn lemma_seq_sum_at_least(s: Seq<u32>, floor: int)
    requires
        forall|i: int| 0 <= i < s.len() ==> #[trigger] s[i] >= floor,
    ensures
        seq_sum(s) >= s.len() * floor,
    decreases s.len(),
{
    if s.len() > 0 {
        lemma_seq_sum_at_least(s.drop_last(), floor);
        assert((s.len() - 1) * floor + floor == s.len() * floor) by (nonlinear_arith);
    } else {
        assert(0 * floor == 0);
    }
}

} // verus!
