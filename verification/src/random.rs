use rand::Rng;
use vstd::prelude::*;

verus! {

/// The multiplier of the reproducible generator.
pub const MULTIPLIER_A: i64 = 1103515245;

/// The increment of the reproducible generator.
pub const INCREMENT_C: i64 = 12345;

/// The modulus of the reproducible generator.
pub const MODULUS_M: i64 = 2147483647;

/// The seed of a reproducible generator made by `default`.
pub const DEFAULT_SEED: i64 = 3819201;

/// A source of random numbers for the search.
///
/// The search is written against this trait so that a reproducible source
/// can stand in for a truly random one.
pub trait RandomGenerator: Default {
    /// Whether the numbers that this generator gives are fixed by its
    /// state. Of a generator for which this does not hold, the other
    /// specification functions say nothing.
    spec fn is_reproducible(&self) -> bool;

    /// The number that `next` gives, for a reproducible generator.
    spec fn next_number(&self) -> i32;

    /// The generator after `next`, for a reproducible generator.
    spec fn after_next(&self) -> Self;

    /// The number that `next_range` gives, for a reproducible generator.
    spec fn number_in_range(&self, from: i32, to: i32) -> i32;

    /// The generator after `next_range`, for a reproducible generator.
    spec fn after_next_range(&self, from: i32, to: i32) -> Self;

    /// Returns the next random `i32`.
    fn next(&mut self) -> (number: i32)
        ensures
            old(self).is_reproducible() ==> {
                &&& number == old(self).next_number()
                &&& *final(self) == old(self).after_next()
                &&& final(self).is_reproducible()
            },
    ;

    /// Returns a random `i32` that is at least `from` and less than `to`.
    fn next_range(&mut self, from: i32, to: i32) -> (picked: i32)
        requires
            from < to,
        ensures
            from <= picked < to,
            old(self).is_reproducible() ==> {
                &&& picked == old(self).number_in_range(from, to)
                &&& *final(self) == old(self).after_next_range(from, to)
                &&& final(self).is_reproducible()
            },
    ;

    /// Returns a randomly chosen element of a vector.
    fn get_random_from_vec<'a, K>(&mut self, vec: &'a Vec<K>) -> (picked: &'a K)
        requires
            0 < vec@.len() <= i32::MAX,
        ensures
            vec@.contains(*picked),
    {
        let index = self.next_range(0, vec.len() as i32) as usize;
        &vec[index]
    }
}

/// `rand::random`: some `i32`; nothing is known of it.
#[verifier::external_body]
fn thread_random() -> i32 {
    rand::random()
}

/// `rand::Rng::random_range` on the generator that `rand::rng` gives for
/// the current thread: a value of the half-open range from `from` to `to`,
/// which must not be empty.
#[verifier::external_body]
fn thread_random_range(from: i32, to: i32) -> (picked: i32)
    requires
        from < to,
    ensures
        from <= picked < to,
{
    rand::rng().random_range(from..to)
}

/// A generator that draws its numbers from the operating system's randomness.
pub struct StandardRandomGenerator;

impl Default for StandardRandomGenerator {
    /// Creates the generator.
    fn default() -> Self {
        StandardRandomGenerator
    }
}

impl RandomGenerator for StandardRandomGenerator {
    open spec fn is_reproducible(&self) -> bool {
        false
    }

    open spec fn next_number(&self) -> i32 {
        0
    }

    open spec fn after_next(&self) -> Self {
        *self
    }

    open spec fn number_in_range(&self, from: i32, to: i32) -> i32 {
        from
    }

    open spec fn after_next_range(&self, from: i32, to: i32) -> Self {
        *self
    }

    fn next(&mut self) -> (number: i32) {
        thread_random()
    }

    fn next_range(&mut self, from: i32, to: i32) -> (picked: i32) {
        assert(!self.is_reproducible());
        thread_random_range(from, to)
    }
}

/// The generator after `count` calls of `next`, for a reproducible generator.
pub open spec fn after_numbers<K: RandomGenerator>(random: K, count: nat) -> K
    decreases count,
{
    if count == 0 {
        random
    } else {
        after_numbers(random, (count - 1) as nat).after_next()
    }
}

/// The numbers that `count` calls of `next` give, for a reproducible
/// generator.
pub open spec fn numbers<K: RandomGenerator>(random: K, count: nat) -> Seq<i32>
    decreases count,
{
    if count == 0 {
        Seq::empty()
    } else {
        numbers(random, (count - 1) as nat).push(
            after_numbers(random, (count - 1) as nat).next_number(),
        )
    }
}

/// The remainder of `a` divided by a positive `m` that has the sign of `a`.
pub open spec fn rem_toward_zero(a: int, m: int) -> int {
    if a >= 0 {
        a % m
    } else {
        -((-a) % m)
    }
}

/// The seed that follows `seed` in the reproducible generator.
pub open spec fn next_seed(seed: int) -> int {
    rem_toward_zero(seed * MULTIPLIER_A + INCREMENT_C, MODULUS_M as int)
}

/// The number that the reproducible generator picks from the half-open range
/// from `from` to `to` when its seed has just become `seed`.
pub open spec fn ranged(seed: int, from: int, to: int) -> int {
    let r = rem_toward_zero(seed, to - from);
    (if r < 0 {
        -r
    } else {
        r
    }) + from
}

/// Whether the generator can step from `seed` without leaving the range of `i64`.
pub open spec fn seed_fits(seed: int) -> bool {
    i64::MIN <= seed * MULTIPLIER_A + INCREMENT_C <= i64::MAX
}

/// A linear congruential generator: the same seed gives the same numbers.
pub struct CustomNumberGenerator {
    seed: i64,
}

/// Returns the remainder of `a` divided by `m` that has the sign of `a`.
fn rem_i64(a: i64, m: i64) -> (r: i64)
    requires
        m > 0,
        a > i64::MIN,
    ensures
        r == rem_toward_zero(a as int, m as int),
        -m < r < m,
{
    if a >= 0 {
        a % m
    } else {
        -((-a) % m)
    }
}

/// The generator can step from every seed that is smaller in size than
/// the modulus.
proof fn lemma_small_seed_fits(seed: int)
    requires
        -MODULUS_M < seed < MODULUS_M,
    ensures
        seed_fits(seed),
{
    assert(-2147483647 * 1103515245 <= seed * 1103515245 <= 2147483647 * 1103515245)
        by (nonlinear_arith)
        requires
            -2147483647 < seed < 2147483647,
    ;
}

impl CustomNumberGenerator {
    /// The generator can always step from its seed.
    #[verifier::type_invariant]
    spec fn steppable(&self) -> bool {
        seed_fits(self.seed as int)
    }

    /// The current seed.
    pub closed spec fn seed(&self) -> int {
        self.seed as int
    }

    /// The generator whose seed is `seed`.
    pub closed spec fn of_seed(seed: int) -> Self {
        CustomNumberGenerator { seed: seed as i64 }
    }

    /// The generator made of a seed has that seed, and a generator is made
    /// of its seed.
    pub proof fn lemma_of_seed(&self, seed: int)
        requires
            i64::MIN <= seed <= i64::MAX,
        ensures
            Self::of_seed(seed).seed() == seed,
            Self::of_seed(self.seed()) == *self,
    {
    }

    /// Creates a generator that starts from `seed`.
    pub fn new(seed: i64) -> (generator: Self)
        requires
            seed_fits(seed as int),
        ensures
            generator.seed() == seed,
    {
        Self { seed }
    }
}

impl Default for CustomNumberGenerator {
    /// Creates a generator that starts from the default seed.
    fn default() -> (generator: Self)
        ensures
            generator.seed() == DEFAULT_SEED,
    {
        assert(seed_fits(DEFAULT_SEED as int));
        CustomNumberGenerator::new(DEFAULT_SEED)
    }
}

impl RandomGenerator for CustomNumberGenerator {
    open spec fn is_reproducible(&self) -> bool {
        true
    }

    open spec fn next_number(&self) -> i32 {
        next_seed(self.seed()) as i32
    }

    open spec fn after_next(&self) -> Self {
        Self::of_seed(next_seed(self.seed()))
    }

    open spec fn number_in_range(&self, from: i32, to: i32) -> i32 {
        ranged(next_seed(self.seed()), from as int, to as int) as i32
    }

    open spec fn after_next_range(&self, from: i32, to: i32) -> Self {
        Self::of_seed(next_seed(self.seed()))
    }

    fn next(&mut self) -> (value: i32)
        ensures
            final(self).seed() == next_seed(old(self).seed()),
            value == final(self).seed(),
    {
        proof {
            use_type_invariant(&*self);
        }
        let stepped = rem_i64(self.seed * MULTIPLIER_A + INCREMENT_C, MODULUS_M);
        proof {
            lemma_small_seed_fits(stepped as int);
        }
        self.seed = stepped;
        stepped as i32
    }

    fn next_range(&mut self, from: i32, to: i32) -> (picked: i32)
        ensures
            final(self).seed() == next_seed(old(self).seed()),
            picked == ranged(final(self).seed(), from as int, to as int),
    {
        let value = self.next() as i64;
        let r = rem_i64(value, to as i64 - from as i64);
        let offset = if r < 0 {
            -r
        } else {
            r
        };
        (offset + from as i64) as i32
    }

    fn get_random_from_vec<'a, K>(&mut self, vec: &'a Vec<K>) -> (picked: &'a K)
        ensures
            final(self).seed() == next_seed(old(self).seed()),
            *picked == vec@[ranged(final(self).seed(), 0, vec@.len() as int)],
    {
        let index = self.next_range(0, vec.len() as i32) as usize;
        &vec[index]
    }
}

} // verus!
