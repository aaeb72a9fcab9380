//! Deterministic, position-addressable stream of short alphanumeric samples.
//!
//! The sample at position `p` is the window of `DATA_LEN` characters that
//! starts at offset `p % EPOCH_LEN` of the character stream of epoch
//! `p / EPOCH_LEN`; each epoch's stream comes from an XorShift generator
//! seeded with the master seed, the epoch folded into its last two words.
use rand::Rng;
use rand::SeedableRng;
use rand::XorShiftRng;
use vstd::prelude::*;

verus! {

/// Length in bytes of one sample.
pub const DATA_LEN: usize = 8;

/// Number of positions that share one reseed point.
pub const EPOCH_LEN: usize = 1024;

#[verifier::external_type_specification]
#[verifier::external_body]
pub struct ExXorShiftRng(XorShiftRng);

/// The `k`-th character (counting from 0) of rand's alphanumeric character
/// stream drawn from an `XorShiftRng` seeded with `seed`.
pub uninterp spec fn seeded_ascii_char(seed: Seq<u32>, k: nat) -> u8;

/// The seed that an `XorShiftRng` was last given.
pub uninterp spec fn rng_seed(r: XorShiftRng) -> Seq<u32>;

/// The number of alphanumeric characters drawn from an `XorShiftRng` since it
/// was last seeded.
pub uninterp spec fn rng_drawn(r: XorShiftRng) -> nat;

/// The characters of rand's alphanumeric charset: `A-Z`, `a-z`, `0-9`.
pub open spec fn is_alnum(c: u8) -> bool {
    (0x41 <= c <= 0x5a) || (0x61 <= c <= 0x7a) || (0x30 <= c <= 0x39)
}

/// A seed of four zero words, which the XorShift generator refuses.
pub open spec fn all_zero(seed: Seq<u32>) -> bool {
    seed.len() == 4 && seed[0] == 0 && seed[1] == 0 && seed[2] == 0 && seed[3] == 0
}

/// Relies on rand's `XorShiftRng::new_unseeded`: a generator with a fixed
/// default state, reseeded before any draw.
#[verifier::external_body]
fn rng_unseeded() -> (r: XorShiftRng) {
    XorShiftRng::new_unseeded()
}

/// Relies on rand's `SeedableRng::reseed` for `XorShiftRng`: the state is set
/// from the four seed words alone (it panics on an all-zero seed).
#[verifier::external_body]
fn rng_reseed(rng: &mut XorShiftRng, seed: [u32; 4])
    requires
        !all_zero(seed@),
    ensures
        rng_seed(*final(rng)) == seed@,
        rng_drawn(*final(rng)) == 0,
{
    rng.reseed(seed);
}

/// Relies on rand's `Rng::gen_ascii_chars`: each `next` picks one character
/// of `A-Za-z0-9` from the generator's stream and never ends.
#[verifier::external_body]
fn next_ascii_char(rng: &mut XorShiftRng) -> (c: u8)
    ensures
        c == seeded_ascii_char(rng_seed(*old(rng)), rng_drawn(*old(rng))),
        is_alnum(c),
        rng_seed(*final(rng)) == rng_seed(*old(rng)),
        rng_drawn(*final(rng)) == rng_drawn(*old(rng)) + 1,
{
    rng.gen_ascii_chars().next().unwrap() as u8
}

/// `a + b` modulo `2^32`.
pub open spec fn wrap_add(a: u32, b: u32) -> u32 {
    if a + b > u32::MAX {
        (a + b - 0x1_0000_0000) as u32
    } else {
        (a + b) as u32
    }
}

/// The seed of epoch `epoch`: the epoch's high word is added to word 2 of the
/// master seed and its low word to word 3, both wrapping.
pub open spec fn epoch_seed(seed: Seq<u32>, epoch: nat) -> Seq<u32> {
    seed.update(2, wrap_add(seed[2], (epoch / 0x1_0000_0000) as u32)).update(
        3,
        wrap_add(seed[3], (epoch % 0x1_0000_0000) as u32),
    )
}

/// The sample at position `p` under master seed `seed`.
pub open spec fn sample_of(seed: Seq<u32>, p: nat) -> Seq<u8> {
    Seq::new(
        DATA_LEN as nat,
        |k: int| seeded_ascii_char(epoch_seed(seed, p / EPOCH_LEN as nat), (p % EPOCH_LEN as nat + k) as nat),
    )
}

/// Master seeds that no epoch turns into the all-zero seed.
pub open spec fn seed_ok(seed: Seq<u32>) -> bool {
    seed.len() == 4 && (seed[0] != 0 || seed[1] != 0)
}

/// Whether `seed` can serve as a master seed.
pub fn seed_is_usable(seed: [u32; 4]) -> (r: bool)
    ensures
        r == seed_ok(seed@),
{
    seed[0] != 0 || seed[1] != 0
}

/// Moves every byte one place towards the front; the last byte stays.
pub fn shift_left(data: &mut [u8])
    requires
        old(data)@.len() >= 1,
    ensures
        final(data)@ == old(data)@.drop_first().push(old(data)@.last()),
{
    let n: usize = data.len();
    let mut i: usize = 0;
    while i < n - 1
        invariant
            n == data@.len() == old(data)@.len(),
            n >= 1,
            i <= n - 1,
            forall|j: int| 0 <= j < i ==> data@[j] == old(data)@[j + 1],
            forall|j: int| i <= j < n ==> data@[j] == old(data)@[j],
        decreases n - 1 - i,
    {
        data[i] = data[i + 1];
        i = i + 1;
    }
    assert(data@ =~= old(data)@.drop_first().push(old(data)@.last()));
}

/// A generator positioned on one sample of the stream.
pub struct DataGenerator {
    initial_seed: [u32; 4],
    data: [u8; 8],
    rng: XorShiftRng,
    i: usize,
}

impl DataGenerator {
    /// The master seed.
    pub closed spec fn seed(&self) -> Seq<u32> {
        self.initial_seed@
    }

    /// The current position.
    pub closed spec fn pos(&self) -> nat {
        self.i as nat
    }

    /// The window holds the sample of the current position, and the random
    /// stream stands right after it within the current epoch.
    pub closed spec fn wf(&self) -> bool {
        &&& seed_ok(self.initial_seed@)
        &&& rng_seed(self.rng) == epoch_seed(self.initial_seed@, self.i as nat / EPOCH_LEN as nat)
        &&& rng_drawn(self.rng) == self.i as nat % EPOCH_LEN as nat + DATA_LEN as nat
        &&& self.data@ == sample_of(self.initial_seed@, self.i as nat)
    }

    /// A generator for master seed `initial_seed`, positioned on `i`.
    pub fn new(initial_seed: [u32; 4], i: usize) -> (r: DataGenerator)
        requires
            seed_ok(initial_seed@),
        ensures
            r.wf(),
            r.seed() == initial_seed@,
            r.pos() == i,
    {
        let mut result = DataGenerator { initial_seed, data: [0; 8], rng: rng_unseeded(), i: 0 };
        result.reseed(i);
        result
    }

    /// Moves to position `i`: one step along the window when `i` follows the
    /// current position within its epoch, a reseed otherwise.
    pub fn set_i(&mut self, i: usize)
        requires
            old(self).wf(),
        ensures
            final(self).wf(),
            final(self).seed() == old(self).seed(),
            final(self).pos() == i,
    {
        if self.i < usize::MAX && self.i + 1 == i && i % EPOCH_LEN != 0 {
            let ghost seed = self.initial_seed@;
            let ghost prev = self.data@;
            proof {
                lemma_window_slides(seed, self.i as nat);
            }
            shift_left(&mut self.data);
            let c = next_ascii_char(&mut self.rng);
            self.data[DATA_LEN - 1] = c;
            self.i = i;
            assert(self.data@ =~= sample_of(seed, i as nat));
        } else if self.i != i {
            self.reseed(i);
        }
    }

    /// The sample at position `i`; the generator is left on the next position.
    pub fn data(&mut self, i: usize) -> (r: [u8; 8])
        requires
            old(self).wf(),
        ensures
            r@ == sample_of(old(self).seed(), i as nat),
            final(self).wf(),
            final(self).seed() == old(self).seed(),
            final(self).pos() == next_pos(i as nat),
    {
        self.set_i(i);
        let r = self.next();
        r.unwrap()
    }

    /// Reseeds for the epoch of `i` and fills the window with the sample at `i`.
    pub fn reseed(&mut self, i: usize)
        requires
            seed_ok(old(self).seed()),
        ensures
            final(self).wf(),
            final(self).seed() == old(self).seed(),
            final(self).pos() == i,
    {
        let ghost master = self.initial_seed@;
        let last_reseed: usize = i / EPOCH_LEN;
        let e: u64 = last_reseed as u64;
        let mut seed: [u32; 4] = self.initial_seed;
        seed[2] = seed[2].wrapping_add((e / 0x1_0000_0000) as u32);
        seed[3] = seed[3].wrapping_add((e % 0x1_0000_0000) as u32);
        assert(seed@ =~= epoch_seed(master, last_reseed as nat));
        rng_reseed(&mut self.rng, seed);
        let skip: usize = i % EPOCH_LEN;
        let mut n: usize = 0;
        while n < skip
            invariant
                n <= skip,
                rng_seed(self.rng) == seed@,
                rng_drawn(self.rng) == n,
                self.initial_seed@ == master,
            decreases skip - n,
        {
            let _ = next_ascii_char(&mut self.rng);
            n = n + 1;
        }
        let mut k: usize = 0;
        while k < DATA_LEN
            invariant
                k <= DATA_LEN,
                rng_seed(self.rng) == seed@,
                rng_drawn(self.rng) == skip + k,
                self.initial_seed@ == master,
                skip == i % EPOCH_LEN,
                seed@ == epoch_seed(master, i as nat / EPOCH_LEN as nat),
                forall|j: int| 0 <= j < k ==> self.data@[j] == sample_of(master, i as nat)[j],
            decreases DATA_LEN - k,
        {
            let c = next_ascii_char(&mut self.rng);
            self.data[k] = c;
            k = k + 1;
        }
        self.i = i;
        assert(self.data@ =~= sample_of(master, i as nat));
    }

    /// The sample at the current position; the generator moves on by one.
    pub fn next(&mut self) -> (r: Option<[u8; 8]>)
        requires
            old(self).wf(),
        ensures
            r matches Some(d) && d@ == sample_of(old(self).seed(), old(self).pos()),
            final(self).wf(),
            final(self).seed() == old(self).seed(),
            final(self).pos() == next_pos(old(self).pos()),
    {
        let result = self.data;
        let i: usize = self.i.wrapping_add(1);
        self.set_i(i);
        Some(result)
    }
}

/// The position after `p`; it wraps to 0 past the largest position.
pub open spec fn next_pos(p: nat) -> nat {
    if p == usize::MAX {
        0
    } else {
        p + 1
    }
}

/// Stepping from `p` to `p + 1` inside one epoch slides the window: the first
/// character leaves and the next character of the same epoch's stream enters.
pub proof fn lemma_window_slides(seed: Seq<u32>, p: nat)
    requires
        (p + 1) % EPOCH_LEN as nat != 0,
    ensures
        sample_of(seed, p + 1) == sample_of(seed, p).drop_first().push(
            seeded_ascii_char(epoch_seed(seed, p / EPOCH_LEN as nat), p % EPOCH_LEN as nat + DATA_LEN as nat),
        ),
{
    assert((p + 1) / EPOCH_LEN as nat == p / EPOCH_LEN as nat);
    assert((p + 1) % EPOCH_LEN as nat == p % EPOCH_LEN as nat + 1);
    assert(sample_of(seed, p + 1) =~= sample_of(seed, p).drop_first().push(
        seeded_ascii_char(epoch_seed(seed, p / EPOCH_LEN as nat), p % EPOCH_LEN as nat + DATA_LEN as nat),
    ));
}

} // verus!
