//! The search itself: workers that fingerprint their range of positions in
//! batches, and the coordinator that merges those fingerprints into the index
//! and adjudicates every key that is hit twice.
use crate::digest::{be_value, fingerprint_key, oneshot_hash, sha256_of, truncate_hash, truncated, DIGEST_LEN};
use crate::generator::{sample_of, seed_ok, DataGenerator};
use crate::index::CollisionIndex;
use crate::partition::{range_start, worker_range};
use vstd::arithmetic::div_mod::{lemma_fundamental_div_mod, lemma_mod_multiples_basic};
use vstd::prelude::*;

verus! {

/// Widest fingerprint, in bits, that an index key holds.
pub const MAX_COMPARE_BITS: usize = 64;

/// The secondary check on two full digests: they must agree on the bits of
/// `mask` in byte `byte`.
#[derive(Clone, Copy, Debug, PartialEq, Eq, Structural)]
pub struct DigestFilter {
    pub byte: usize,
    pub mask: u8,
}

/// Whether digests `d1` and `d2` pass filter `f`.
pub open spec fn filter_agrees(f: DigestFilter, d1: Seq<u8>, d2: Seq<u8>) -> bool {
    d1[f.byte as int] & f.mask == d2[f.byte as int] & f.mask
}

/// How a fingerprint hit between two different positions is judged.
#[derive(Clone, Copy, Debug, PartialEq, Eq, Structural)]
pub enum Verdict {
    /// The two samples are byte for byte the same.
    Duplicate,
    /// The samples differ but their full digests fail the filter.
    Inconclusive,
    /// The samples differ and their full digests pass the filter.
    Verified,
}

/// The verdict on samples `s1`, `s2` with full digests `d1`, `d2`.
pub open spec fn verdict_of(s1: Seq<u8>, s2: Seq<u8>, d1: Seq<u8>, d2: Seq<u8>, f: DigestFilter) -> Verdict {
    if s1 == s2 {
        Verdict::Duplicate
    } else if filter_agrees(f, d1, d2) {
        Verdict::Verified
    } else {
        Verdict::Inconclusive
    }
}

/// Two identical samples are a duplicate, whatever digests come with them.
pub proof fn lemma_identical_samples_are_duplicates(s: Seq<u8>, d1: Seq<u8>, d2: Seq<u8>, f: DigestFilter)
    ensures
        verdict_of(s, s, d1, d2, f) == Verdict::Duplicate,
{
}

/// Whether `a` and `b` hold the same bytes.
pub fn same_bytes(a: &[u8], b: &[u8]) -> (r: bool)
    ensures
        r == (a@ == b@),
{
    if a.len() != b.len() {
        return false;
    }
    let mut i: usize = 0;
    while i < a.len()
        invariant
            a@.len() == b@.len(),
            i <= a@.len(),
            forall|j: int| 0 <= j < i ==> a@[j] == b@[j],
        decreases a@.len() - i,
    {
        if a[i] != b[i] {
            return false;
        }
        i = i + 1;
    }
    assert(a@ =~= b@);
    true
}

/// Judges a fingerprint hit from the two samples and their full digests.
pub fn judge_pair(
    old_sample: &[u8],
    new_sample: &[u8],
    old_digest: &[u8],
    new_digest: &[u8],
    filter: DigestFilter,
) -> (r: Verdict)
    requires
        filter.byte < old_digest@.len(),
        filter.byte < new_digest@.len(),
    ensures
        r == verdict_of(old_sample@, new_sample@, old_digest@, new_digest@, filter),
{
    if same_bytes(old_sample, new_sample) {
        Verdict::Duplicate
    } else if old_digest[filter.byte] & filter.mask == new_digest[filter.byte] & filter.mask {
        Verdict::Verified
    } else {
        Verdict::Inconclusive
    }
}

/// Index key of the sample at position `p`: its truncated digest read as a
/// big-endian number.
pub open spec fn sample_key(seed: Seq<u32>, p: nat, bits: nat) -> nat {
    be_value(truncated(sha256_of(sample_of(seed, p)), bits))
}

/// Two samples with one key share their fingerprint.
pub proof fn lemma_equal_keys_equal_fingerprints(seed: Seq<u32>, p: nat, q: nat, bits: nat)
    requires
        bits <= 8 * DIGEST_LEN,
        sha256_of(sample_of(seed, p)).len() == DIGEST_LEN,
        sha256_of(sample_of(seed, q)).len() == DIGEST_LEN,
        sample_key(seed, p, bits) == sample_key(seed, q, bits),
    ensures
        truncated(sha256_of(sample_of(seed, p)), bits) == truncated(sha256_of(sample_of(seed, q)), bits),
{
    crate::digest::lemma_be_value_injective(
        truncated(sha256_of(sample_of(seed, p)), bits),
        truncated(sha256_of(sample_of(seed, q)), bits),
    );
}

/// The progress marker due when the global count of processed positions
/// goes from `before` to `before + n`: the first multiple of `stride` among
/// `before..before + n`, if any.
pub fn progress_marker(before: usize, n: usize, stride: usize) -> (r: Option<usize>)
    requires
        stride > 0,
    ensures
        match r {
            Some(m) => {
                &&& before <= m < before + n
                &&& m % stride == 0
                &&& forall|q: int| before <= q < m ==> #[trigger] (q % stride as int) != 0
            },
            None => forall|q: int|
                before <= q < before + n && q <= usize::MAX ==> #[trigger] (q % stride as int) != 0,
        },
{
    let rem: usize = before % stride;
    let gap: usize = if rem == 0 { 0 } else { stride - rem };
    proof {
        lemma_fundamental_div_mod(before as int, stride as int);
        let b = before as int;
        let s = stride as int;
        let d = b / s;
        assert forall|q: int| b <= q < b + gap implies #[trigger] (q % s) != 0 by {
            lemma_fundamental_div_mod(q, s);
            let e = q / s;
            assert(q % s != 0) by (nonlinear_arith)
                requires
                    b == s * d + (b % s),
                    q == s * e + (q % s),
                    0 <= b % s < s,
                    0 <= q % s < s,
                    b <= q < b + (s - b % s),
                    b % s != 0,
            ;
        }
        if gap > 0 {
            assert((b + gap) % s == 0) by {
                lemma_mod_multiples_basic(d + 1, s);
                assert(b + gap == (d + 1) * s) by (nonlinear_arith)
                    requires
                        b == s * d + (b % s),
                        gap == s - b % s,
                ;
            }
        }
    }
    if gap < n && gap <= usize::MAX - before {
        Some(before + gap)
    } else {
        None
    }
}

/// A worker: fingerprints the positions `next..end` of its range in order.
pub struct Worker {
    generator: DataGenerator,
    next: usize,
    end: usize,
    bits: usize,
}

impl Worker {
    /// The master seed.
    pub closed spec fn seed(&self) -> Seq<u32> {
        self.generator.seed()
    }

    /// The next position to fingerprint.
    pub closed spec fn next_pos(&self) -> nat {
        self.next as nat
    }

    /// The end of the range, exclusive.
    pub closed spec fn end_pos(&self) -> nat {
        self.end as nat
    }

    /// The fingerprint width in bits.
    pub closed spec fn bits(&self) -> nat {
        self.bits as nat
    }

    /// The generator stands on the next position, inside the range.
    pub closed spec fn wf(&self) -> bool {
        &&& self.generator.wf()
        &&& self.generator.pos() == self.next
        &&& self.next <= self.end
        &&& self.bits <= MAX_COMPARE_BITS
    }

    /// Worker `t` of `count`, sharing `total` positions, with fingerprints
    /// of `bits` bits.
    pub fn new(initial_seed: [u32; 4], bits: usize, total: usize, count: usize, t: usize) -> (r: Worker)
        requires
            seed_ok(initial_seed@),
            bits <= MAX_COMPARE_BITS,
            count > 0,
            t < count,
        ensures
            r.wf(),
            r.seed() == initial_seed@,
            r.bits() == bits,
            r.next_pos() == range_start(total as nat, count as nat, t as nat),
            r.end_pos() == range_start(total as nat, count as nat, t as nat + 1),
    {
        let (start, end) = worker_range(total, count, t);
        Worker { generator: DataGenerator::new(initial_seed, start), next: start, end, bits }
    }

    /// Whether the whole range has been fingerprinted.
    pub fn is_done(&self) -> (r: bool)
        ensures
            r == (self.next_pos() == self.end_pos()),
    {
        self.next == self.end
    }

    /// Fingerprints the next `batch_size` positions of the range, or as many
    /// as are left, as pairs of index key and position.
    pub fn next_batch(&mut self, batch_size: usize) -> (r: Vec<(u64, usize)>)
        requires
            old(self).wf(),
        ensures
            final(self).wf(),
            final(self).seed() == old(self).seed(),
            final(self).bits() == old(self).bits(),
            final(self).end_pos() == old(self).end_pos(),
            r@.len() == (if batch_size <= old(self).end_pos() - old(self).next_pos() {
                batch_size as int
            } else {
                old(self).end_pos() - old(self).next_pos()
            }),
            final(self).next_pos() == old(self).next_pos() + r@.len(),
            forall|k: int|
                0 <= k < r@.len() ==> {
                    &&& (#[trigger] r@[k]).1 == old(self).next_pos() + k
                    &&& r@[k].0 as nat == sample_key(old(self).seed(), old(self).next_pos() + k as nat, old(self).bits())
                },
    {
        let n: usize = if batch_size <= self.end - self.next { batch_size } else { self.end - self.next };
        let ghost start = self.next as nat;
        let mut batch: Vec<(u64, usize)> = Vec::with_capacity(n);
        let mut k: usize = 0;
        while k < n
            invariant
                self.wf(),
                self.seed() == old(self).seed(),
                self.bits == old(self).bits,
                self.end == old(self).end,
                n <= old(self).end - old(self).next,
                k <= n,
                self.next == start + k,
                start == old(self).next,
                batch@.len() == k,
                forall|j: int|
                    0 <= j < k ==> {
                        &&& (#[trigger] batch@[j]).1 == start + j
                        &&& batch@[j].0 as nat == sample_key(old(self).seed(), start + j as nat, old(self).bits())
                    },
            decreases n - k,
        {
            let pos: usize = self.next;
            let sample = self.generator.next().unwrap();
            let digest = oneshot_hash(&sample);
            proof {
                assert(digest@.len() == DIGEST_LEN);
            }
            let fp = truncate_hash(&digest, self.bits);
            let key = fingerprint_key(&fp);
            batch.push((key, pos));
            self.next = pos + 1;
            k = k + 1;
        }
        batch
    }
}

/// The two samples of a verified collision, where they stand, their full
/// digests, and the fingerprint they share.
#[derive(Debug)]
pub struct CollisionReport {
    pub old_position: usize,
    pub new_position: usize,
    pub old_sample: [u8; 8],
    pub new_sample: [u8; 8],
    pub old_digest: [u8; 32],
    pub new_digest: [u8; 32],
    pub fingerprint: Vec<u8>,
}

/// What the coordinator makes of one (key, position) pair.
#[derive(Debug)]
pub enum Event {
    /// The key was new, or held this very position.
    Recorded,
    /// The key held another position whose sample is the same.
    Duplicate,
    /// The key held another position with a different sample, whose digest
    /// fails the filter.
    Inconclusive,
    /// The key held another position with a different sample, whose digest
    /// passes the filter: the search is over.
    Collision(CollisionReport),
}

/// Owns the index and a generator of its own to re-derive samples.
pub struct Coordinator {
    index: CollisionIndex,
    generator: DataGenerator,
    bits: usize,
    filter: DigestFilter,
}

impl Coordinator {
    /// The fingerprint keys seen so far, with the last position of each.
    pub closed spec fn index(&self) -> Map<u64, usize> {
        self.index@
    }

    /// The master seed.
    pub closed spec fn seed(&self) -> Seq<u32> {
        self.generator.seed()
    }

    /// The fingerprint width in bits.
    pub closed spec fn bits(&self) -> nat {
        self.bits as nat
    }

    /// The secondary check.
    pub closed spec fn filter(&self) -> DigestFilter {
        self.filter
    }

    /// The generator is well formed, keys fit, and the filter reads a byte
    /// of the digest.
    pub closed spec fn wf(&self) -> bool {
        &&& self.generator.wf()
        &&& self.bits <= MAX_COMPARE_BITS
        &&& self.filter.byte < DIGEST_LEN
    }

    /// A coordinator with an empty index.
    pub fn new(initial_seed: [u32; 4], bits: usize, filter: DigestFilter) -> (r: Coordinator)
        requires
            seed_ok(initial_seed@),
            bits <= MAX_COMPARE_BITS,
            filter.byte < DIGEST_LEN,
        ensures
            r.wf(),
            r.index() == Map::<u64, usize>::empty(),
            r.seed() == initial_seed@,
            r.bits() == bits,
            r.filter() == filter,
    {
        Coordinator {
            index: CollisionIndex::new(),
            generator: DataGenerator::new(initial_seed, 0),
            bits,
            filter,
        }
    }

    /// Number of distinct keys in the index.
    pub fn index_len(&self) -> (r: usize)
        ensures
            r == self.index().len(),
    {
        self.index.len()
    }

    /// Records that the sample at `pos` has key `key`. When the key already
    /// held another position, both samples are derived anew from their
    /// positions and judged. The index keeps `pos` for `key` in every case.
    pub fn process(&mut self, key: u64, pos: usize) -> (r: Event)
        requires
            old(self).wf(),
        ensures
            final(self).wf(),
            final(self).index() == old(self).index().insert(key, pos),
            final(self).seed() == old(self).seed(),
            final(self).bits() == old(self).bits(),
            final(self).filter() == old(self).filter(),
            ({
                let m = old(self).index();
                let hit = m.contains_key(key) && m[key] != pos;
                let s_old = sample_of(old(self).seed(), m[key] as nat);
                let s_new = sample_of(old(self).seed(), pos as nat);
                let v = verdict_of(
                    s_old,
                    s_new,
                    sha256_of(s_old),
                    sha256_of(s_new),
                    old(self).filter(),
                );
                match r {
                    Event::Recorded => !hit,
                    Event::Duplicate => hit && v == Verdict::Duplicate,
                    Event::Inconclusive => hit && v == Verdict::Inconclusive,
                    Event::Collision(rep) => {
                        &&& hit
                        &&& v == Verdict::Verified
                        &&& rep.old_position == m[key]
                        &&& rep.new_position == pos
                        &&& rep.old_sample@ == s_old
                        &&& rep.new_sample@ == s_new
                        &&& rep.old_digest@ == sha256_of(s_old)
                        &&& rep.new_digest@ == sha256_of(s_new)
                        &&& rep.fingerprint@ == truncated(sha256_of(s_new), old(self).bits())
                    },
                }
            }),
    {
        let previous = self.index.insert(key, pos);
        match previous {
            None => Event::Recorded,
            Some(old_pos) => {
                if old_pos == pos {
                    Event::Recorded
                } else {
                    let old_sample = self.generator.data(old_pos);
                    let new_sample = self.generator.data(pos);
                    let old_digest = oneshot_hash(&old_sample);
                    let new_digest = oneshot_hash(&new_sample);
                    match judge_pair(&old_sample, &new_sample, &old_digest, &new_digest, self.filter) {
                        Verdict::Duplicate => Event::Duplicate,
                        Verdict::Inconclusive => Event::Inconclusive,
                        Verdict::Verified => {
                            let fingerprint = truncate_hash(&new_digest, self.bits);
                            Event::Collision(
                                CollisionReport {
                                    old_position: old_pos,
                                    new_position: pos,
                                    old_sample,
                                    new_sample,
                                    old_digest,
                                    new_digest,
                                    fingerprint,
                                },
                            )
                        },
                    }
                }
            },
        }
    }
}

/// The last position before `p` whose sample has key `k`.
pub open spec fn last_holder(seed: Seq<u32>, bits: nat, k: nat, p: nat) -> Option<nat>
    decreases p,
{
    if p == 0 {
        None
    } else if sample_key(seed, (p - 1) as nat, bits) == k {
        Some((p - 1) as nat)
    } else {
        last_holder(seed, bits, k, (p - 1) as nat)
    }
}

/// Whether scanning positions in order finds its collision at `p`: the last
/// earlier position with the same key holds a sample that, judged against
/// the sample at `p`, is a verified collision.
pub open spec fn found_at(seed: Seq<u32>, bits: nat, f: DigestFilter, p: nat) -> bool {
    match last_holder(seed, bits, sample_key(seed, p, bits), p) {
        Some(q) => verdict_of(
            sample_of(seed, q),
            sample_of(seed, p),
            sha256_of(sample_of(seed, q)),
            sha256_of(sample_of(seed, p)),
            f,
        ) == Verdict::Verified,
        None => false,
    }
}

proof fn lemma_last_holder(seed: Seq<u32>, bits: nat, k: nat, p: nat)
    ensures
        last_holder(seed, bits, k, p) matches Some(q) ==> q < p && sample_key(seed, q, bits) == k,
    decreases p,
{
    if p > 0 {
        lemma_last_holder(seed, bits, k, (p - 1) as nat);
    }
}

/// The index holds, for each key, the last of the first `n` positions with
/// that key.
spec fn index_tracks(m: Map<u64, usize>, seed: Seq<u32>, bits: nat, n: nat) -> bool {
    forall|k: u64|
        #![trigger m.contains_key(k)]
        {
            &&& m.contains_key(k) == (last_holder(seed, bits, k as nat, n) is Some)
            &&& m.contains_key(k) ==> Some(m[k] as nat) == last_holder(seed, bits, k as nat, n)
        }
}

proof fn lemma_index_step(m: Map<u64, usize>, seed: Seq<u32>, bits: nat, n: usize, key: u64)
    requires
        index_tracks(m, seed, bits, n as nat),
        key as nat == sample_key(seed, n as nat, bits),
    ensures
        index_tracks(m.insert(key, n), seed, bits, n as nat + 1),
{
    assert forall|k: u64| #![trigger m.insert(key, n).contains_key(k)]
        {
            &&& m.insert(key, n).contains_key(k) == (last_holder(seed, bits, k as nat, n as nat + 1) is Some)
            &&& m.insert(key, n).contains_key(k) ==> Some(m.insert(key, n)[k] as nat)
                == last_holder(seed, bits, k as nat, n as nat + 1)
        } by {
        assert(m.contains_key(k) == (last_holder(seed, bits, k as nat, n as nat) is Some));
    }
}

/// Scans positions `0..total` in one thread, `batch_size` positions at a
/// time, and stops at the first verified collision.
pub fn run_search(
    initial_seed: [u32; 4],
    bits: usize,
    filter: DigestFilter,
    total: usize,
    batch_size: usize,
) -> (r: Option<CollisionReport>)
    requires
        seed_ok(initial_seed@),
        bits <= MAX_COMPARE_BITS,
        filter.byte < DIGEST_LEN,
        batch_size > 0,
    ensures
        ({
            let seed = initial_seed@;
            match r {
                None => forall|p: nat| p < total ==> !#[trigger] found_at(seed, bits as nat, filter, p),
                Some(rep) => {
                    let p = rep.new_position as nat;
                    let q = rep.old_position as nat;
                    &&& p < total
                    &&& found_at(seed, bits as nat, filter, p)
                    &&& forall|earlier: nat| earlier < p ==> !#[trigger] found_at(seed, bits as nat, filter, earlier)
                    &&& last_holder(seed, bits as nat, sample_key(seed, p, bits as nat), p) == Some(q)
                    &&& rep.old_sample@ == sample_of(seed, q)
                    &&& rep.new_sample@ == sample_of(seed, p)
                    &&& rep.old_sample@ != rep.new_sample@
                    &&& rep.old_digest@ == sha256_of(sample_of(seed, q))
                    &&& rep.new_digest@ == sha256_of(sample_of(seed, p))
                    &&& filter_agrees(filter, rep.old_digest@, rep.new_digest@)
                    &&& rep.fingerprint@ == truncated(rep.new_digest@, bits as nat)
                    &&& rep.fingerprint@ == truncated(rep.old_digest@, bits as nat)
                },
            }
        }),
{
    let ghost seed = initial_seed@;
    let ghost b = bits as nat;
    let mut worker = Worker::new(initial_seed, bits, total, 1, 0);
    let mut coordinator = Coordinator::new(initial_seed, bits, filter);
    while !worker.is_done()
        invariant
            worker.wf(),
            worker.seed() == seed,
            worker.bits() == b,
            worker.end_pos() == total,
            coordinator.wf(),
            coordinator.seed() == seed,
            coordinator.bits() == b,
            coordinator.filter() == filter,
            batch_size > 0,
            seed == initial_seed@,
            b == bits as nat,
            index_tracks(coordinator.index(), seed, b, worker.next_pos()),
            forall|p: nat| p < worker.next_pos() ==> !#[trigger] found_at(seed, b, filter, p),
        decreases total - worker.next_pos(),
    {
        let ghost start = worker.next_pos();
        let batch = worker.next_batch(batch_size);
        let mut j: usize = 0;
        while j < batch.len()
            invariant
                coordinator.wf(),
                coordinator.seed() == seed,
                coordinator.bits() == b,
                coordinator.filter() == filter,
                j <= batch@.len(),
                seed == initial_seed@,
                b == bits as nat,
                start + batch@.len() <= total,
                forall|k: int|
                    0 <= k < batch@.len() ==> {
                        &&& (#[trigger] batch@[k]).1 == start + k
                        &&& batch@[k].0 as nat == sample_key(seed, start + k as nat, b)
                    },
                index_tracks(coordinator.index(), seed, b, (start + j) as nat),
                forall|p: nat| p < start + j ==> !#[trigger] found_at(seed, b, filter, p),
            decreases batch@.len() - j,
        {
            let (key, pos) = batch[j];
            assert(batch@[j as int].1 == start + j);
            let ghost m = coordinator.index();
            proof {
                lemma_index_step(m, seed, b, pos, key);
                assert(m.contains_key(key) == (last_holder(seed, b, key as nat, pos as nat) is Some));
                lemma_last_holder(seed, b, key as nat, pos as nat);
            }
            let event = coordinator.process(key, pos);
            match event {
                Event::Collision(rep) => {
                    proof {
                        let q = rep.old_position as nat;
                        assert(Some(q) == last_holder(seed, b, key as nat, pos as nat));
                        assert(sample_key(seed, q, b) == sample_key(seed, pos as nat, b));
                        lemma_equal_keys_equal_fingerprints(seed, q, pos as nat, b);
                        assert(found_at(seed, b, filter, pos as nat));
                    }
                    return Some(rep);
                },
                _ => {},
            }
            proof {
                assert forall|p: nat| p < start + j + 1 implies !#[trigger] found_at(seed, b, filter, p) by {
                    if p == start + j {
                    }
                }
            }
            j = j + 1;
        }
    }
    None
}

} // verus!
