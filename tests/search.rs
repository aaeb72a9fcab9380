use collision_search::digest::{fingerprint_key, truncate_hash};
use collision_search::generator::DataGenerator;
use collision_search::generator::seed_is_usable;
use collision_search::search::{judge_pair, progress_marker, run_search, Coordinator, DigestFilter, Event, Verdict, Worker};
use crypto::digest::Digest;
use crypto::sha2::Sha256;
use std::sync::mpsc::{sync_channel, TrySendError};

const SEED: [u32; 4] = [1, 2, 3, 4];
const FILTER: DigestFilter = DigestFilter { byte: 0, mask: 0b11 };

fn sha256(data: &[u8]) -> [u8; 32] {
    let mut h = Sha256::new();
    h.input(data);
    let mut out = [0u8; 32];
    h.result(&mut out);
    out
}

#[test]
fn identical_samples_are_duplicates() {
    let s = *b"abcdefgh";
    let d = sha256(&s);
    assert_eq!(judge_pair(&s, &s, &d, &d, FILTER), Verdict::Duplicate);
    let all = DigestFilter { byte: 5, mask: 0xff };
    assert_eq!(judge_pair(&s, &s, &d, &d, all), Verdict::Duplicate);
}

#[test]
fn filter_decides_between_verified_and_inconclusive() {
    let a = *b"aaaaaaaa";
    let b = *b"bbbbbbbb";
    let mut d1 = [0u8; 32];
    let mut d2 = [0u8; 32];
    d1[0] = 0b1111_0110;
    d2[0] = 0b0000_1010;
    assert_eq!(judge_pair(&a, &b, &d1, &d2, FILTER), Verdict::Verified);
    d2[0] = 0b0000_1001;
    assert_eq!(judge_pair(&a, &b, &d1, &d2, FILTER), Verdict::Inconclusive);
    let none = DigestFilter { byte: 0, mask: 0 };
    assert_eq!(judge_pair(&a, &b, &d1, &d2, none), Verdict::Verified);
}

#[test]
fn worker_keys_are_truncated_digests() {
    let mut w = Worker::new(SEED, 50, 10_000, 4, 1);
    let mut g = DataGenerator::new(SEED, 0);
    let batch = w.next_batch(100);
    assert_eq!(batch.len(), 100);
    for (k, &(key, pos)) in batch.iter().enumerate() {
        assert_eq!(pos, 2500 + k);
        let d = sha256(&g.data(pos));
        let fp = truncate_hash(&d, 50);
        assert_eq!(fp, d[25..].iter().enumerate().map(|(i, b)| if i == 0 { b & 3 } else { *b }).collect::<Vec<u8>>());
        assert_eq!(key, fingerprint_key(&fp));
    }
}

#[test]
fn worker_stops_at_range_end() {
    let mut w = Worker::new(SEED, 16, 10, 3, 2);
    assert!(!w.is_done());
    let first = w.next_batch(2);
    assert_eq!(first.iter().map(|p| p.1).collect::<Vec<_>>(), vec![7, 8]);
    let second = w.next_batch(1024);
    assert_eq!(second.iter().map(|p| p.1).collect::<Vec<_>>(), vec![9]);
    assert!(w.is_done());
    assert!(w.next_batch(5).is_empty());
}

#[test]
fn coordinator_records_and_judges() {
    let mut c = Coordinator::new(SEED, 16, DigestFilter { byte: 0, mask: 0 });
    assert!(matches!(c.process(5, 10), Event::Recorded));
    assert!(matches!(c.process(5, 10), Event::Recorded));
    assert_eq!(c.index_len(), 1);
    match c.process(5, 11) {
        Event::Collision(rep) => {
            let mut g = DataGenerator::new(SEED, 0);
            assert_eq!(rep.old_position, 10);
            assert_eq!(rep.new_position, 11);
            assert_eq!(rep.old_sample, g.data(10));
            assert_eq!(rep.new_sample, g.data(11));
            assert_eq!(rep.old_digest, sha256(&rep.old_sample));
            assert_eq!(rep.new_digest, sha256(&rep.new_sample));
            assert_eq!(rep.fingerprint, rep.new_digest[30..].to_vec());
        }
        other => panic!("unexpected {:?}", other),
    }
    assert_eq!(c.index_len(), 1);
}

#[test]
fn coordinator_inconclusive_when_filter_fails() {
    let strict = DigestFilter { byte: 3, mask: 0xff };
    let mut g = DataGenerator::new(SEED, 0);
    let mut q = 1usize;
    while sha256(&g.data(0))[3] == sha256(&g.data(q))[3] {
        q += 1;
    }
    let mut c = Coordinator::new(SEED, 16, strict);
    assert!(matches!(c.process(9, 0), Event::Recorded));
    assert!(matches!(c.process(9, q), Event::Inconclusive));
}

#[test]
fn end_to_end_sixteen_bits() {
    let first = run_search(SEED, 16, FILTER, 200_000, 1024).expect("a collision within the range");
    assert!(first.new_position < 200_000);
    assert_ne!(first.old_position, first.new_position);
    assert_ne!(first.old_sample, first.new_sample);
    assert_eq!(sha256(&first.old_sample), first.old_digest);
    assert_eq!(sha256(&first.new_sample), first.new_digest);
    assert_eq!(truncate_hash(&first.old_digest, 16), truncate_hash(&first.new_digest, 16));
    assert_eq!(first.fingerprint, truncate_hash(&first.new_digest, 16));
    assert_eq!(first.old_digest[0] & 3, first.new_digest[0] & 3);
    let second = run_search(SEED, 16, FILTER, 200_000, 7).expect("a collision within the range");
    assert_eq!(first.old_position, second.old_position);
    assert_eq!(first.new_position, second.new_position);
    assert_eq!(first.old_sample, second.old_sample);
    assert_eq!(first.new_sample, second.new_sample);
}

#[test]
fn search_of_tiny_range_finds_nothing() {
    assert!(run_search(SEED, 64, FILTER, 50, 8).is_none());
    assert!(run_search(SEED, 16, FILTER, 0, 8).is_none());
}

#[test]
fn progress_marker_finds_first_multiple() {
    assert_eq!(progress_marker(0, 1, 2_000_000), Some(0));
    assert_eq!(progress_marker(1, 1024, 2_000_000), None);
    assert_eq!(progress_marker(1_999_990, 1024, 2_000_000), Some(2_000_000));
    assert_eq!(progress_marker(1_999_990, 10, 2_000_000), None);
    assert_eq!(progress_marker(5, 20, 4), Some(8));
    assert_eq!(progress_marker(8, 0, 4), None);
    assert_eq!(progress_marker(usize::MAX - 2, 10, usize::MAX), Some(usize::MAX));
    assert_eq!(progress_marker(usize::MAX - 2, 10, 1 << 40), None);
}

#[test]
fn usable_seeds() {
    assert!(!seed_is_usable([0, 0, 5, 6]));
    assert!(seed_is_usable([0, 1, 0, 0]));
    assert!(seed_is_usable([3, 0, 0, 0]));
}

#[test]
fn batches_through_a_full_channel_are_kept() {
    let (tx, rx) = sync_channel::<Vec<(u64, usize)>>(1);
    let mut w = Worker::new(SEED, 16, 5000, 2, 1);
    let mut produced = 0usize;
    let mut consumed = Vec::new();
    while !w.is_done() {
        let batch = w.next_batch(300);
        produced += batch.len();
        tx.send(batch).unwrap();
        let extra = w.next_batch(0);
        match tx.try_send(extra) {
            Err(TrySendError::Full(back)) => assert!(back.is_empty()),
            other => panic!("a full channel must refuse, got {:?}", other.is_ok()),
        }
        consumed.extend(rx.recv().unwrap().into_iter().map(|p| p.1));
    }
    assert_eq!(produced, 2500);
    assert_eq!(consumed, (2500..5000).collect::<Vec<usize>>());
}
