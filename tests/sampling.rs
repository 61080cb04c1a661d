use mmft::records::SeqRecord;
use mmft::sample::{
    budget_bound, sample, sample_by_number, sample_by_size, select_by_number, select_by_size,
    Admission, BudgetSampler, QuotaSampler, SampleError,
};
use rand::rngs::StdRng;
use rand::SeedableRng;

fn record(name: &str, seq_len: usize) -> SeqRecord {
    SeqRecord {
        name: name.as_bytes().to_vec(),
        description: None,
        sequence: vec![b'A'; seq_len],
    }
}

#[test]
fn quota_two_of_five() {
    for seed in 0..200 {
        let mut rng = StdRng::seed_from_u64(seed);
        let v = sample_by_number(&mut rng, 5, 2).unwrap();
        assert_eq!(v.len(), 2);
        assert!(v[0] < v[1]);
        assert!(v[1] < 5);
    }
}

#[test]
fn quota_exceeding_population_fails() {
    let mut rng = StdRng::seed_from_u64(7);
    assert_eq!(
        sample_by_number(&mut rng, 5, 6),
        Err(SampleError::QuotaExceedsPopulation)
    );
    let records: Vec<SeqRecord> = (0..5).map(|i| record(&format!("r{}", i), 10)).collect();
    assert_eq!(
        sample(&mut rng, &records, Some(6), None),
        Err(SampleError::QuotaExceedsPopulation)
    );
}

#[test]
fn quota_of_whole_population_takes_all() {
    let mut rng = StdRng::seed_from_u64(3);
    assert_eq!(sample_by_number(&mut rng, 4, 4), Ok(vec![0, 1, 2, 3]));
    assert_eq!(sample_by_number(&mut rng, 4, 0), Ok(vec![]));
    assert_eq!(sample_by_number(&mut rng, 0, 0), Ok(vec![]));
}

#[test]
fn budget_never_exceeded() {
    // records of 100, 200 and 150 bytes: name of two bytes, two separators
    let records = vec![record("r1", 96), record("r2", 196), record("r3", 146)];
    let sizes: Vec<usize> = records.iter().map(|r| r.record_size()).collect();
    assert_eq!(sizes, vec![100, 200, 150]);
    for seed in 0..500 {
        let mut rng = StdRng::seed_from_u64(seed);
        let v = sample(&mut rng, &records, None, Some(250)).unwrap();
        let total: usize = v.iter().map(|&i| sizes[i]).sum();
        assert!(total <= 250);
        assert!(v.windows(2).all(|w| w[0] < w[1]));
    }
}

#[test]
fn budget_over_candidates_only() {
    let sizes = vec![10, 10, 10, 10];
    let candidates = vec![1, 3];
    for seed in 0..50 {
        let mut rng = StdRng::seed_from_u64(seed);
        let v = sample_by_size(&mut rng, &sizes, &candidates, 1000);
        assert!(v.iter().all(|i| candidates.contains(i)));
    }
}

#[test]
fn ample_budget_takes_everything() {
    let records = vec![record("a", 5), record("b", 7)];
    let mut rng = StdRng::seed_from_u64(11);
    assert_eq!(sample(&mut rng, &records, None, Some(1000)), Ok(vec![0, 1]));
}

#[test]
fn quota_and_budget_together() {
    let records: Vec<SeqRecord> = (0..6).map(|i| record(&format!("r{}", i), 8)).collect();
    for seed in 0..100 {
        let mut rng = StdRng::seed_from_u64(seed);
        let v = sample(&mut rng, &records, Some(3), Some(25)).unwrap();
        assert!(v.len() <= 2);
        let mut rng = StdRng::seed_from_u64(seed);
        assert_eq!(sample(&mut rng, &records, Some(3), None).unwrap().len(), 3);
    }
}

#[test]
fn no_limits_keep_all_records() {
    let records = vec![record("a", 1), record("b", 2), record("c", 3)];
    let mut rng = StdRng::seed_from_u64(0);
    assert_eq!(sample(&mut rng, &records, None, None), Ok(vec![0, 1, 2]));
}

#[test]
fn quota_sampler_decisions() {
    let mut q = QuotaSampler::new(5, 2).unwrap();
    assert!(q.offer(1));
    assert_eq!((q.remaining_quota, q.remaining_population), (1, 4));
    assert!(!q.offer(1));
    assert_eq!((q.remaining_quota, q.remaining_population), (1, 3));
    assert!(QuotaSampler::new(2, 3).is_err());
}

#[test]
fn budget_sampler_decisions() {
    let mut b = BudgetSampler::new(250, 3);
    assert_eq!(b.draw_bound(100), 300);
    assert_eq!(b.offer(100, 249), Admission::Emit);
    assert_eq!((b.written, b.remaining_records), (100, 2));
    assert_eq!(b.offer(200, 150), Admission::Skip);
    assert_eq!((b.written, b.remaining_records), (100, 1));
    assert_eq!(b.offer(200, 0), Admission::Stop);
    assert_eq!((b.written, b.remaining_records), (100, 1));
}

#[test]
fn record_size_counts_all_parts() {
    let r = SeqRecord {
        name: b"ab".to_vec(),
        description: Some(b"cd".to_vec()),
        sequence: b"ACGT".to_vec(),
    };
    assert_eq!(r.record_size(), 10);
    assert_eq!(record("", 0).record_size(), 2);
}

#[test]
fn quota_selection_follows_draws() {
    assert_eq!(select_by_number(5, 2, &vec![0, 3, 0, 1, 0]), vec![0, 2]);
    assert_eq!(select_by_number(5, 2, &vec![4, 3, 2, 1, 0]), vec![3, 4]);
    assert_eq!(select_by_number(3, 3, &vec![2, 1, 0]), vec![0, 1, 2]);
}

#[test]
fn budget_selection_stops_at_first_misfit() {
    let sizes = vec![100, 200, 150];
    let all = vec![0, 1, 2];
    // the second record is drawn but does not fit: the third, which would, is never reached
    assert_eq!(select_by_size(&sizes, &all, 250, &vec![0, 0, 0]), vec![0]);
    assert_eq!(select_by_size(&sizes, &all, 250, &vec![300, 0, 0]), vec![1]);
    assert_eq!(select_by_size(&sizes, &all, 250, &vec![300, 500, 0]), vec![2]);
    assert_eq!(select_by_size(&sizes, &all, 1000, &vec![0, 0, 0]), vec![0, 1, 2]);
}

#[test]
fn budget_with_room_takes_the_record() {
    for seed in 0..50 {
        let mut rng = StdRng::seed_from_u64(seed);
        assert_eq!(sample_by_size(&mut rng, &vec![100], &vec![0], 1000), vec![0]);
    }
    assert_eq!(budget_bound(100, 3), 300);
}
