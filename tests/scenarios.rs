use sketchy::{
    check_consensus_top, common_hashes, consensus_call, is_stable, shared_with_read, top_references,
    GenotypeTable, HashedKmer, Sketch, SketchParams, Sketchy, SketchyError, StreamState, ValueSum,
};

fn kmers(hashes: &[u64]) -> Vec<HashedKmer> {
    hashes.iter().map(|&hash| HashedKmer { hash, count: 1 }).collect()
}

fn mash(name: &str, hashes: &[u64]) -> Sketch {
    let params = SketchParams::Mash { sketch_size: 1000, kmer_length: 21, hash_seed: 0 };
    Sketch::new(name.to_string(), 100, kmers(hashes), params).unwrap()
}

fn table(ids: &[&str], rows: Vec<Vec<i64>>, n_features: usize) -> GenotypeTable {
    let features = (0..n_features).map(|f| format!("feature{}", f)).collect();
    let ids = ids.iter().map(|s| s.to_string()).collect();
    GenotypeTable::from_rows(features, ids, rows).unwrap()
}

#[test]
fn single_read_sums_one_value() {
    let refs = vec![mash("A", &[1, 2, 3]), mash("B", &[3, 4, 5])];
    let geno = table(&["A", "B"], vec![vec![0], vec![0]], 1);
    let mut state = StreamState::new(2, 1);
    let deltas = shared_with_read(&refs, &kmers(&[1, 3, 5]));
    assert_eq!(deltas, vec![2, 2]);
    assert!(state.fits(&deltas));
    state.add_read(&deltas);
    assert_eq!(state.ssh, vec![2, 2]);
    let report = state.report(&geno, 2, 100);
    assert_eq!(report.read, 1);
    assert_eq!(report.ranked, vec![0, 1]);
    assert_eq!(report.calls.len(), 1);
    assert_eq!(report.calls[0].values, vec![ValueSum { value: 0, sum: 4 }]);
    assert_eq!(report.calls[0].score.numerator, 1);
    assert_eq!(report.calls[0].score.denominator, 1);
}

#[test]
fn two_reads_accumulate_and_score() {
    let refs = vec![mash("X", &[1, 2, 3, 4, 5]), mash("Y", &[1, 2]), mash("Z", &[5, 6, 7])];
    let geno = table(&["X", "Y", "Z"], vec![vec![0], vec![0], vec![1]], 1);
    let mut state = StreamState::new(3, 1);

    let first = shared_with_read(&refs, &kmers(&[1, 2]));
    state.add_read(&first);
    assert_eq!(state.ssh, vec![2, 2, 0]);
    let _ = state.report(&geno, 3, 100);
    assert!(state.finish_read(0));

    let second = shared_with_read(&refs, &kmers(&[3, 4, 5]));
    state.add_read(&second);
    assert_eq!(state.ssh, vec![5, 2, 1]);
    let report = state.report(&geno, 3, 100);
    assert_eq!(report.read, 2);
    assert_eq!(
        report.calls[0].values,
        vec![ValueSum { value: 0, sum: 7 }, ValueSum { value: 1, sum: 1 }]
    );
    let score = report.calls[0].score;
    assert_eq!((score.numerator, score.denominator), (6, 8));
    let as_float = score.numerator as f64 / score.denominator as f64;
    assert!((as_float - 0.75).abs() < 1e-12);
    assert_eq!(format!("{:.8}", as_float), "0.75000000");
}

#[test]
fn consensus_over_three_and_even_top() {
    let geno = table(&["r0", "r1", "r2"], vec![vec![0], vec![0], vec![1]], 1);
    let ranked = top_references(&[30, 20, 10], 3);
    assert_eq!(ranked, vec![0, 1, 2]);
    assert_eq!(check_consensus_top(3), Ok(()));
    assert_eq!(consensus_call(&geno, &ranked), Ok(vec![0]));
    assert_eq!(check_consensus_top(2), Err(SketchyError::InvalidConsensusTop));
}

#[test]
fn stability_window_of_four() {
    let settled = vec![1, 0, 0, 0, 0];
    assert!(is_stable(&settled, 4));
    let broken = vec![1, 0, 0, 1, 0];
    assert!(!is_stable(&broken, 4));
    assert!(!is_stable(&[0, 0, 0], 4));
}

#[test]
fn stability_over_reads() {
    let refs = vec![mash("A", &[1, 2, 3]), mash("B", &[7, 8, 9])];
    let geno = table(&["A", "B"], vec![vec![3], vec![5]], 1);
    let mut state = StreamState::new(2, 1);
    let mut stable = Vec::new();
    for read in [vec![1u64], vec![2], vec![3], vec![7], vec![1]] {
        let deltas = shared_with_read(&refs, &kmers(&read));
        state.add_read(&deltas);
        let report = state.report(&geno, 2, 4);
        stable.push(report.calls[0].stable);
        state.finish_read(0);
    }
    assert_eq!(state.top_history[0], vec![3, 3, 3, 3, 3]);
    assert_eq!(stable, vec![false, false, false, true, true]);
}

#[test]
fn scaled_bound_and_disjoint_sketches() {
    let params = SketchParams::Scaled { sketch_size: 0, kmer_length: 21, hash_seed: 0, scale_inverse: 1000 };
    let bound = params.max_hash().unwrap();
    assert_eq!(bound, u64::MAX / 1000);
    assert_eq!(bound, 18_446_744_073_709_551);
    let a = kmers(&[10, 20, bound - 1]);
    let b = kmers(&[11, 21, bound - 2]);
    assert_eq!(common_hashes(&a, &b), 0);
}

#[test]
fn swapped_genotype_rows_are_reported() {
    let refs = vec![mash("a", &[1]), mash("b", &[2]), mash("c", &[3]), mash("d", &[4])];
    let geno = table(&["a", "b", "d", "c"], vec![vec![0], vec![0], vec![0], vec![0]], 1);
    let engine = Sketchy::new();
    assert_eq!(
        engine.check(&refs, &geno),
        Err(SketchyError::InvalidIdentifier(2, "c".to_string(), "d".to_string()))
    );
}
