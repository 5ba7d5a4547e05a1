use sketchy::{
    common_hashes, consensus_call, consensus_value, params_mismatch, preference_score, shared_with_read,
    top_references, GenotypeTable, HashedKmer, ParamField, Sketch, SketchFormat, SketchParams, Sketchy,
    SketchyError, StreamState, ValueSum,
};

fn kmers(hashes: &[u64]) -> Vec<HashedKmer> {
    hashes.iter().map(|&hash| HashedKmer { hash, count: 1 }).collect()
}

fn with_params(name: &str, hashes: &[u64], params: SketchParams) -> Sketch {
    Sketch::new(name.to_string(), 50, kmers(hashes), params).unwrap()
}

fn mash(name: &str, hashes: &[u64]) -> Sketch {
    with_params(name, hashes, SketchParams::Mash { sketch_size: 10, kmer_length: 16, hash_seed: 0 })
}

fn table(ids: &[&str], rows: Vec<Vec<i64>>, n_features: usize) -> GenotypeTable {
    let features = (0..n_features).map(|f| format!("f{}", f)).collect();
    let ids = ids.iter().map(|s| s.to_string()).collect();
    GenotypeTable::from_rows(features, ids, rows).unwrap()
}

#[test]
fn sums_never_decrease() {
    let refs = vec![mash("A", &[1, 2, 3]), mash("B", &[4, 5])];
    let mut state = StreamState::new(2, 0);
    let mut previous = state.ssh.clone();
    for read in [vec![1u64, 4], vec![9], vec![2, 3, 5]] {
        let deltas = shared_with_read(&refs, &kmers(&read));
        state.add_read(&deltas);
        for (now, before) in state.ssh.iter().zip(previous.iter()) {
            assert!(now >= before);
        }
        previous = state.ssh.clone();
    }
    assert_eq!(state.ssh, vec![3, 2]);
}

#[test]
fn common_is_symmetric() {
    let a = kmers(&[1, 5, 9, 12, 40]);
    let b = kmers(&[2, 5, 12, 13, 40, 41]);
    assert_eq!(common_hashes(&a, &b), 3);
    assert_eq!(common_hashes(&b, &a), 3);
}

#[test]
fn common_ignores_counts() {
    let a = kmers(&[3, 6, 9]);
    let counted: Vec<HashedKmer> = [3u64, 6, 9].iter().map(|&hash| HashedKmer { hash, count: 7 }).collect();
    let b = kmers(&[1, 3, 9]);
    assert_eq!(common_hashes(&a, &b), common_hashes(&counted, &b));
    assert_eq!(common_hashes(&a, &b), 2);
}

#[test]
fn common_with_empty_sketch() {
    let a = kmers(&[1, 2]);
    assert_eq!(common_hashes(&a, &[]), 0);
    assert_eq!(common_hashes(&[], &a), 0);
    assert_eq!(common_hashes(&[], &[]), 0);
    assert_eq!(common_hashes(&kmers(&[u64::MAX]), &kmers(&[0, u64::MAX])), 1);
}

#[test]
fn preference_score_cases() {
    let single = preference_score(&[ValueSum { value: 2, sum: 9 }]);
    assert_eq!((single.numerator, single.denominator), (1, 1));
    let none = preference_score(&[]);
    assert_eq!((none.numerator, none.denominator), (1, 1));
    let zero_runner = preference_score(&[ValueSum { value: 0, sum: 5 }, ValueSum { value: 1, sum: 0 }]);
    assert_eq!((zero_runner.numerator, zero_runner.denominator), (0, 1));
    let tie = preference_score(&[ValueSum { value: 0, sum: 4 }, ValueSum { value: 1, sum: 4 }]);
    assert_eq!((tie.numerator, tie.denominator), (0, 8));
    let lead = preference_score(&[ValueSum { value: 0, sum: 9 }, ValueSum { value: 1, sum: 3 }]);
    assert_eq!((lead.numerator, lead.denominator), (6, 12));
    assert!(lead.numerator <= lead.denominator);
}

#[test]
fn unanimous_column_wins_consensus() {
    let geno = table(&["a", "b", "c", "d", "e"], vec![vec![4, 1], vec![4, 2], vec![4, 2], vec![4, 1], vec![4, 3]], 2);
    let ranked = top_references(&[1, 5, 3, 9, 7], 5);
    assert_eq!(ranked, vec![3, 4, 1, 2, 0]);
    assert_eq!(consensus_call(&geno, &ranked), Ok(vec![4, 1]));
}

#[test]
fn consensus_ties_go_to_first_seen() {
    assert_eq!(consensus_value(&[2, 1, 1, 2]), Some(2));
    assert_eq!(consensus_value(&[5, 1, 1]), Some(1));
    assert_eq!(consensus_value(&[-1, -1, 3]), Some(-1));
    assert_eq!(consensus_value(&[]), None);
}

#[test]
fn consensus_without_references_fails() {
    let geno = table(&["a"], vec![vec![0]], 1);
    assert_eq!(consensus_call(&geno, &[]), Err(SketchyError::InvalidConsensusGenotype));
    let featureless = table(&["a"], vec![vec![]], 0);
    assert_eq!(consensus_call(&featureless, &[]), Ok(vec![]));
}

#[test]
fn check_accepts_matching_collection() {
    let refs = vec![mash("a", &[1]), mash("b", &[2])];
    let geno = table(&["a", "b"], vec![vec![0], vec![1]], 1);
    assert_eq!(Sketchy::new().check(&refs, &geno), Ok(()));
}

#[test]
fn check_reports_size_mismatch() {
    let refs = vec![mash("a", &[1]), mash("b", &[2])];
    let geno = table(&["a"], vec![vec![0]], 1);
    assert_eq!(Sketchy::new().check(&refs, &geno), Err(SketchyError::InvalidSize));
    let longer = table(&["a", "b", "c"], vec![vec![0], vec![1], vec![2]], 1);
    assert_eq!(Sketchy::new().check(&refs, &longer), Err(SketchyError::InvalidSize));
}

#[test]
fn ranking_breaks_ties_by_index() {
    assert_eq!(top_references(&[5, 7, 5, 7, 1], 5), vec![1, 3, 0, 2, 4]);
    assert_eq!(top_references(&[5, 7, 5, 7, 1], 3), vec![1, 3, 0]);
    assert_eq!(top_references(&[2, 2], 10), vec![0, 1]);
    assert_eq!(top_references(&[], 3), Vec::<usize>::new());
    assert_eq!(top_references(&[4, 8], 0), Vec::<usize>::new());
}

#[test]
fn missing_values_are_skipped() {
    let refs = vec![mash("a", &[1, 2]), mash("b", &[1]), mash("c", &[2])];
    let geno = table(&["a", "b", "c"], vec![vec![-1], vec![2], vec![-1]], 1);
    let mut state = StreamState::new(3, 1);
    state.add_read(&shared_with_read(&refs, &kmers(&[1, 2])));
    let report = state.report(&geno, 3, 1);
    assert_eq!(report.calls[0].values, vec![ValueSum { value: 2, sum: 1 }]);
    let all_missing = table(&["a", "b", "c"], vec![vec![-1], vec![-1], vec![-1]], 1);
    let mut other = StreamState::new(3, 1);
    let report = other.report(&all_missing, 3, 1);
    assert!(report.calls[0].values.is_empty());
    assert_eq!(other.top_history[0], vec![-1]);
}

#[test]
fn ranks_limit_the_grouped_references() {
    let refs = vec![mash("a", &[1, 2, 3]), mash("b", &[1, 2]), mash("c", &[1])];
    let geno = table(&["a", "b", "c"], vec![vec![0], vec![1], vec![1]], 1);
    let mut state = StreamState::new(3, 1);
    state.add_read(&shared_with_read(&refs, &kmers(&[1, 2, 3])));
    let report = state.report(&geno, 2, 10);
    assert_eq!(report.ranked, vec![0, 1]);
    assert_eq!(
        report.calls[0].values,
        vec![ValueSum { value: 0, sum: 3 }, ValueSum { value: 1, sum: 2 }]
    );
}

#[test]
fn limit_stops_after_that_many_reads() {
    let mut state = StreamState::new(0, 0);
    assert!(state.finish_read(3));
    assert!(state.finish_read(3));
    assert!(!state.finish_read(3));
    assert_eq!(state.read, 4);
    let mut unlimited = StreamState::new(0, 0);
    assert!(unlimited.finish_read(0));
}

#[test]
fn overflowing_sums_are_refused() {
    let mut state = StreamState::new(1, 0);
    state.add_read(&[u64::MAX - 1]);
    assert!(state.fits(&[1]));
    assert!(!state.fits(&[2]));
    assert!(!state.fits(&[0, 0]));
}

#[test]
fn extensions_pick_the_format() {
    assert_eq!(SketchFormat::from_extension(Some("msh")), Ok(SketchFormat::Mash));
    assert_eq!(SketchFormat::from_extension(Some("fsh")), Ok(SketchFormat::Finch));
    assert_eq!(SketchFormat::from_extension(Some("txt")), Err(SketchyError::InvalidExtension));
    assert_eq!(SketchFormat::from_extension(Some("mshx")), Err(SketchyError::InvalidExtension));
    assert_eq!(SketchFormat::from_extension(None), Err(SketchyError::InvalidExtension));
}

#[test]
fn output_extension_picks_params() {
    assert_eq!(
        SketchParams::for_extension(Some("msh"), 1000, 16, 1000, 42),
        Ok(SketchParams::Mash { sketch_size: 1000, kmer_length: 16, hash_seed: 42 })
    );
    assert_eq!(
        SketchParams::for_extension(Some("fsh"), 1000, 16, 1000, 42),
        Ok(SketchParams::Scaled { sketch_size: 1000, kmer_length: 16, hash_seed: 42, scale_inverse: 1000 })
    );
    assert_eq!(SketchParams::for_extension(Some("fa"), 1, 2, 3, 4), Err(SketchyError::InvalidExtension));
}

#[test]
fn unsorted_hashes_are_refused() {
    let params = SketchParams::Mash { sketch_size: 3, kmer_length: 16, hash_seed: 0 };
    assert!(Sketch::new("x".to_string(), 1, kmers(&[3, 2]), params).is_none());
    assert!(Sketch::new("x".to_string(), 1, kmers(&[2, 2]), params).is_none());
    assert!(Sketch::new("x".to_string(), 1, kmers(&[]), params).is_some());
    let scaled = SketchParams::Scaled { sketch_size: 3, kmer_length: 16, hash_seed: 0, scale_inverse: 0 };
    assert!(Sketch::new("x".to_string(), 1, kmers(&[1]), scaled).is_none());
}

#[test]
fn ragged_genotype_rows_are_refused() {
    let features = vec!["f0".to_string(), "f1".to_string()];
    let ids = vec!["a".to_string(), "b".to_string()];
    assert!(GenotypeTable::from_rows(features.clone(), ids.clone(), vec![vec![0, 1], vec![2]]).is_none());
    assert!(GenotypeTable::from_rows(features.clone(), ids.clone(), vec![vec![0, 1]]).is_none());
    assert!(GenotypeTable::from_rows(features, ids, vec![vec![0, 1], vec![2, 3]]).is_some());
}

#[test]
fn incompatible_sketches_are_reported() {
    let refs = vec![mash("r", &[1, 2])];
    let other_k = vec![
        mash("q0", &[2]),
        with_params("q1", &[1], SketchParams::Mash { sketch_size: 10, kmer_length: 21, hash_seed: 0 }),
    ];
    match Sketchy::new().shared(&refs, &other_k) {
        Err(SketchyError::InvalidSketchMatch(r, field, rv, q, qv)) => {
            assert_eq!((r.as_str(), field.as_str(), rv.as_str()), ("r", "k", "16"));
            assert_eq!((q.as_str(), qv.as_str()), ("q1", "21"));
        }
        other => panic!("unexpected {:?}", other),
    }
    let other_seed = vec![with_params("q", &[1], SketchParams::Mash { sketch_size: 10, kmer_length: 16, hash_seed: 42 })];
    match Sketchy::new().shared(&refs, &other_seed) {
        Err(SketchyError::InvalidSketchMatch(_, field, rv, _, qv)) => {
            assert_eq!((field.as_str(), rv.as_str(), qv.as_str()), ("hash seed", "0", "42"));
        }
        other => panic!("unexpected {:?}", other),
    }
    assert_eq!(
        params_mismatch(&refs[0].params, &other_seed[0].params),
        Some(ParamField::HashSeed)
    );
}

#[test]
fn shared_counts_every_pair() {
    let refs = vec![mash("r0", &[1, 2, 3]), mash("r1", &[3, 4])];
    let scaled = SketchParams::Scaled { sketch_size: 0, kmer_length: 16, hash_seed: 0, scale_inverse: 10 };
    let queries = vec![mash("q0", &[2, 3, 4]), with_params("q1", &[4], scaled)];
    assert_eq!(Sketchy::new().shared(&refs, &queries), Ok(vec![vec![2, 0], vec![2, 1]]));
}

#[test]
fn bulk_prediction_ranks_references() {
    let refs = vec![mash("a", &[1, 2]), mash("b", &[1, 2, 3, 4]), mash("c", &[9])];
    let prediction = Sketchy::new().predict_bulk(&refs, &kmers(&[1, 2, 3, 4, 5]), 2);
    assert_eq!(prediction.shared, vec![2, 4, 0]);
    assert_eq!(prediction.ranked, vec![1, 0]);
}

#[test]
fn info_estimates_cardinality() {
    let hashes = [u64::MAX / 4, u64::MAX / 2];
    let refs = vec![mash("a", &hashes), mash("b", &[])];
    let info = Sketchy::new().info(&refs);
    assert_eq!(info.len(), 2);
    assert_eq!(info[0].name, "a");
    assert_eq!(info[0].seq_length, 50);
    let expected = (1.0f32 / ((u64::MAX / 2) as f32 / usize::MAX as f32)) as u64;
    assert_eq!(info[0].cardinality, expected);
    assert_eq!(info[0].cardinality, 2);
    assert_eq!(info[1].cardinality, 0);
}

#[test]
fn error_messages_name_the_failure() {
    assert!(SketchyError::InvalidConsensusTop.message().contains("odd"));
    assert!(SketchyError::InvalidExtension.message().contains(".msh"));
    assert!(sketchy::CliError::InvalidScaleRange.message().contains("between 0 and 1"));
}
