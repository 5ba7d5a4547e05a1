use vstd::prelude::*;

use crate::error::SketchyError;
use crate::genotype::GenotypeTable;
use crate::ranking::{is_top_ranking, top_references};
use crate::sketch::{
    common_hashes, hash_seq, params_mismatch, shared_count, spec_mismatch, strictly_ascending,
    HashedKmer, ParamField, Sketch,
};
use crate::stream::shared_with_read;

verus! {

/// Options of a prediction run.
#[derive(Clone, Copy, Debug, PartialEq, Eq, Structural)]
pub struct PredictConfig {
    /// Number of top-ranked references to report or to vote.
    pub top: usize,
    /// Number of reads to process; zero for all.
    pub limit: usize,
    /// Report after every read instead of once over all reads.
    pub stream: bool,
    /// Report one consensus genotype instead of the ranked references.
    pub consensus: bool,
    /// Print a header line first.
    pub header: bool,
    /// Number of highest-ranked references whose sums are grouped by feature.
    pub ranks: usize,
    /// Number of reads over which the top value must hold to be stable.
    pub stability: usize,
}

/// Shared hashes of every reference with the sketch of all reads, and the
/// references with the most, best first.
#[derive(Clone, Debug)]
pub struct BulkPrediction {
    pub shared: Vec<u64>,
    pub ranked: Vec<usize>,
}

/// Relies on `finch::statistics::cardinality`: a k-minimum-values estimate
/// that always succeeds and gives zero for an empty sketch. It scales by the
/// platform's `usize::MAX`, so nothing more is stated of its value.
#[verifier::external_body]
fn estimate_cardinality(hashes: &[HashedKmer]) -> (r: Option<u64>)
    ensures
        r is Some,
        hashes@.len() == 0 ==> r == Some(0u64),
{
    let kmers: Vec<finch::sketch_schemes::KmerCount> = hashes
        .iter()
        .map(|k| finch::sketch_schemes::KmerCount { hash: k.hash, kmer: Vec::new(), count: k.count, extra_count: 0, label: None })
        .collect();
    finch::statistics::cardinality(&kmers).ok()
}

/// Summary of one sketch.
#[derive(Clone, Debug)]
pub struct SketchInfo {
    pub name: String,
    /// Length in bases of the sketched sequence.
    pub seq_length: u64,
    /// Estimated number of distinct k-mers of that sequence.
    pub cardinality: u64,
}

/// The name of a sketch parameter, as error messages give it.
pub open spec fn field_label(field: ParamField) -> Seq<char> {
    match field {
        ParamField::KmerLength => seq!['k'],
        ParamField::HashSeed => seq!['h', 'a', 's', 'h', ' ', 's', 'e', 'e', 'd'],
    }
}

/// Sketches of `refs` and `queries` at `i` and `j` can be compared.
pub open spec fn pair_ok(refs: Seq<Sketch>, queries: Seq<Sketch>, i: int, j: int) -> bool {
    spec_mismatch(refs[i].params, queries[j].params) is None
}

/// The pair `(i, j)` is the first incomparable one, rows before columns.
pub open spec fn first_bad_pair(refs: Seq<Sketch>, queries: Seq<Sketch>, i: int, j: int) -> bool {
    &&& 0 <= i < refs.len()
    &&& 0 <= j < queries.len()
    &&& !pair_ok(refs, queries, i, j)
    &&& forall|a: int, b: int| 0 <= a < i && 0 <= b < queries.len() ==> #[trigger] pair_ok(refs, queries, a, b)
    &&& forall|b: int| 0 <= b < j ==> #[trigger] pair_ok(refs, queries, i, b)
}

/// The identifiers agree at every index below `n`.
pub open spec fn names_agree_below(sketches: Seq<Sketch>, ids: Seq<String>, n: int) -> bool {
    forall|k: int| 0 <= k < n ==> (#[trigger] sketches[k]).name@ == ids[k]@
}

/// The typing engine.
#[derive(Clone, Copy, Debug, PartialEq, Eq, Structural)]
pub struct Sketchy {}

impl Sketchy {
    /// A new engine.
    pub fn new() -> (r: Sketchy)
        ensures
            r == (Sketchy {}),
    {
        Sketchy {}
    }

    /// Name, sequence length and estimated distinct k-mer count of each
    /// sketch, in order. An empty sketch has an estimate of zero.
    pub fn info(&self, sketches: &[Sketch]) -> (r: Vec<SketchInfo>)
        ensures
            r@.len() == sketches@.len(),
            forall|i: int| 0 <= i < r@.len() ==> {
                &&& (#[trigger] r@[i]).name == sketches@[i].name
                &&& r@[i].seq_length == sketches@[i].seq_length
                &&& (sketches@[i].hashes@.len() == 0 ==> r@[i].cardinality == 0)
            },
    {
        let mut out: Vec<SketchInfo> = Vec::new();
        let mut i: usize = 0;
        while i < sketches.len()
            invariant
                0 <= i <= sketches@.len(),
                out@.len() == i,
                forall|k: int| 0 <= k < i ==> {
                    &&& (#[trigger] out@[k]).name == sketches@[k].name
                    &&& out@[k].seq_length == sketches@[k].seq_length
                    &&& (sketches@[k].hashes@.len() == 0 ==> out@[k].cardinality == 0)
                },
            decreases sketches@.len() - i,
        {
            let s = &sketches[i];
            match estimate_cardinality(s.hashes.as_slice()) {
                Some(c) => {
                    out.push(SketchInfo { name: s.name.clone(), seq_length: s.seq_length, cardinality: c });
                },
                None => {
                    out.push(SketchInfo { name: s.name.clone(), seq_length: s.seq_length, cardinality: 0 });
                },
            }
            i = i + 1;
        }
        out
    }

    /// Checks that the reference sketches and the genotype table list the
    /// same identifiers in the same order. The first index where they differ
    /// gives `InvalidIdentifier`; otherwise differing lengths give
    /// `InvalidSize`.
    pub fn check(&self, sketches: &[Sketch], table: &GenotypeTable) -> (r: Result<(), SketchyError>)
        requires
            table.wf(),
        ensures
            r is Ok <==> sketches@.len() == table.ids@.len() && names_agree_below(
                sketches@,
                table.ids@,
                sketches@.len() as int,
            ),
            match r {
                Ok(()) => sketches@.len() == table.ids@.len()
                    && names_agree_below(sketches@, table.ids@, sketches@.len() as int),
                Err(SketchyError::InvalidIdentifier(i, expected, got)) => {
                    &&& i < sketches@.len() && i < table.ids@.len()
                    &&& names_agree_below(sketches@, table.ids@, i as int)
                    &&& sketches@[i as int].name@ != table.ids@[i as int]@
                    &&& expected == sketches@[i as int].name
                    &&& got == table.ids@[i as int]
                },
                Err(SketchyError::InvalidSize) => {
                    &&& sketches@.len() != table.ids@.len()
                    &&& names_agree_below(sketches@, table.ids@, if sketches@.len() < table.ids@.len() {
                        sketches@.len() as int
                    } else {
                        table.ids@.len() as int
                    })
                },
                Err(_) => false,
            },
    {
        let n = if sketches.len() < table.ids.len() { sketches.len() } else { table.ids.len() };
        let mut i: usize = 0;
        while i < n
            invariant
                n <= sketches@.len(),
                n <= table.ids@.len(),
                n == sketches@.len() || n == table.ids@.len(),
                0 <= i <= n,
                names_agree_below(sketches@, table.ids@, i as int),
            decreases n - i,
        {
            if sketches[i].name != table.ids[i] {
                return Err(SketchyError::InvalidIdentifier(i, sketches[i].name.clone(), table.ids[i].clone()));
            }
            i = i + 1;
        }
        if sketches.len() != table.ids.len() {
            Err(SketchyError::InvalidSize)
        } else {
            Ok(())
        }
    }

    /// Shared hashes of every reference sketch with every query sketch:
    /// entry `[i][j]` pairs reference `i` with query `j`. Fails with
    /// `InvalidSketchMatch` on the first pair, rows first, whose k-mer length
    /// or hash seed differ.
    pub fn shared(&self, refs: &[Sketch], queries: &[Sketch]) -> (r: Result<Vec<Vec<u64>>, SketchyError>)
        requires
            forall|i: int| 0 <= i < refs@.len() ==> (#[trigger] refs@[i]).wf(),
            forall|j: int| 0 <= j < queries@.len() ==> (#[trigger] queries@[j]).wf(),
        ensures
            match r {
                Ok(m) => {
                    &&& m@.len() == refs@.len()
                    &&& forall|i: int, j: int| 0 <= i < refs@.len() && 0 <= j < queries@.len() ==> pair_ok(refs@, queries@, i, j)
                    &&& forall|i: int| 0 <= i < m@.len() ==> (#[trigger] m@[i])@.len() == queries@.len()
                    &&& forall|i: int, j: int| 0 <= i < m@.len() && 0 <= j < queries@.len()
                        ==> #[trigger] m@[i]@[j] == shared_count(hash_seq(refs@[i].hashes@), hash_seq(queries@[j].hashes@))
                },
                Err(SketchyError::InvalidSketchMatch(rn, field, _, qn, _)) => exists|i: int, j: int| {
                    &&& #[trigger] first_bad_pair(refs@, queries@, i, j)
                    &&& rn == refs@[i].name
                    &&& qn == queries@[j].name
                    &&& field@ == field_label(spec_mismatch(refs@[i].params, queries@[j].params)->Some_0)
                },
                Err(_) => false,
            },
    {
        let mut out: Vec<Vec<u64>> = Vec::new();
        let mut i: usize = 0;
        while i < refs.len()
            invariant
                forall|i: int| 0 <= i < refs@.len() ==> (#[trigger] refs@[i]).wf(),
                forall|j: int| 0 <= j < queries@.len() ==> (#[trigger] queries@[j]).wf(),
                0 <= i <= refs@.len(),
                out@.len() == i,
                forall|a: int, b: int| 0 <= a < i && 0 <= b < queries@.len() ==> #[trigger] pair_ok(refs@, queries@, a, b),
                forall|a: int| 0 <= a < i ==> (#[trigger] out@[a])@.len() == queries@.len(),
                forall|a: int, b: int| 0 <= a < i && 0 <= b < queries@.len()
                    ==> #[trigger] out@[a]@[b] == shared_count(hash_seq(refs@[a].hashes@), hash_seq(queries@[b].hashes@)),
            decreases refs@.len() - i,
        {
            let mut row: Vec<u64> = Vec::new();
            let mut j: usize = 0;
            while j < queries.len()
                invariant
                    forall|i: int| 0 <= i < refs@.len() ==> (#[trigger] refs@[i]).wf(),
                    forall|j: int| 0 <= j < queries@.len() ==> (#[trigger] queries@[j]).wf(),
                    0 <= i < refs@.len(),
                    0 <= j <= queries@.len(),
                    row@.len() == j,
                    forall|a: int, b: int| 0 <= a < i && 0 <= b < queries@.len() ==> #[trigger] pair_ok(refs@, queries@, a, b),
                    forall|b: int| 0 <= b < j ==> #[trigger] pair_ok(refs@, queries@, i as int, b),
                    forall|b: int| 0 <= b < j ==> #[trigger] row@[b] == shared_count(hash_seq(refs@[i as int].hashes@), hash_seq(queries@[b].hashes@)),
                decreases queries@.len() - j,
            {
                let rs = &refs[i];
                let qs = &queries[j];
                match params_mismatch(&rs.params, &qs.params) {
                    Some(field) => {
                        let (label, rv, qv) = match field {
                            ParamField::KmerLength => (
                                "k".to_owned(),
                                rs.params.kmer_length().to_string(),
                                qs.params.kmer_length().to_string(),
                            ),
                            ParamField::HashSeed => (
                                "hash seed".to_owned(),
                                rs.params.hash_seed().to_string(),
                                qs.params.hash_seed().to_string(),
                            ),
                        };
                        proof {
                            reveal_strlit("k");
                            reveal_strlit("hash seed");
                            assert(first_bad_pair(refs@, queries@, i as int, j as int));
                        }
                        return Err(SketchyError::InvalidSketchMatch(rs.name.clone(), label, rv, qs.name.clone(), qv));
                    },
                    None => {},
                }
                let c = common_hashes(rs.hashes.as_slice(), qs.hashes.as_slice());
                row.push(c);
                j = j + 1;
            }
            out.push(row);
            i = i + 1;
        }
        Ok(out)
    }

    /// Shared hashes of every reference with the sketch of all reads, and the
    /// `top` references with the most, best first.
    pub fn predict_bulk(&self, refs: &[Sketch], read_hashes: &[HashedKmer], top: usize) -> (r: BulkPrediction)
        requires
            forall|i: int| 0 <= i < refs@.len() ==> (#[trigger] refs@[i]).wf(),
            strictly_ascending(hash_seq(read_hashes@)),
        ensures
            r.shared@.len() == refs@.len(),
            forall|i: int|
                0 <= i < r.shared@.len() ==> #[trigger] r.shared@[i] == shared_count(hash_seq(refs@[i].hashes@), hash_seq(read_hashes@)),
            is_top_ranking(r.shared@, top as nat, r.ranked@),
    {
        let shared = shared_with_read(refs, read_hashes);
        let ranked = top_references(shared.as_slice(), top);
        BulkPrediction { shared, ranked }
    }
}

} // verus!
