use vstd::prelude::*;

use crate::error::SketchyError;

verus! {

/// Value id that marks a missing feature value.
pub const MISSING: i64 = -1;

/// Categorical genotype features of each reference, in reference order.
#[derive(Clone, Debug)]
pub struct GenotypeTable {
    /// Names of the feature columns.
    pub features: Vec<String>,
    /// Reference identifier of each row.
    pub ids: Vec<String>,
    /// Feature value ids of each row, one per feature; `MISSING` where absent.
    pub rows: Vec<Vec<i64>>,
}

impl GenotypeTable {
    /// One identifier per row and one value per feature in every row.
    pub open spec fn wf(&self) -> bool {
        &&& self.ids@.len() == self.rows@.len()
        &&& forall|r: int| 0 <= r < self.rows@.len() ==> (#[trigger] self.rows@[r])@.len() == self.features@.len()
    }

    /// Number of feature columns.
    pub open spec fn n_features(&self) -> nat {
        self.features@.len()
    }

    /// Builds a table, or `None` where the identifiers and rows differ in
    /// number or a row does not hold one value per feature.
    pub fn from_rows(features: Vec<String>, ids: Vec<String>, rows: Vec<Vec<i64>>) -> (r: Option<GenotypeTable>)
        ensures
            match r {
                Some(t) => t.features@ == features@ && t.ids@ == ids@ && t.rows@ == rows@ && t.wf(),
                None => !(GenotypeTable { features, ids, rows }).wf(),
            },
    {
        if ids.len() != rows.len() {
            return None;
        }
        let mut i: usize = 0;
        while i < rows.len()
            invariant
                0 <= i <= rows@.len(),
                forall|r: int| 0 <= r < i ==> (#[trigger] rows@[r])@.len() == features@.len(),
            decreases rows@.len() - i,
        {
            if rows[i].len() != features.len() {
                return None;
            }
            i = i + 1;
        }
        Some(GenotypeTable { features, ids, rows })
    }
}

/// The values of feature `f` of the listed references, in list order.
pub open spec fn column(rows: Seq<Vec<i64>>, refs: Seq<usize>, f: int) -> Seq<i64> {
    Seq::new(refs.len(), |i: int| rows[refs[i] as int]@[f])
}

/// How often `v` occurs in `s`.
pub open spec fn occurrences(s: Seq<i64>, v: i64) -> nat
    decreases s.len(),
{
    if s.len() == 0 {
        0
    } else {
        occurrences(s.drop_last(), v) + if s.last() == v { 1nat } else { 0nat }
    }
}

/// `v` wins the vote over `s`: no value occurs more often, and every value
/// that occurs as often first occurs later than `v`.
pub open spec fn is_consensus(s: Seq<i64>, v: i64) -> bool {
    exists|w: int|
        0 <= w < s.len() && s[w] == v && (forall|j: int|
            0 <= j < s.len() ==> occurrences(s, #[trigger] s[j]) <= occurrences(s, v)) && (forall|j: int|
            0 <= j < w ==> occurrences(s, #[trigger] s[j]) < occurrences(s, v))
}

proof fn lemma_occurrences_bound(s: Seq<i64>, v: i64)
    ensures
        occurrences(s, v) <= s.len(),
    decreases s.len(),
{
    if s.len() > 0 {
        lemma_occurrences_bound(s.drop_last(), v);
    }
}

/// How often `v` occurs in `s`.
pub fn count_occurrences(s: &[i64], v: i64) -> (r: usize)
    ensures
        r == occurrences(s@, v),
{
    let mut i: usize = 0;
    let mut c: usize = 0;
    while i < s.len()
        invariant
            0 <= i <= s@.len(),
            c == occurrences(s@.subrange(0, i as int), v),
        decreases s@.len() - i,
    {
        proof {
            assert(s@.subrange(0, i + 1).drop_last() =~= s@.subrange(0, i as int));
            lemma_occurrences_bound(s@.subrange(0, i as int), v);
        }
        if s[i] == v {
            c = c + 1;
        }
        i = i + 1;
    }
    proof {
        assert(s@.subrange(0, i as int) =~= s@);
    }
    c
}

/// The most frequent value of a column, the earliest among equally frequent
/// ones; `None` for an empty column.
pub fn consensus_value(s: &[i64]) -> (r: Option<i64>)
    ensures
        match r {
            Some(v) => is_consensus(s@, v),
            None => s@.len() == 0,
        },
{
    if s.len() == 0 {
        return None;
    }
    let mut best: usize = 0;
    let mut best_count = count_occurrences(s, s[0]);
    let mut j: usize = 1;
    while j < s.len()
        invariant
            0 <= best < j <= s@.len(),
            best_count == occurrences(s@, s@[best as int]),
            forall|k: int| 0 <= k < j ==> occurrences(s@, #[trigger] s@[k]) <= best_count,
            forall|k: int| 0 <= k < best ==> occurrences(s@, #[trigger] s@[k]) < best_count,
        decreases s@.len() - j,
    {
        let c = count_occurrences(s, s[j]);
        if c > best_count {
            best = j;
            best_count = c;
        }
        j = j + 1;
    }
    assert(0 <= best < s@.len() && s@[best as int] == s@[best as int]);
    Some(s[best])
}

/// Where every listed reference has value `v` for feature `f`, the
/// consensus for that feature is `v` and nothing else.
pub proof fn lemma_unanimous_consensus(rows: Seq<Vec<i64>>, refs: Seq<usize>, f: int, v: i64)
    requires
        refs.len() > 0,
        forall|i: int| 0 <= i < refs.len() ==> rows[#[trigger] refs[i] as int]@[f] == v,
    ensures
        is_consensus(column(rows, refs, f), v),
        forall|w: i64| #[trigger] is_consensus(column(rows, refs, f), w) ==> w == v,
{
    let s = column(rows, refs, f);
    assert forall|i: int| 0 <= i < s.len() implies s[i] == v by {
        assert(rows[refs[i] as int]@[f] == v);
    }
    assert(s[0] == v);
    assert forall|j: int| 0 <= j < s.len() implies occurrences(s, #[trigger] s[j]) <= occurrences(s, v) by {
        assert(s[j] == v);
    }
    assert forall|w: i64| #[trigger] is_consensus(s, w) implies w == v by {
        let k = choose|k: int|
            0 <= k < s.len() && s[k] == w && (forall|j: int|
                0 <= j < s.len() ==> occurrences(s, #[trigger] s[j]) <= occurrences(s, w)) && (forall|j: int|
                0 <= j < k ==> occurrences(s, #[trigger] s[j]) < occurrences(s, w));
        assert(s[k] == v);
    }
}

/// Consensus calling is only defined over an odd number of references.
pub fn check_consensus_top(top: usize) -> (r: Result<(), SketchyError>)
    ensures
        top % 2 == 1 <==> r is Ok,
        r is Err ==> r == Err::<(), SketchyError>(SketchyError::InvalidConsensusTop),
{
    if top % 2 == 1 {
        Ok(())
    } else {
        Err(SketchyError::InvalidConsensusTop)
    }
}

/// For each feature, the value that the listed references vote for.
/// Fails with `InvalidConsensusGenotype` where there is a feature but no
/// reference to vote.
pub fn consensus_call(table: &GenotypeTable, refs: &[usize]) -> (r: Result<Vec<i64>, SketchyError>)
    requires
        table.wf(),
        forall|i: int| 0 <= i < refs@.len() ==> (#[trigger] refs@[i]) < table.rows@.len(),
    ensures
        match r {
            Ok(v) => {
                &&& v@.len() == table.n_features()
                &&& forall|f: int|
                    0 <= f < v@.len() ==> is_consensus(column(table.rows@, refs@, f), #[trigger] v@[f])
            },
            Err(e) => e == SketchyError::InvalidConsensusGenotype && table.n_features() > 0
                && refs@.len() == 0,
        },
{
    let n_features = table.features.len();
    if n_features > 0 && refs.len() == 0 {
        return Err(SketchyError::InvalidConsensusGenotype);
    }
    let mut out: Vec<i64> = Vec::new();
    let mut f: usize = 0;
    while f < n_features
        invariant
            table.wf(),
            n_features == table.n_features(),
            n_features > 0 ==> refs@.len() > 0,
            forall|i: int| 0 <= i < refs@.len() ==> (#[trigger] refs@[i]) < table.rows@.len(),
            0 <= f <= n_features,
            out@.len() == f,
            forall|g: int| 0 <= g < f ==> is_consensus(column(table.rows@, refs@, g), #[trigger] out@[g]),
        decreases n_features - f,
    {
        let mut col: Vec<i64> = Vec::new();
        let mut i: usize = 0;
        while i < refs.len()
            invariant
                table.wf(),
                f < table.n_features(),
                forall|i: int| 0 <= i < refs@.len() ==> (#[trigger] refs@[i]) < table.rows@.len(),
                0 <= i <= refs@.len(),
                col@ == column(table.rows@, refs@, f as int).subrange(0, i as int),
            decreases refs@.len() - i,
        {
            let row = &table.rows[refs[i]];
            proof {
                assert(table.rows@[refs@[i as int] as int]@.len() == table.n_features());
            }
            col.push(row[f]);
            i = i + 1;
            proof {
                assert(col@ =~= column(table.rows@, refs@, f as int).subrange(0, i as int));
            }
        }
        proof {
            assert(col@ =~= column(table.rows@, refs@, f as int));
        }
        match consensus_value(col.as_slice()) {
            Some(v) => {
                out.push(v);
            },
            None => {
                return Err(SketchyError::InvalidConsensusGenotype);
            },
        }
        f = f + 1;
    }
    Ok(out)
}

} // verus!
