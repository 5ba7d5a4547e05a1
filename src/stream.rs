use vstd::prelude::*;

use crate::genotype::{GenotypeTable, MISSING};
use crate::ranking::{is_top_ranking, top_references};
use crate::sketch::{common_hashes, hash_seq, shared_count, strictly_ascending, HashedKmer, Sketch};
use crate::sssh::{
    is_sssh_ordering, is_stable, ordering_score, preference_of, rank_feature_values, spec_stable,
    PreferenceScore, ValueSum,
};

verus! {

/// Shared hashes of one read with every reference, in reference order.
pub fn shared_with_read(refs: &[Sketch], read_hashes: &[HashedKmer]) -> (r: Vec<u64>)
    requires
        forall|i: int| 0 <= i < refs@.len() ==> (#[trigger] refs@[i]).wf(),
        strictly_ascending(hash_seq(read_hashes@)),
    ensures
        r@.len() == refs@.len(),
        forall|i: int|
            0 <= i < r@.len() ==> #[trigger] r@[i] == shared_count(hash_seq(refs@[i].hashes@), hash_seq(read_hashes@)),
{
    let mut out: Vec<u64> = Vec::new();
    let mut i: usize = 0;
    while i < refs.len()
        invariant
            forall|i: int| 0 <= i < refs@.len() ==> (#[trigger] refs@[i]).wf(),
            strictly_ascending(hash_seq(read_hashes@)),
            0 <= i <= refs@.len(),
            out@.len() == i,
            forall|k: int|
                0 <= k < i ==> #[trigger] out@[k] == shared_count(hash_seq(refs@[k].hashes@), hash_seq(read_hashes@)),
        decreases refs@.len() - i,
    {
        let c = common_hashes(refs[i].hashes.as_slice(), read_hashes);
        out.push(c);
        i = i + 1;
    }
    out
}

/// What one read tells about one genotype feature.
#[derive(Clone, Debug)]
pub struct FeatureCall {
    /// The feature's values among the ranked references with their sums,
    /// largest first.
    pub values: Vec<ValueSum>,
    /// The top value has not changed over the stability window.
    pub stable: bool,
    /// Lead of the top value over the runner-up.
    pub score: PreferenceScore,
}

/// The per-read result: the ranked references and one call per feature.
#[derive(Clone, Debug)]
pub struct ReadReport {
    /// Index of the read, from 1.
    pub read: usize,
    /// The references with the largest sums of shared hashes, best first.
    pub ranked: Vec<usize>,
    pub calls: Vec<FeatureCall>,
}

/// The value that leads an ordering, or `MISSING` where there is none.
pub open spec fn top_value(ordered: Seq<ValueSum>) -> i64 {
    if ordered.len() > 0 {
        ordered[0].value
    } else {
        MISSING
    }
}

/// Running state over a stream of reads.
#[derive(Clone, Debug)]
pub struct StreamState {
    /// Sum of shared hashes of each reference over the reads so far.
    pub ssh: Vec<u64>,
    /// Index of the current read, from 1.
    pub read: usize,
    /// For each feature, the top value after each read reported so far.
    pub top_history: Vec<Vec<i64>>,
}

impl StreamState {
    /// State at the start of a stream over `n_refs` references with
    /// `n_features` genotype features.
    pub fn new(n_refs: usize, n_features: usize) -> (r: StreamState)
        ensures
            r.ssh@ == Seq::new(n_refs as nat, |i: int| 0u64),
            r.read == 1,
            r.top_history@.len() == n_features,
            forall|f: int| 0 <= f < n_features ==> (#[trigger] r.top_history@[f])@.len() == 0,
    {
        let mut ssh: Vec<u64> = Vec::new();
        let mut i: usize = 0;
        while i < n_refs
            invariant
                0 <= i <= n_refs,
                ssh@ == Seq::new(i as nat, |i: int| 0u64),
            decreases n_refs - i,
        {
            ssh.push(0);
            i = i + 1;
            proof {
                assert(ssh@ =~= Seq::new(i as nat, |i: int| 0u64));
            }
        }
        let mut top_history: Vec<Vec<i64>> = Vec::new();
        let mut f: usize = 0;
        while f < n_features
            invariant
                0 <= f <= n_features,
                top_history@.len() == f,
                forall|g: int| 0 <= g < f ==> (#[trigger] top_history@[g])@.len() == 0,
            decreases n_features - f,
        {
            top_history.push(Vec::new());
            f = f + 1;
        }
        StreamState { ssh, read: 1, top_history }
    }

    /// Adding `deltas` to the sums overflows none of them.
    pub open spec fn can_add(&self, deltas: Seq<u64>) -> bool {
        deltas.len() == self.ssh@.len() && forall|r: int|
            0 <= r < deltas.len() ==> self.ssh@[r] + deltas[r] <= u64::MAX
    }

    /// Whether `add_read` may take `deltas`.
    pub fn fits(&self, deltas: &[u64]) -> (r: bool)
        ensures
            r == self.can_add(deltas@),
    {
        if deltas.len() != self.ssh.len() {
            return false;
        }
        let mut i: usize = 0;
        while i < deltas.len()
            invariant
                deltas@.len() == self.ssh@.len(),
                0 <= i <= deltas@.len(),
                forall|r: int| 0 <= r < i ==> self.ssh@[r] + deltas@[r] <= u64::MAX,
            decreases deltas@.len() - i,
        {
            if self.ssh[i] > u64::MAX - deltas[i] {
                return false;
            }
            i = i + 1;
        }
        true
    }

    /// Adds the shared hashes of the current read to each reference's sum.
    /// No sum ever decreases.
    pub fn add_read(&mut self, deltas: &[u64])
        requires
            old(self).can_add(deltas@),
        ensures
            final(self).ssh@.len() == old(self).ssh@.len(),
            forall|r: int| 0 <= r < deltas@.len() ==> #[trigger] final(self).ssh@[r] == old(self).ssh@[r] + deltas@[r],
            forall|r: int| 0 <= r < deltas@.len() ==> #[trigger] final(self).ssh@[r] >= old(self).ssh@[r],
            final(self).read == old(self).read,
            final(self).top_history@ == old(self).top_history@,
    {
        let mut i: usize = 0;
        while i < deltas.len()
            invariant
                deltas@.len() == old(self).ssh@.len(),
                self.ssh@.len() == old(self).ssh@.len(),
                self.read == old(self).read,
                self.top_history@ == old(self).top_history@,
                0 <= i <= deltas@.len(),
                forall|r: int| 0 <= r < deltas@.len() ==> old(self).ssh@[r] + deltas@[r] <= u64::MAX,
                forall|r: int| 0 <= r < i ==> self.ssh@[r] == old(self).ssh@[r] + deltas@[r],
                forall|r: int| i <= r < deltas@.len() ==> self.ssh@[r] == old(self).ssh@[r],
            decreases deltas@.len() - i,
        {
            let v = self.ssh[i] + deltas[i];
            self.ssh.set(i, v);
            i = i + 1;
        }
    }

    /// Reports the current read: ranks the `ranks` references with the largest
    /// sums, then for each feature orders its values among them by summed
    /// totals, records the top value and scores the call.
    pub fn report(&mut self, table: &GenotypeTable, ranks: usize, stability: usize) -> (r: ReadReport)
        requires
            table.wf(),
            old(self).ssh@.len() == table.rows@.len(),
            old(self).top_history@.len() == table.n_features(),
        ensures
            final(self).ssh@ == old(self).ssh@,
            final(self).read == old(self).read,
            r.read == old(self).read,
            is_top_ranking(old(self).ssh@, ranks as nat, r.ranked@),
            r.calls@.len() == table.n_features(),
            final(self).top_history@.len() == old(self).top_history@.len(),
            forall|f: int| 0 <= f < r.calls@.len() ==> {
                let call = #[trigger] r.calls@[f];
                &&& is_sssh_ordering(old(self).ssh@, table.rows@, r.ranked@, f, call.values@)
                &&& final(self).top_history@[f]@ == old(self).top_history@[f]@.push(top_value(call.values@))
                &&& call.stable == spec_stable(final(self).top_history@[f]@, stability as nat)
                &&& (call.score.numerator as int, call.score.denominator as int) == preference_of(call.values@)
                &&& call.score.numerator <= call.score.denominator
                &&& call.score.denominator > 0
            },
    {
        let ranked = top_references(self.ssh.as_slice(), ranks);
        let n_features = table.features.len();
        let mut calls: Vec<FeatureCall> = Vec::new();
        let mut f: usize = 0;
        while f < n_features
            invariant
                table.wf(),
                n_features == table.n_features(),
                self.ssh@ == old(self).ssh@,
                self.read == old(self).read,
                self.ssh@.len() == table.rows@.len(),
                self.top_history@.len() == n_features,
                is_top_ranking(self.ssh@, ranks as nat, ranked@),
                0 <= f <= n_features,
                calls@.len() == f,
                forall|g: int| f <= g < n_features ==> self.top_history@[g] == old(self).top_history@[g],
                forall|g: int| 0 <= g < f ==> {
                    let call = #[trigger] calls@[g];
                    &&& is_sssh_ordering(old(self).ssh@, table.rows@, ranked@, g, call.values@)
                    &&& self.top_history@[g]@ == old(self).top_history@[g]@.push(top_value(call.values@))
                    &&& call.stable == spec_stable(self.top_history@[g]@, stability as nat)
                    &&& (call.score.numerator as int, call.score.denominator as int) == preference_of(call.values@)
                    &&& call.score.numerator <= call.score.denominator
                    &&& call.score.denominator > 0
                },
            decreases n_features - f,
        {
            proof {
                assert forall|r: int| 0 <= r < table.rows@.len() implies f < (#[trigger] table.rows@[r])@.len() by {}
            }
            let values = rank_feature_values(self.ssh.as_slice(), table, ranked.as_slice(), f);
            let score = ordering_score(self.ssh.as_slice(), table, ranked.as_slice(), f, values.as_slice());
            let top = if values.len() > 0 { values[0].value } else { MISSING };
            let ghost hist_before = self.top_history@;
            let mut history: Vec<i64> = Vec::new();
            std::mem::swap(&mut history, &mut self.top_history[f]);
            history.push(top);
            let stable = is_stable(history.as_slice(), stability);
            self.top_history.set(f, history);
            proof {
                assert forall|g: int| 0 <= g < self.top_history@.len() && g != f implies self.top_history@[g] == hist_before[g] by {}
            }
            calls.push(FeatureCall { values, stable, score });
            f = f + 1;
        }
        ReadReport { read: self.read, ranked, calls }
    }

    /// Moves on to the next read. Returns whether another read may follow:
    /// not once a positive `limit` of reads has been retired.
    pub fn finish_read(&mut self, limit: usize) -> (r: bool)
        requires
            old(self).read < usize::MAX,
        ensures
            final(self).read == old(self).read + 1,
            final(self).ssh@ == old(self).ssh@,
            final(self).top_history@ == old(self).top_history@,
            r == !(limit > 0 && final(self).read > limit),
    {
        self.read = self.read + 1;
        !(limit > 0 && self.read > limit)
    }
}

} // verus!
