use vstd::prelude::*;

use crate::genotype::{GenotypeTable, MISSING};

verus! {

/// A feature value with the sum of the shared-hash totals of the ranked
/// references that carry it.
#[derive(Clone, Copy, Debug, PartialEq, Eq, Structural)]
pub struct ValueSum {
    pub value: i64,
    pub sum: u128,
}

/// Sum of `ssh` over the listed references whose feature `f` has value `v`.
pub open spec fn sssh_sum(ssh: Seq<u64>, rows: Seq<Vec<i64>>, ranked: Seq<usize>, f: int, v: i64) -> nat
    decreases ranked.len(),
{
    if ranked.len() == 0 {
        0
    } else {
        let r = ranked.last() as int;
        sssh_sum(ssh, rows, ranked.drop_last(), f, v) + if rows[r]@[f] == v {
            ssh[r] as nat
        } else {
            0nat
        }
    }
}

/// `v` is a non-missing value of feature `f` of one of the listed references.
pub open spec fn present(rows: Seq<Vec<i64>>, ranked: Seq<usize>, f: int, v: i64) -> bool {
    v != MISSING && exists|i: int| 0 <= i < ranked.len() && rows[ranked[i] as int]@[f] == v
}

/// Entry `a` comes before entry `b`: a larger sum first, the smaller value id
/// among equal sums.
pub open spec fn value_before(a: ValueSum, b: ValueSum) -> bool {
    a.sum > b.sum || (a.sum == b.sum && a.value < b.value)
}

/// Every entry is a present value with its exact sum.
pub open spec fn exact_entries(
    ssh: Seq<u64>,
    rows: Seq<Vec<i64>>,
    ranked: Seq<usize>,
    f: int,
    entries: Seq<ValueSum>,
) -> bool {
    forall|i: int|
        0 <= i < entries.len() ==> present(rows, ranked, f, (#[trigger] entries[i]).value)
            && entries[i].sum == sssh_sum(ssh, rows, ranked, f, entries[i].value)
}

/// Every present value has an entry.
pub open spec fn covers_present(rows: Seq<Vec<i64>>, ranked: Seq<usize>, f: int, entries: Seq<ValueSum>) -> bool {
    forall|v: i64| present(rows, ranked, f, v) ==> exists|i: int| 0 <= i < entries.len() && (#[trigger] entries[i]).value == v
}

/// `ordered` holds each present value of feature `f` once, with its sum,
/// largest sum first and ties by ascending value id.
pub open spec fn is_sssh_ordering(
    ssh: Seq<u64>,
    rows: Seq<Vec<i64>>,
    ranked: Seq<usize>,
    f: int,
    ordered: Seq<ValueSum>,
) -> bool {
    &&& exact_entries(ssh, rows, ranked, f, ordered)
    &&& covers_present(rows, ranked, f, ordered)
    &&& forall|i: int, j: int|
        0 <= i < j < ordered.len() ==> value_before(#[trigger] ordered[i], #[trigger] ordered[j])
}

/// There is only one ordering of a feature's values by their sums: the
/// contract of `rank_feature_values` fixes its result.
pub proof fn lemma_sssh_ordering_unique(
    ssh: Seq<u64>,
    rows: Seq<Vec<i64>>,
    ranked: Seq<usize>,
    f: int,
    o1: Seq<ValueSum>,
    o2: Seq<ValueSum>,
)
    requires
        is_sssh_ordering(ssh, rows, ranked, f, o1),
        is_sssh_ordering(ssh, rows, ranked, f, o2),
    ensures
        o1 == o2,
{
    let n = if o1.len() < o2.len() { o1.len() } else { o2.len() };
    lemma_orderings_agree_below(ssh, rows, ranked, f, o1, o2, n as int);
    if o1.len() > n {
        lemma_no_extra_entry(ssh, rows, ranked, f, o1, o2);
    }
    if o2.len() > n {
        lemma_no_extra_entry(ssh, rows, ranked, f, o2, o1);
    }
    assert(o1 =~= o2);
}

proof fn lemma_orderings_agree_below(
    ssh: Seq<u64>,
    rows: Seq<Vec<i64>>,
    ranked: Seq<usize>,
    f: int,
    o1: Seq<ValueSum>,
    o2: Seq<ValueSum>,
    n: int,
)
    requires
        is_sssh_ordering(ssh, rows, ranked, f, o1),
        is_sssh_ordering(ssh, rows, ranked, f, o2),
        0 <= n <= o1.len(),
        n <= o2.len(),
    ensures
        forall|m: int| 0 <= m < n ==> o1[m] == o2[m],
    decreases n,
{
    if n > 0 {
        lemma_orderings_agree_below(ssh, rows, ranked, f, o1, o2, n - 1);
        let i = n - 1;
        if o1[i] != o2[i] {
            if value_before(o1[i], o2[i]) {
                lemma_entry_not_ahead(ssh, rows, ranked, f, o1, o2, i);
            } else {
                assert(o1[i].value != o2[i].value);
                lemma_entry_not_ahead(ssh, rows, ranked, f, o2, o1, i);
            }
        }
    }
}

/// Where two orderings agree before `i`, the first cannot put an entry at
/// `i` that comes before the second's.
proof fn lemma_entry_not_ahead(
    ssh: Seq<u64>,
    rows: Seq<Vec<i64>>,
    ranked: Seq<usize>,
    f: int,
    o1: Seq<ValueSum>,
    o2: Seq<ValueSum>,
    i: int,
)
    requires
        is_sssh_ordering(ssh, rows, ranked, f, o1),
        is_sssh_ordering(ssh, rows, ranked, f, o2),
        0 <= i < o1.len(),
        i < o2.len(),
        forall|m: int| 0 <= m < i ==> o1[m] == o2[m],
    ensures
        !value_before(o1[i], o2[i]),
{
    let x = o1[i];
    if value_before(x, o2[i]) {
        assert(present(rows, ranked, f, x.value));
        let m = choose|m: int| 0 <= m < o2.len() && (#[trigger] o2[m]).value == x.value;
        assert(o2[m] == x);
        if m < i {
            assert(o1[m] == x);
            assert(value_before(o1[m], o1[i]));
        } else if m > i {
            assert(value_before(o2[i], o2[m]));
        }
    }
}

/// An ordering that agrees with a shorter or equal one on all of the
/// latter's entries is no longer than it.
proof fn lemma_no_extra_entry(
    ssh: Seq<u64>,
    rows: Seq<Vec<i64>>,
    ranked: Seq<usize>,
    f: int,
    o1: Seq<ValueSum>,
    o2: Seq<ValueSum>,
)
    requires
        is_sssh_ordering(ssh, rows, ranked, f, o1),
        is_sssh_ordering(ssh, rows, ranked, f, o2),
        o1.len() >= o2.len(),
        forall|m: int| 0 <= m < o2.len() ==> o1[m] == o2[m],
    ensures
        o1.len() == o2.len(),
{
    if o1.len() > o2.len() {
        let x = o1[o2.len() as int];
        assert(present(rows, ranked, f, x.value));
        let m = choose|m: int| 0 <= m < o2.len() && (#[trigger] o2[m]).value == x.value;
        assert(o1[m] == o2[m]);
        assert(value_before(o1[m], o1[o2.len() as int]));
    }
}

/// The references listed index `ssh` and `rows`, and every row has feature `f`.
pub open spec fn ranked_fits(ssh: Seq<u64>, rows: Seq<Vec<i64>>, ranked: Seq<usize>, f: int) -> bool {
    &&& ssh.len() == rows.len()
    &&& forall|i: int| 0 <= i < ranked.len() ==> (#[trigger] ranked[i]) < rows.len()
    &&& 0 <= f
    &&& forall|r: int| 0 <= r < rows.len() ==> f < (#[trigger] rows[r])@.len()
}

/// A sum over `n` references stays within `n` times the largest total.
proof fn lemma_sum_bound(ssh: Seq<u64>, rows: Seq<Vec<i64>>, ranked: Seq<usize>, f: int, v: i64, w: i64)
    requires
        ranked_fits(ssh, rows, ranked, f),
    ensures
        sssh_sum(ssh, rows, ranked, f, v) <= ranked.len() * 0xffff_ffff_ffff_ffffnat,
        v != w ==> sssh_sum(ssh, rows, ranked, f, v) + sssh_sum(ssh, rows, ranked, f, w)
            <= ranked.len() * 0xffff_ffff_ffff_ffffnat,
    decreases ranked.len(),
{
    if ranked.len() > 0 {
        let shorter = ranked.drop_last();
        assert forall|i: int| 0 <= i < shorter.len() implies (#[trigger] shorter[i]) < rows.len() by {
            assert(shorter[i] == ranked[i]);
            assert(ranked[i] < rows.len());
        }
        assert(ranked_fits(ssh, rows, shorter, f));
        lemma_sum_bound(ssh, rows, shorter, f, v, w);
        assert(ranked.last() == ranked[ranked.len() - 1]);
        assert(ranked.len() * 0xffff_ffff_ffff_ffffnat == shorter.len() * 0xffff_ffff_ffff_ffffnat
            + 0xffff_ffff_ffff_ffffnat) by (nonlinear_arith)
            requires
                ranked.len() == shorter.len() + 1,
        ;
    }
}

/// The values of feature `f` among the listed references, each once in order
/// of first appearance, with their sums; missing values are skipped.
pub fn feature_sums(ssh: &[u64], table: &GenotypeTable, ranked: &[usize], f: usize) -> (r: Vec<ValueSum>)
    requires
        table.wf(),
        ranked_fits(ssh@, table.rows@, ranked@, f as int),
    ensures
        exact_entries(ssh@, table.rows@, ranked@, f as int, r@),
        covers_present(table.rows@, ranked@, f as int, r@),
        forall|i: int, j: int| 0 <= i < j < r@.len() ==> (#[trigger] r@[i]).value != (#[trigger] r@[j]).value,
{
    let ghost rows = table.rows@;
    let mut out: Vec<ValueSum> = Vec::new();
    let mut i: usize = 0;
    while i < ranked.len()
        invariant
            rows == table.rows@,
            ranked_fits(ssh@, rows, ranked@, f as int),
            0 <= i <= ranked@.len(),
            exact_entries(ssh@, rows, ranked@.subrange(0, i as int), f as int, out@),
            covers_present(rows, ranked@.subrange(0, i as int), f as int, out@),
            forall|a: int, b: int| 0 <= a < b < out@.len() ==> (#[trigger] out@[a]).value != (#[trigger] out@[b]).value,
        decreases ranked@.len() - i,
    {
        let ghost pre = ranked@.subrange(0, i as int);
        let ghost next = ranked@.subrange(0, i + 1);
        let ghost old_out = out@;
        let r = ranked[i];
        let v = table.rows[r][f];
        let amount = ssh[r];
        proof {
            assert(next.drop_last() =~= pre);
            assert(next.last() == r);
            assert forall|k: int| 0 <= k < pre.len() implies (#[trigger] pre[k]) < rows.len() by {
                assert(pre[k] == ranked@[k]);
            }
            assert forall|w: i64| w != v implies sssh_sum(ssh@, rows, next, f as int, w) == sssh_sum(ssh@, rows, pre, f as int, w) by {}
            assert(sssh_sum(ssh@, rows, next, f as int, v) == sssh_sum(ssh@, rows, pre, f as int, v) + amount);
            assert forall|w: i64| present(rows, pre, f as int, w) implies present(rows, next, f as int, w) by {
                let k = choose|k: int| 0 <= k < pre.len() && rows[pre[k] as int]@[f as int] == w;
                assert(next[k] == pre[k]);
            }
            assert forall|w: i64| present(rows, next, f as int, w) && w != v implies present(rows, pre, f as int, w) by {
                let k = choose|k: int| 0 <= k < next.len() && rows[next[k] as int]@[f as int] == w;
                assert(k != i);
                assert(next[k] == pre[k]);
            }
        }
        if v != MISSING {
            let mut t: usize = 0;
            while t < out.len() && out[t].value != v
                invariant
                    0 <= t <= out@.len(),
                    forall|a: int| 0 <= a < t ==> (#[trigger] out@[a]).value != v,
                decreases out@.len() - t,
            {
                t = t + 1;
            }
            proof {
                assert(present(rows, next, f as int, v)) by {
                    assert(next[i as int] == r);
                }
                lemma_sum_bound(ssh@, rows, pre, f as int, v, v);
                assert(pre.len() * 0xffff_ffff_ffff_ffffnat + 0xffff_ffff_ffff_ffffnat
                    <= 0xffff_ffff_ffff_ffff_ffff_ffff_ffff_ffffnat) by (nonlinear_arith)
                    requires
                        pre.len() <= 0xffff_ffff_ffff_ffffnat,
                ;
            }
            if t < out.len() {
                proof {
                    assert(out@[t as int].sum == sssh_sum(ssh@, rows, pre, f as int, v));
                }
                let e = ValueSum { value: v, sum: out[t].sum + amount as u128 };
                out.set(t, e);
            } else {
                proof {
                    assert(!present(rows, pre, f as int, v)) by {
                        if present(rows, pre, f as int, v) {
                            let k = choose|k: int| 0 <= k < old_out.len() && (#[trigger] old_out[k]).value == v;
                        }
                    }
                    assert(sssh_sum(ssh@, rows, pre, f as int, v) == 0) by {
                        lemma_sum_absent(ssh@, rows, pre, f as int, v);
                    }
                }
                out.push(ValueSum { value: v, sum: amount as u128 });
            }
            proof {
                assert forall|a: int| 0 <= a < out@.len() implies present(rows, next, f as int, (#[trigger] out@[a]).value)
                    && out@[a].sum == sssh_sum(ssh@, rows, next, f as int, out@[a].value) by {
                    if a < old_out.len() && out@[a].value != v {
                        assert(out@[a] == old_out[a]);
                    }
                }
                assert forall|w: i64| present(rows, next, f as int, w) implies exists|a: int| 0 <= a < out@.len() && (#[trigger] out@[a]).value == w by {
                    if w == v {
                        assert(out@[t as int].value == v);
                    } else {
                        let a = choose|a: int| 0 <= a < old_out.len() && (#[trigger] old_out[a]).value == w;
                        assert(out@[a] == old_out[a]);
                    }
                }
            }
        } else {
            proof {
                assert forall|a: int| 0 <= a < out@.len() implies present(rows, next, f as int, (#[trigger] out@[a]).value)
                    && out@[a].sum == sssh_sum(ssh@, rows, next, f as int, out@[a].value) by {}
                assert forall|w: i64| present(rows, next, f as int, w) implies exists|a: int| 0 <= a < out@.len() && (#[trigger] out@[a]).value == w by {
                    assert(present(rows, pre, f as int, w));
                }
            }
        }
        i = i + 1;
    }
    proof {
        assert(ranked@.subrange(0, i as int) =~= ranked@);
    }
    out
}

/// Orders entries with distinct values by `value_before`.
pub fn order_by_sum(entries: &[ValueSum]) -> (r: Vec<ValueSum>)
    requires
        forall|i: int, j: int| 0 <= i < j < entries@.len() ==> (#[trigger] entries@[i]).value != (#[trigger] entries@[j]).value,
    ensures
        r@.len() == entries@.len(),
        forall|e: ValueSum| r@.contains(e) <==> entries@.contains(e),
        forall|i: int, j: int| 0 <= i < j < r@.len() ==> value_before(#[trigger] r@[i], #[trigger] r@[j]),
{
    let mut out: Vec<ValueSum> = Vec::new();
    let mut k: usize = 0;
    while k < entries.len()
        invariant
            0 <= k <= entries@.len(),
            forall|i: int, j: int| 0 <= i < j < entries@.len() ==> (#[trigger] entries@[i]).value != (#[trigger] entries@[j]).value,
            out@.len() == k,
            forall|e: ValueSum| out@.contains(e) <==> entries@.subrange(0, k as int).contains(e),
            forall|i: int, j: int| 0 <= i < j < out@.len() ==> value_before(#[trigger] out@[i], #[trigger] out@[j]),
        decreases entries@.len() - k,
    {
        let e = entries[k];
        let mut p: usize = 0;
        while p < out.len() && (out[p].sum > e.sum || (out[p].sum == e.sum && out[p].value < e.value))
            invariant
                0 <= p <= out@.len(),
                forall|i: int| 0 <= i < p ==> value_before(#[trigger] out@[i], e),
            decreases out@.len() - p,
        {
            p = p + 1;
        }
        let ghost before = out@;
        proof {
            assert forall|i: int| 0 <= i < before.len() implies (#[trigger] before[i]).value != e.value by {
                assert(before.contains(before[i]));
                assert(entries@.subrange(0, k as int).contains(before[i]));
                let m = choose|m: int| 0 <= m < k && entries@.subrange(0, k as int)[m] == before[i];
                assert(entries@[m] == before[i]);
            }
        }
        out.insert(p, e);
        proof {
            assert(out@ == before.insert(p as int, e));
            if p < before.len() {
                assert(value_before(e, before[p as int]));
            }
            assert forall|i: int, j: int| 0 <= i < j < out@.len() implies value_before(#[trigger] out@[i], #[trigger] out@[j]) by {
                if j == p {
                    assert(out@[i] == before[i]);
                } else if i == p {
                    assert(out@[j] == before[j - 1]);
                    if j - 1 > p {
                        assert(value_before(before[p as int], before[j - 1]));
                    }
                } else if i < p && j > p {
                    assert(out@[i] == before[i]);
                    assert(out@[j] == before[j - 1]);
                } else if j < p {
                    assert(out@[i] == before[i]);
                    assert(out@[j] == before[j]);
                } else {
                    assert(out@[i] == before[i - 1]);
                    assert(out@[j] == before[j - 1]);
                }
            }
            assert forall|x: ValueSum| out@.contains(x) <==> entries@.subrange(0, k + 1).contains(x) by {
                let next = entries@.subrange(0, k + 1);
                let prev = entries@.subrange(0, k as int);
                if out@.contains(x) {
                    let m = choose|m: int| 0 <= m < out@.len() && out@[m] == x;
                    if m == p {
                        assert(next[k as int] == x);
                    } else {
                        let m2 = if m < p { m } else { m - 1 };
                        assert(before[m2] == x);
                        assert(before.contains(x));
                        let q = choose|q: int| 0 <= q < k && prev[q] == x;
                        assert(next[q] == x);
                    }
                }
                if next.contains(x) {
                    let q = choose|q: int| 0 <= q <= k && next[q] == x;
                    if q == k {
                        assert(out@[p as int] == x);
                    } else {
                        assert(prev[q] == x);
                        assert(prev.contains(x));
                        assert(before.contains(x));
                        let m = choose|m: int| 0 <= m < before.len() && before[m] == x;
                        if m < p {
                            assert(out@[m] == x);
                        } else {
                            assert(out@[m + 1] == x);
                        }
                    }
                }
            }
        }
        k = k + 1;
    }
    proof {
        assert(entries@.subrange(0, k as int) =~= entries@);
    }
    out
}

/// The values of feature `f` among the ranked references with their sums,
/// largest sum first, ties by ascending value id.
pub fn rank_feature_values(ssh: &[u64], table: &GenotypeTable, ranked: &[usize], f: usize) -> (r: Vec<ValueSum>)
    requires
        table.wf(),
        ranked_fits(ssh@, table.rows@, ranked@, f as int),
    ensures
        is_sssh_ordering(ssh@, table.rows@, ranked@, f as int, r@),
{
    let entries = feature_sums(ssh, table, ranked, f);
    let ordered = order_by_sum(entries.as_slice());
    proof {
        let rows = table.rows@;
        assert forall|i: int| 0 <= i < ordered@.len() implies present(rows, ranked@, f as int, (#[trigger] ordered@[i]).value)
            && ordered@[i].sum == sssh_sum(ssh@, rows, ranked@, f as int, ordered@[i].value) by {
            assert(ordered@.contains(ordered@[i]));
            let m = choose|m: int| 0 <= m < entries@.len() && entries@[m] == ordered@[i];
        }
        assert forall|v: i64| present(rows, ranked@, f as int, v) implies exists|i: int| 0 <= i < ordered@.len() && (#[trigger] ordered@[i]).value == v by {
            let m = choose|m: int| 0 <= m < entries@.len() && (#[trigger] entries@[m]).value == v;
            assert(entries@.contains(entries@[m]));
            let i = choose|i: int| 0 <= i < ordered@.len() && ordered@[i] == entries@[m];
        }
    }
    ordered
}

/// A preference score as the exact fraction `numerator / denominator`.
#[derive(Clone, Copy, Debug, PartialEq, Eq, Structural)]
pub struct PreferenceScore {
    pub numerator: u128,
    pub denominator: u128,
}

/// The lead of the first value over the runner-up, `(2p / (p + q)) - 1`, as a
/// fraction: one where there is no runner-up, zero where the runner-up sum is
/// zero.
pub open spec fn preference_of(ordered: Seq<ValueSum>) -> (int, int) {
    if ordered.len() < 2 {
        (1, 1)
    } else if ordered[1].sum == 0 {
        (0, 1)
    } else {
        (ordered[0].sum - ordered[1].sum, ordered[0].sum + ordered[1].sum)
    }
}

/// The preference score of a value ordering lies in `[0, 1]`; it is one
/// where a single value is present and zero where the runner-up sum is zero
/// but the leading one is not.
pub proof fn lemma_preference_bounds(ordered: Seq<ValueSum>)
    requires
        forall|i: int, j: int| 0 <= i < j < ordered.len() ==> value_before(#[trigger] ordered[i], #[trigger] ordered[j]),
    ensures
        0 <= preference_of(ordered).0 <= preference_of(ordered).1,
        preference_of(ordered).1 > 0,
        ordered.len() == 1 ==> preference_of(ordered) == (1int, 1int),
        ordered.len() >= 2 && ordered[0].sum > 0 && ordered[1].sum == 0 ==> preference_of(ordered) == (0int, 1int),
{
    if ordered.len() >= 2 {
        assert(value_before(ordered[0], ordered[1]));
    }
}

/// The preference score of a feature's ordered values. It lies in `[0, 1]`.
pub fn preference_score(ordered: &[ValueSum]) -> (r: PreferenceScore)
    requires
        ordered@.len() >= 2 ==> ordered@[0].sum >= ordered@[1].sum,
        ordered@.len() >= 2 ==> ordered@[0].sum + ordered@[1].sum <= u128::MAX,
    ensures
        (r.numerator as int, r.denominator as int) == preference_of(ordered@),
        r.numerator <= r.denominator,
        r.denominator > 0,
{
    if ordered.len() < 2 {
        PreferenceScore { numerator: 1, denominator: 1 }
    } else if ordered[1].sum == 0 {
        PreferenceScore { numerator: 0, denominator: 1 }
    } else {
        let p = ordered[0].sum;
        let q = ordered[1].sum;
        PreferenceScore { numerator: p - q, denominator: p + q }
    }
}

/// The preference score of a feature's ordering of values.
pub fn ordering_score(ssh: &[u64], table: &GenotypeTable, ranked: &[usize], f: usize, ordered: &[ValueSum]) -> (r: PreferenceScore)
    requires
        table.wf(),
        ranked_fits(ssh@, table.rows@, ranked@, f as int),
        is_sssh_ordering(ssh@, table.rows@, ranked@, f as int, ordered@),
    ensures
        (r.numerator as int, r.denominator as int) == preference_of(ordered@),
        r.numerator <= r.denominator,
        r.denominator > 0,
{
    let n_ranked = ranked.len();
    proof {
        if ordered@.len() >= 2 {
            assert(ranked@.len() == n_ranked);
            let a = ordered@[0];
            let b = ordered@[1];
            assert(value_before(a, b));
            lemma_sum_bound(ssh@, table.rows@, ranked@, f as int, a.value, b.value);
            assert(ranked@.len() * 0xffff_ffff_ffff_ffffnat <= u128::MAX) by (nonlinear_arith)
                requires
                    ranked@.len() <= 0xffff_ffff_ffff_ffffnat,
            ;
        }
    }
    preference_score(ordered)
}

/// The last `window` entries of `history` exist and are all equal.
pub open spec fn spec_stable(history: Seq<i64>, window: nat) -> bool {
    history.len() >= window && forall|i: int, j: int|
        history.len() - window <= i < history.len() && history.len() - window <= j < history.len()
            ==> history[i] == history[j]
}

/// Whether the top value has stayed the same over the last `window` reads.
pub fn is_stable(history: &[i64], window: usize) -> (r: bool)
    ensures
        r == spec_stable(history@, window as nat),
{
    let n = history.len();
    if n < window {
        return false;
    }
    if window == 0 {
        return true;
    }
    let last = history[n - 1];
    let mut i: usize = n - window;
    while i < n
        invariant
            n == history@.len(),
            window <= n,
            0 < window,
            n - window <= i <= n,
            last == history@[n - 1],
            forall|k: int| n - window <= k < i ==> history@[k] == last,
        decreases n - i,
    {
        if history[i] != last {
            return false;
        }
        i = i + 1;
    }
    true
}

/// A value that no listed reference carries sums to zero.
proof fn lemma_sum_absent(ssh: Seq<u64>, rows: Seq<Vec<i64>>, ranked: Seq<usize>, f: int, v: i64)
    requires
        forall|i: int| 0 <= i < ranked.len() ==> rows[ranked[i] as int]@[f] != v,
    ensures
        sssh_sum(ssh, rows, ranked, f, v) == 0,
    decreases ranked.len(),
{
    if ranked.len() > 0 {
        let shorter = ranked.drop_last();
        assert forall|i: int| 0 <= i < shorter.len() implies rows[shorter[i] as int]@[f] != v by {
            assert(shorter[i] == ranked[i]);
        }
        lemma_sum_absent(ssh, rows, shorter, f, v);
        assert(rows[ranked[ranked.len() - 1] as int]@[f] != v);
    }
}

} // verus!
