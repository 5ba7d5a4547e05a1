use vstd::prelude::*;

verus! {

/// Reference `a` ranks ahead of reference `b`: a larger score first, the lower
/// index first among equal scores.
pub open spec fn ranks_before(scores: Seq<u64>, a: int, b: int) -> bool {
    scores[a] > scores[b] || (scores[a] == scores[b] && a < b)
}

/// The smaller of two naturals.
pub open spec fn min_nat(a: nat, b: nat) -> nat {
    if a < b { a } else { b }
}

/// `order` lists the `k` best-ranked references (all of them when there are
/// fewer), best first: it is ordered by `ranks_before`, and every reference
/// left out ranks behind every one listed.
pub open spec fn is_top_ranking(scores: Seq<u64>, k: nat, order: Seq<usize>) -> bool {
    &&& order.len() == min_nat(k, scores.len())
    &&& forall|i: int| 0 <= i < order.len() ==> (#[trigger] order[i]) < scores.len()
    &&& forall|i: int, j: int|
        0 <= i < j < order.len() ==> ranks_before(scores, #[trigger] order[i] as int, #[trigger] order[j] as int)
    &&& forall|y: int, i: int|
        0 <= y < scores.len() && !order.contains(y as usize) && 0 <= i < order.len()
            ==> #[trigger] ranks_before(scores, order[i] as int, y)
}

/// There is only one top ranking of given scores: the contract of
/// `top_references` fixes its result.
pub proof fn lemma_top_ranking_unique(scores: Seq<u64>, k: nat, o1: Seq<usize>, o2: Seq<usize>)
    requires
        is_top_ranking(scores, k, o1),
        is_top_ranking(scores, k, o2),
    ensures
        o1 == o2,
{
    lemma_agree_below(scores, k, o1, o2, o1.len() as int);
    assert(o1 =~= o2);
}

proof fn lemma_agree_below(scores: Seq<u64>, k: nat, o1: Seq<usize>, o2: Seq<usize>, n: int)
    requires
        is_top_ranking(scores, k, o1),
        is_top_ranking(scores, k, o2),
        0 <= n <= o1.len(),
    ensures
        forall|m: int| 0 <= m < n ==> o1[m] == o2[m],
    decreases n,
{
    if n > 0 {
        lemma_agree_below(scores, k, o1, o2, n - 1);
        lemma_agree_at(scores, k, o1, o2, n - 1);
    }
}

/// Two top rankings that agree before `i` agree at `i`.
proof fn lemma_agree_at(scores: Seq<u64>, k: nat, o1: Seq<usize>, o2: Seq<usize>, i: int)
    requires
        is_top_ranking(scores, k, o1),
        is_top_ranking(scores, k, o2),
        0 <= i < o1.len(),
        forall|m: int| 0 <= m < i ==> o1[m] == o2[m],
    ensures
        o1[i] == o2[i],
{
    if o1[i] != o2[i] {
        if ranks_before(scores, o1[i] as int, o2[i] as int) {
            lemma_not_ahead(scores, k, o1, o2, i);
        } else {
            lemma_not_ahead(scores, k, o2, o1, i);
        }
    }
}

/// Where two top rankings agree before `i`, the first cannot rank its entry
/// at `i` ahead of the second's.
proof fn lemma_not_ahead(scores: Seq<u64>, k: nat, o1: Seq<usize>, o2: Seq<usize>, i: int)
    requires
        is_top_ranking(scores, k, o1),
        is_top_ranking(scores, k, o2),
        0 <= i < o1.len(),
        o1[i] != o2[i],
        forall|m: int| 0 <= m < i ==> o1[m] == o2[m],
    ensures
        !ranks_before(scores, o1[i] as int, o2[i] as int),
{
    let x = o1[i];
    if ranks_before(scores, x as int, o2[i] as int) {
        if o2.contains(x) {
            let m = choose|m: int| 0 <= m < o2.len() && o2[m] == x;
            if m < i {
                assert(o1[m] == x);
                assert(ranks_before(scores, o1[m] as int, o1[i] as int));
            } else {
                assert(m != i);
                assert(ranks_before(scores, o2[i] as int, o2[m] as int));
            }
        } else {
            assert(ranks_before(scores, o2[i] as int, x as int));
        }
    }
}

/// Indices of the `k` references with the largest scores, best first; ties go
/// to the lower index.
pub fn top_references(scores: &[u64], k: usize) -> (order: Vec<usize>)
    ensures
        is_top_ranking(scores@, k as nat, order@),
{
    let n = scores.len();
    let mut order: Vec<usize> = Vec::new();
    let mut x: usize = 0;
    while x < n
        invariant
            n == scores@.len(),
            0 <= x <= n,
            order@.len() == min_nat(k as nat, x as nat),
            forall|i: int| 0 <= i < order@.len() ==> (#[trigger] order@[i]) < x,
            forall|i: int, j: int|
                0 <= i < j < order@.len() ==> ranks_before(scores@, #[trigger] order@[i] as int, #[trigger] order@[j] as int),
            order@.len() < k ==> forall|y: usize| y < x ==> #[trigger] order@.contains(y),
            forall|y: int, i: int|
                0 <= y < x && !order@.contains(y as usize) && 0 <= i < order@.len()
                    ==> #[trigger] ranks_before(scores@, order@[i] as int, y),
        decreases n - x,
    {
        let mut p: usize = 0;
        while p < order.len() && scores[order[p]] >= scores[x]
            invariant
                n == scores@.len(),
                x < n,
                0 <= p <= order@.len(),
                forall|i: int| 0 <= i < order@.len() ==> (#[trigger] order@[i]) < x,
                forall|i: int| 0 <= i < p ==> ranks_before(scores@, #[trigger] order@[i] as int, x as int),
            decreases order@.len() - p,
        {
            p = p + 1;
        }
        let ghost before = order@;
        if p < k {
            order.insert(p, x);
            proof {
                assert(order@ == before.insert(p as int, x));
                assert forall|i: int, j: int|
                    0 <= i < j < order@.len() implies ranks_before(scores@, #[trigger] order@[i] as int, #[trigger] order@[j] as int) by {
                    if j == p {
                        assert(order@[i] == before[i]);
                    } else if i == p {
                        assert(order@[j] == before[j - 1]);
                        assert(ranks_before(scores@, x as int, before[p as int] as int));
                        if j - 1 > p {
                            assert(ranks_before(scores@, before[p as int] as int, before[j - 1] as int));
                        }
                    } else if i < p && j > p {
                        assert(order@[i] == before[i]);
                        assert(order@[j] == before[j - 1]);
                    } else if j < p {
                        assert(order@[i] == before[i]);
                        assert(order@[j] == before[j]);
                    } else {
                        assert(order@[i] == before[i - 1]);
                        assert(order@[j] == before[j - 1]);
                    }
                }
            }
            if order.len() > k {
                let ghost full = order@;
                let dropped = order.pop().unwrap();
                proof {
                    assert(order@ == full.drop_last());
                    assert forall|y: int, i: int|
                        0 <= y <= x && !order@.contains(y as usize) && 0 <= i < order@.len()
                            implies #[trigger] ranks_before(scores@, order@[i] as int, y) by {
                        assert(order@[i] == full[i]);
                        if y == dropped as int {
                            assert(ranks_before(scores@, full[i] as int, full[full.len() - 1] as int));
                        } else {
                            assert(!full.contains(y as usize)) by {
                                if full.contains(y as usize) {
                                    let m = choose|m: int| 0 <= m < full.len() && full[m] == y as usize;
                                    assert(m != full.len() - 1);
                                    assert(order@[m] == y as usize);
                                }
                            }
                            if y < x {
                                assert(!before.contains(y as usize)) by {
                                    if before.contains(y as usize) {
                                        let m = choose|m: int| 0 <= m < before.len() && before[m] == y as usize;
                                        if m < p {
                                            assert(full[m] == y as usize);
                                        } else {
                                            assert(full[m + 1] == y as usize);
                                        }
                                    }
                                }
                                let last = before.len() - 1;
                                assert(ranks_before(scores@, before[last] as int, y));
                                if i == p {
                                    assert(ranks_before(scores@, x as int, before[p as int] as int));
                                    if p < last {
                                        assert(ranks_before(scores@, before[p as int] as int, before[last] as int));
                                    }
                                } else if i < p {
                                    assert(full[i] == before[i]);
                                } else {
                                    assert(full[i] == before[i - 1]);
                                }
                            } else {
                                assert(full[p as int] == x);
                            }
                        }
                    }
                }
            } else {
                proof {
                    assert forall|y: usize| y <= x implies #[trigger] order@.contains(y) by {
                        if y == x {
                            assert(order@[p as int] == x);
                        } else {
                            assert(before.contains(y));
                            let m = choose|m: int| 0 <= m < before.len() && before[m] == y;
                            if m < p {
                                assert(order@[m] == y);
                            } else {
                                assert(order@[m + 1] == y);
                            }
                        }
                    }
                }
            }
        } else {
            proof {
                assert(!order@.contains(x)) by {
                    if order@.contains(x) {
                        let m = choose|m: int| 0 <= m < order@.len() && order@[m] == x;
                    }
                }
            }
        }
        x = x + 1;
    }
    order
}

} // verus!
