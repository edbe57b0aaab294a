//! Resolution of one cluster of overlapping records: a greedy, anchor-based
//! sweep that keeps the best-ranked member of each conflict group.

use crate::bits::{bits_of, ClaimMask};
use crate::conflict::{are_conflicting, spec_conflicting};
use crate::rank::{eff_rank, forge_rank, RankStore, WORST_RANK};
use crate::record::{views_of, Record, RecordV};
use vstd::prelude::*;

verus! {

/// The priority map a cluster is resolved against.
pub type RankModel = Map<(Seq<u8>, u64), usize>;

/// Every record of the cluster is well formed.
pub open spec fn all_wf(cl: Seq<RecordV>) -> bool {
    forall|i: int| 0 <= i < cl.len() ==> (#[trigger] cl[i]).wf()
}

/// All records of the cluster carry the same number of samples.
pub open spec fn same_schema(cl: Seq<RecordV>) -> bool {
    forall|i: int, j: int|
        0 <= i < cl.len() && 0 <= j < cl.len() ==> (#[trigger] cl[i].gts.len()) == (
        #[trigger] cl[j].gts.len())
}

/// The later cluster members that conflict with the anchor at `a` and are
/// not yet claimed by an earlier group. A record claimed once belongs to
/// that group alone: it is neither re-claimed nor re-selected later.
pub open spec fn conflict_set(cl: Seq<RecordV>, claimed: Set<int>, a: int) -> Set<int> {
    Set::new(
        |x: int| a < x < cl.len() && !claimed.contains(x) && spec_conflicting(cl[a], cl[x]),
    )
}

/// The conflict group of the anchor at `a`: the anchor itself and every
/// unclaimed later member that conflicts with it.
pub open spec fn group_of(cl: Seq<RecordV>, claimed: Set<int>, a: int) -> Set<int> {
    conflict_set(cl, claimed, a).insert(a)
}

/// The index that survives the anchor's scan, after candidates `j..` have
/// still to be examined and `bi` is the best index seen so far: the
/// earliest minimum-rank member of the anchor's group. Claimed indices
/// are passed over.
pub open spec fn scan_best(
    cl: Seq<RecordV>,
    m: RankModel,
    claimed: Set<int>,
    a: int,
    j: int,
    bi: int,
) -> int
    decreases cl.len() - j,
{
    if j < 0 || j >= cl.len() {
        bi
    } else if !claimed.contains(j) && spec_conflicting(cl[a], cl[j]) && eff_rank(m, cl[j])
        < eff_rank(m, cl[bi]) {
        scan_best(cl, m, claimed, a, j + 1, j)
    } else {
        scan_best(cl, m, claimed, a, j + 1, bi)
    }
}

/// The sole survivor of the conflict group anchored at `a`.
pub open spec fn survivor_of(cl: Seq<RecordV>, m: RankModel, claimed: Set<int>, a: int) -> int {
    scan_best(cl, m, claimed, a, a + 1, a)
}

proof fn lemma_scan_best(cl: Seq<RecordV>, m: RankModel, claimed: Set<int>, a: int, j: int, bi: int)
    requires
        0 <= a < cl.len(),
        a < j <= cl.len(),
        bi == a || (a < bi < j && !claimed.contains(bi) && spec_conflicting(cl[a], cl[bi])),
    ensures
        ({
            let s = scan_best(cl, m, claimed, a, j, bi);
            &&& s == bi || (j <= s < cl.len() && !claimed.contains(s) && spec_conflicting(
                cl[a],
                cl[s],
            ))
            &&& eff_rank(m, cl[s]) <= eff_rank(m, cl[bi])
            &&& forall|k: int|
                j <= k < cl.len() && !claimed.contains(k) && spec_conflicting(cl[a], cl[k])
                    ==> eff_rank(m, cl[s]) <= eff_rank(m, #[trigger] cl[k])
        }),
    decreases cl.len() - j,
{
    if j < cl.len() {
        if !claimed.contains(j) && spec_conflicting(cl[a], cl[j]) && eff_rank(m, cl[j])
            < eff_rank(m, cl[bi]) {
            lemma_scan_best(cl, m, claimed, a, j + 1, j);
        } else {
            lemma_scan_best(cl, m, claimed, a, j + 1, bi);
        }
    }
}

/// The survivor belongs to its group and has the minimum rank in it.
pub proof fn lemma_survivor(cl: Seq<RecordV>, m: RankModel, claimed: Set<int>, a: int)
    requires
        0 <= a < cl.len(),
    ensures
        group_of(cl, claimed, a).contains(survivor_of(cl, m, claimed, a)),
        forall|y: int|
            #[trigger] group_of(cl, claimed, a).contains(y) ==> eff_rank(
                m,
                cl[survivor_of(cl, m, claimed, a)],
            ) <= eff_rank(m, cl[y]),
{
    lemma_scan_best(cl, m, claimed, a, a + 1, a);
    let s = survivor_of(cl, m, claimed, a);
    assert(group_of(cl, claimed, a).contains(s));
    assert forall|y: int| #[trigger] group_of(cl, claimed, a).contains(y) implies eff_rank(
        m,
        cl[s],
    ) <= eff_rank(m, cl[y]) by {
        if y == a {
        } else {
            assert(a + 1 <= y < cl.len() && !claimed.contains(y) && spec_conflicting(
                cl[a],
                cl[y],
            ));
        }
    }
}

/// The survivors of the sweep from index `i` on, when the members of
/// `claimed` have already been claimed by earlier anchors. Each unclaimed
/// index in turn anchors a group and contributes its survivor; its
/// unclaimed conflicting followers are claimed, and stay out of every
/// later group.
pub open spec fn sweep(cl: Seq<RecordV>, m: RankModel, i: int, claimed: Set<int>) -> Seq<int>
    decreases cl.len() - i,
{
    if i < 0 || i >= cl.len() {
        seq![]
    } else if claimed.contains(i) {
        sweep(cl, m, i + 1, claimed)
    } else {
        seq![survivor_of(cl, m, claimed, i)] + sweep(
            cl,
            m,
            i + 1,
            claimed.union(conflict_set(cl, claimed, i)),
        )
    }
}

/// The survivors of a whole cluster, in anchor order.
pub open spec fn selected_of(cl: Seq<RecordV>, m: RankModel) -> Seq<int> {
    sweep(cl, m, 0, Set::empty())
}

/// The survivors of a whole cluster, in ascending index order: the order
/// the records had in the input.
pub open spec fn selected_sorted(cl: Seq<RecordV>, m: RankModel) -> Seq<int> {
    selected_of(cl, m).sort()
}

/// Every index the sweep emits lies in `[i, cl.len())`.
pub proof fn lemma_sweep_bounds(cl: Seq<RecordV>, m: RankModel, i: int, claimed: Set<int>)
    ensures
        forall|k: int|
            0 <= k < sweep(cl, m, i, claimed).len() ==> i <= #[trigger] sweep(
                cl,
                m,
                i,
                claimed,
            )[k] < cl.len(),
    decreases cl.len() - i,
{
    if 0 <= i < cl.len() {
        if claimed.contains(i) {
            lemma_sweep_bounds(cl, m, i + 1, claimed);
            assert forall|k: int| 0 <= k < sweep(cl, m, i, claimed).len() implies i
                <= #[trigger] sweep(cl, m, i, claimed)[k] < cl.len() by {
                assert(sweep(cl, m, i, claimed)[k] == sweep(cl, m, i + 1, claimed)[k]);
            }
        } else {
            lemma_sweep_bounds(cl, m, i + 1, claimed.union(conflict_set(cl, claimed, i)));
            lemma_survivor(cl, m, claimed, i);
            let s = survivor_of(cl, m, claimed, i);
            assert(group_of(cl, claimed, i).contains(s));
            assert(i <= s < cl.len());
            let rest = sweep(cl, m, i + 1, claimed.union(conflict_set(cl, claimed, i)));
            let whole = sweep(cl, m, i, claimed);
            assert(whole == seq![s] + rest);
            assert forall|k: int| 0 <= k < whole.len() implies i <= #[trigger] whole[k]
                < cl.len() by {
                if k == 0 {
                    assert(whole[k] == s);
                } else {
                    assert(whole[k] == rest[k - 1]);
                }
            }
        }
    }
}

/// The sweep never selects a claimed index, and never selects the same
/// index twice: one record survives for at most one group.
pub proof fn lemma_sweep_distinct(cl: Seq<RecordV>, m: RankModel, i: int, claimed: Set<int>)
    ensures
        forall|k: int|
            0 <= k < sweep(cl, m, i, claimed).len() ==> !claimed.contains(
                #[trigger] sweep(cl, m, i, claimed)[k],
            ),
        forall|k1: int, k2: int|
            0 <= k1 < k2 < sweep(cl, m, i, claimed).len() ==> sweep(cl, m, i, claimed)[k1]
                != sweep(cl, m, i, claimed)[k2],
    decreases cl.len() - i,
{
    if 0 <= i < cl.len() {
        if claimed.contains(i) {
            lemma_sweep_distinct(cl, m, i + 1, claimed);
            assert forall|k: int| 0 <= k < sweep(cl, m, i, claimed).len() implies !claimed.contains(
                #[trigger] sweep(cl, m, i, claimed)[k],
            ) by {
                assert(sweep(cl, m, i, claimed)[k] == sweep(cl, m, i + 1, claimed)[k]);
            }
            assert forall|k1: int, k2: int|
                0 <= k1 < k2 < sweep(cl, m, i, claimed).len() implies sweep(cl, m, i, claimed)[k1]
                != sweep(cl, m, i, claimed)[k2] by {
                assert(sweep(cl, m, i, claimed)[k1] == sweep(cl, m, i + 1, claimed)[k1]);
                assert(sweep(cl, m, i, claimed)[k2] == sweep(cl, m, i + 1, claimed)[k2]);
            }
        } else {
            let c2 = claimed.union(conflict_set(cl, claimed, i));
            lemma_sweep_distinct(cl, m, i + 1, c2);
            lemma_sweep_bounds(cl, m, i + 1, c2);
            lemma_survivor(cl, m, claimed, i);
            let s = survivor_of(cl, m, claimed, i);
            let rest = sweep(cl, m, i + 1, c2);
            let whole = sweep(cl, m, i, claimed);
            assert(whole == seq![s] + rest);
            assert(group_of(cl, claimed, i).contains(s));
            assert(!claimed.contains(s));
            assert forall|k: int| 0 <= k < rest.len() implies #[trigger] rest[k] != s by {
                if s == i {
                    assert(rest[k] >= i + 1);
                } else {
                    assert(conflict_set(cl, claimed, i).contains(s));
                    assert(c2.contains(s));
                    assert(!c2.contains(rest[k]));
                }
            }
            assert forall|k: int| 0 <= k < whole.len() implies !claimed.contains(
                #[trigger] whole[k],
            ) by {
                if k == 0 {
                    assert(whole[k] == s);
                } else {
                    assert(whole[k] == rest[k - 1]);
                    assert(!c2.contains(rest[k - 1]));
                }
            }
            assert forall|k1: int, k2: int| 0 <= k1 < k2 < whole.len() implies whole[k1]
                != whole[k2] by {
                if k1 == 0 {
                    assert(whole[k1] == s);
                    assert(whole[k2] == rest[k2 - 1]);
                } else {
                    assert(whole[k1] == rest[k1 - 1]);
                    assert(whole[k2] == rest[k2 - 1]);
                }
            }
        }
    }
}

/// What sorting a sequence of integers yields: the same elements, in
/// non-decreasing order.
pub proof fn lemma_sort_pairwise(s: Seq<int>)
    ensures
        s.sort().to_multiset() == s.to_multiset(),
        s.sort().len() == s.len(),
        forall|p: int, q: int|
            0 <= p < q < s.sort().len() ==> #[trigger] s.sort()[p] <= #[trigger] s.sort()[q],
        forall|x: int| s.sort().contains(x) == s.contains(x),
{
    broadcast use vstd::seq_lib::group_to_multiset_ensures;

    s.lemma_sort_ensures();
    let leq = |x: int, y: int| x <= y;
    assert(vstd::relations::sorted_by(s.sort(), leq));
    assert forall|p: int, q: int| 0 <= p < q < s.sort().len() implies #[trigger] s.sort()[p]
        <= #[trigger] s.sort()[q] by {
        assert(leq(s.sort()[p], s.sort()[q]));
    }
    assert(s.sort().len() == s.sort().to_multiset().len());
    assert(s.len() == s.to_multiset().len());
    assert forall|x: int| s.sort().contains(x) == s.contains(x) by {
        assert(s.sort().contains(x) <==> s.sort().to_multiset().count(x) > 0);
        assert(s.contains(x) <==> s.to_multiset().count(x) > 0);
    }
}

/// The kept indices, in ascending order, are strictly increasing: the
/// resolver emits each cluster index at most once.
pub proof fn lemma_selected_sorted_strict(cl: Seq<RecordV>, m: RankModel)
    ensures
        forall|p: int, q: int|
            0 <= p < q < selected_sorted(cl, m).len() ==> #[trigger] selected_sorted(cl, m)[p]
                < #[trigger] selected_sorted(cl, m)[q],
{
    let sel = selected_of(cl, m);
    let srt = selected_sorted(cl, m);
    lemma_sweep_distinct(cl, m, 0, Set::empty());
    assert(sel.no_duplicates());
    sel.lemma_multiset_has_no_duplicates();
    lemma_sort_pairwise(sel);
    assert(forall|x: int| srt.to_multiset().contains(x) ==> srt.to_multiset().count(x) == 1);
    srt.lemma_multiset_has_no_duplicates_conv();
    assert(srt.no_duplicates());
    assert forall|p: int, q: int| 0 <= p < q < srt.len() implies #[trigger] srt[p]
        < #[trigger] srt[q] by {
        assert(srt[p] <= srt[q]);
        assert(srt[p] != srt[q]);
    }
}

proof fn lemma_sweep_member(cl: Seq<RecordV>, m: RankModel, i: int, claimed: Set<int>, k: int)
    requires
        0 <= k < sweep(cl, m, i, claimed).len(),
    ensures
        exists|a: int, c: Set<int>|
            i <= a < cl.len() && sweep(cl, m, i, claimed)[k] == #[trigger] survivor_of(
                cl,
                m,
                c,
                a,
            ),
    decreases cl.len() - i,
{
    if i < 0 || i >= cl.len() {
        assert(false);
    } else if claimed.contains(i) {
        lemma_sweep_member(cl, m, i + 1, claimed, k);
        let (a, c) = choose|a: int, c: Set<int>|
            i + 1 <= a < cl.len() && sweep(cl, m, i + 1, claimed)[k] == #[trigger] survivor_of(
                cl,
                m,
                c,
                a,
            );
        assert(sweep(cl, m, i, claimed)[k] == survivor_of(cl, m, c, a));
    } else {
        let rest = sweep(cl, m, i + 1, claimed.union(conflict_set(cl, claimed, i)));
        assert(sweep(cl, m, i, claimed) == seq![survivor_of(cl, m, claimed, i)] + rest);
        if k == 0 {
            assert(sweep(cl, m, i, claimed)[0] == survivor_of(cl, m, claimed, i));
        } else {
            lemma_sweep_member(cl, m, i + 1, claimed.union(conflict_set(cl, claimed, i)), k - 1);
            let (a, c) = choose|a: int, c: Set<int>|
                i + 1 <= a < cl.len() && rest[k - 1] == #[trigger] survivor_of(cl, m, c, a);
            assert(sweep(cl, m, i, claimed)[k] == rest[k - 1]);
            assert(sweep(cl, m, i, claimed)[k] == survivor_of(cl, m, c, a));
        }
    }
}

/// Rank monotonicity: every index the resolver keeps is the survivor of a
/// conflict group: it belongs to that group, and no member of the group
/// has a better (numerically smaller) rank.
pub proof fn lemma_rank_monotonic(cl: Seq<RecordV>, m: RankModel, k: int)
    requires
        0 <= k < selected_of(cl, m).len(),
    ensures
        exists|a: int, c: Set<int>|
            0 <= a < cl.len() && #[trigger] group_of(cl, c, a).contains(selected_of(cl, m)[k])
                && (forall|y: int|
                #[trigger] group_of(cl, c, a).contains(y) ==> eff_rank(
                    m,
                    cl[selected_of(cl, m)[k]],
                ) <= eff_rank(m, cl[y])),
{
    lemma_sweep_member(cl, m, 0, Set::empty(), k);
    let (a, c) = choose|a: int, c: Set<int>|
        0 <= a < cl.len() && selected_of(cl, m)[k] == #[trigger] survivor_of(cl, m, c, a);
    lemma_survivor(cl, m, c, a);
    assert(group_of(cl, c, a).contains(selected_of(cl, m)[k]));
}

/// Unranked records compare by a sentinel worse than every rank a store
/// under its invariant holds: a ranked record always outranks an unranked
/// one.
pub proof fn lemma_worst_rank_sentinel(m: RankModel, ranked: RecordV, unranked: RecordV)
    requires
        forall|key: (Seq<u8>, u64)| #[trigger] m.contains_key(key) ==> m[key] < WORST_RANK,
        0 <= ranked.pos <= u64::MAX,
        m.contains_key((ranked.chrom, ranked.pos as u64)),
        !(0 <= unranked.pos <= u64::MAX && m.contains_key((unranked.chrom, unranked.pos as u64))),
    ensures
        eff_rank(m, unranked) == WORST_RANK as int,
        eff_rank(m, ranked) < eff_rank(m, unranked),
{
}

/// How an excluded record is accounted for, given the kept indices `sel`:
/// it is kept itself; or it conflicts with a kept record of rank at most
/// its own; or it conflicts with an anchor record that conflicts in turn
/// with such a kept record.
pub open spec fn covered(cl: Seq<RecordV>, m: RankModel, sel: Seq<int>, x: int) -> bool {
    ||| sel.contains(x)
    ||| exists|s: int|
        #[trigger] sel.contains(s) && eff_rank(m, cl[s]) <= eff_rank(m, cl[x])
            && spec_conflicting(cl[x], cl[s])
    ||| exists|s: int, a: int|
        #![trigger sel.contains(s), spec_conflicting(cl[a], cl[s])]
        sel.contains(s) && 0 <= a < cl.len() && eff_rank(m, cl[s]) <= eff_rank(m, cl[x])
            && spec_conflicting(cl[a], cl[x]) && spec_conflicting(cl[a], cl[s])
}

proof fn lemma_covered_extend(cl: Seq<RecordV>, m: RankModel, s0: int, rest: Seq<int>, x: int)
    requires
        covered(cl, m, rest, x),
    ensures
        covered(cl, m, seq![s0] + rest, x),
{
    let whole = seq![s0] + rest;
    assert forall|v: int| rest.contains(v) implies whole.contains(v) by {
        let k = choose|k: int| 0 <= k < rest.len() && rest[k] == v;
        assert(whole[k + 1] == v);
    }
    if rest.contains(x) {
        assert(whole.contains(x));
    } else if exists|s: int|
        #[trigger] rest.contains(s) && eff_rank(m, cl[s]) <= eff_rank(m, cl[x])
            && spec_conflicting(cl[x], cl[s]) {
        let s = choose|s: int|
            #[trigger] rest.contains(s) && eff_rank(m, cl[s]) <= eff_rank(m, cl[x])
                && spec_conflicting(cl[x], cl[s]);
        assert(whole.contains(s));
    } else {
        let (s, a) = choose|s: int, a: int|
            #![trigger rest.contains(s), spec_conflicting(cl[a], cl[s])]
            rest.contains(s) && 0 <= a < cl.len() && eff_rank(m, cl[s]) <= eff_rank(m, cl[x])
                && spec_conflicting(cl[a], cl[x]) && spec_conflicting(cl[a], cl[s]);
        assert(whole.contains(s));
        assert(covered(cl, m, whole, x));
    }
}

proof fn lemma_sweep_covers(cl: Seq<RecordV>, m: RankModel, i: int, claimed: Set<int>, x: int)
    requires
        0 <= i <= x < cl.len(),
        !claimed.contains(x),
    ensures
        covered(cl, m, sweep(cl, m, i, claimed), x),
    decreases cl.len() - i,
{
    let sel = sweep(cl, m, i, claimed);
    if claimed.contains(i) {
        assert(x != i);
        lemma_sweep_covers(cl, m, i + 1, claimed, x);
        assert(sel == sweep(cl, m, i + 1, claimed));
    } else {
        let s = survivor_of(cl, m, claimed, i);
        let rest = sweep(cl, m, i + 1, claimed.union(conflict_set(cl, claimed, i)));
        assert(sel == seq![s] + rest);
        assert(sel[0] == s);
        assert(sel.contains(s));
        lemma_survivor(cl, m, claimed, i);
        assert(group_of(cl, claimed, i).contains(s));
        if x == i {
            if s == i {
                assert(sel.contains(x));
            } else {
                assert(conflict_set(cl, claimed, i).contains(s));
                assert(spec_conflicting(cl[i], cl[s]));
                crate::conflict::lemma_conflicting_sym(cl[i], cl[s]);
                assert(group_of(cl, claimed, i).contains(x));
                assert(eff_rank(m, cl[s]) <= eff_rank(m, cl[x]));
                assert(spec_conflicting(cl[x], cl[s]));
                assert(covered(cl, m, sel, x));
            }
        } else if conflict_set(cl, claimed, i).contains(x) {
            assert(group_of(cl, claimed, i).contains(x));
            assert(eff_rank(m, cl[s]) <= eff_rank(m, cl[x]));
            if s == x {
                assert(sel.contains(x));
            } else if s == i {
                assert(spec_conflicting(cl[i], cl[x]));
                crate::conflict::lemma_conflicting_sym(cl[i], cl[x]);
                assert(spec_conflicting(cl[x], cl[s]));
                assert(covered(cl, m, sel, x));
            } else {
                assert(conflict_set(cl, claimed, i).contains(s));
                assert(spec_conflicting(cl[i], cl[x]));
                assert(spec_conflicting(cl[i], cl[s]));
                assert(covered(cl, m, sel, x));
            }
        } else {
            assert(!claimed.union(conflict_set(cl, claimed, i)).contains(x));
            lemma_sweep_covers(cl, m, i + 1, claimed.union(conflict_set(cl, claimed, i)), x);
            lemma_covered_extend(cl, m, s, rest, x);
        }
    }
}

/// Coverage: every cluster index is either kept, or excluded while it
/// conflicts — directly, or through its group's anchor — with a kept
/// record whose rank is at most its own.
pub proof fn lemma_coverage(cl: Seq<RecordV>, m: RankModel, x: int)
    requires
        0 <= x < cl.len(),
    ensures
        covered(cl, m, selected_of(cl, m), x),
{
    lemma_sweep_covers(cl, m, 0, Set::empty(), x);
}

/// The rank the resolver compares by: the store's rank for the record's
/// site, or [`WORST_RANK`] when the site is unranked.
pub fn rank_or_worst(record: &Record, ranks: &RankStore) -> (r: usize)
    requires
        ranks.inv(),
    ensures
        r as int == eff_rank(ranks@, record@),
{
    match forge_rank(record, ranks) {
        Some(rank) => rank,
        None => WORST_RANK,
    }
}

/// The set of indices flagged in a claim mask.
pub open spec fn mask_set(bits: Seq<bool>) -> Set<int> {
    Set::new(|x: int| 0 <= x < bits.len() && bits[x])
}

/// Resolve a cluster of overlapping records: partition it into conflict
/// groups by a left-to-right sweep, keep the minimum-rank member of each
/// group, and return the kept indices in strictly ascending order. An
/// anchor's scan passes over indices already claimed by an earlier group,
/// so every record belongs to at most one group and is emitted at most
/// once.
pub fn resolve_cluster(cluster: &Vec<Record>, ranks: &RankStore) -> (r: Vec<usize>)
    requires
        ranks.inv(),
        all_wf(views_of(cluster@)),
        same_schema(views_of(cluster@)),
    ensures
        r@.map_values(|u: usize| u as int) == selected_sorted(views_of(cluster@), ranks@),
        forall|k: int| 0 <= k < r@.len() ==> (#[trigger] r@[k]) < cluster@.len(),
        forall|p: int, q: int| 0 <= p < q < r@.len() ==> r@[p] < r@[q],
{
    let ghost cl = views_of(cluster@);
    let ghost m = ranks@;
    let n = cluster.len();
    let mut processed = ClaimMask::repeat(false, n);
    let mut selected: Vec<usize> = Vec::new();
    let mut idx: usize = 0;
    proof {
        assert(mask_set(bits_of(processed)) =~= Set::<int>::empty());
    }
    while idx < n
        invariant
            0 <= idx <= n,
            n == cl.len(),
            cl == views_of(cluster@),
            m == ranks@,
            ranks.inv(),
            all_wf(cl),
            same_schema(cl),
            bits_of(processed).len() == n,
            selected_of(cl, m) == selected@.map_values(|u: usize| u as int) + sweep(
                cl,
                m,
                idx as int,
                mask_set(bits_of(processed)),
            ),
            forall|k: int| 0 <= k < selected@.len() ==> (#[trigger] selected@[k]) < n,
        decreases n - idx,
    {
        let ghost pre_claimed = mask_set(bits_of(processed));
        if !processed.get(idx) {
            let mut hi_idx = idx;
            let mut hi_rank = rank_or_worst(&cluster[idx], ranks);
            let mut cursor = idx + 1;
            let ghost pre_bits = bits_of(processed);
            proof {
                assert(cl[idx as int] == cluster@[idx as int]@);
                assert(cl[idx as int].wf());
                assert(bits_of(processed) =~= Seq::new(
                    n as nat,
                    |x: int| pre_bits[x] || (idx < x < cursor && spec_conflicting(
                        cl[idx as int],
                        cl[x],
                    )),
                ));
            }
            while cursor < n
                invariant
                    idx < cursor <= n,
                    idx < n,
                    n == cl.len(),
                    cl == views_of(cluster@),
                    m == ranks@,
                    ranks.inv(),
                    all_wf(cl),
                    same_schema(cl),
                    bits_of(processed).len() == n,
                    bits_of(processed) == Seq::new(
                        n as nat,
                        |x: int| pre_bits[x] || (idx < x < cursor && spec_conflicting(
                            cl[idx as int],
                            cl[x],
                        )),
                    ),
                    hi_rank as int == eff_rank(m, cl[hi_idx as int]),
                    hi_idx == idx || (idx < hi_idx < cursor && !pre_claimed.contains(
                        hi_idx as int,
                    ) && spec_conflicting(cl[idx as int], cl[hi_idx as int])),
                    hi_idx < n,
                    pre_bits.len() == n,
                    pre_claimed == mask_set(pre_bits),
                    scan_best(cl, m, pre_claimed, idx as int, cursor as int, hi_idx as int)
                        == survivor_of(cl, m, pre_claimed, idx as int),
                decreases n - cursor,
            {
                proof {
                    assert(cl[cursor as int] == cluster@[cursor as int]@);
                    assert(cl[idx as int] == cluster@[idx as int]@);
                    assert(cl[idx as int].wf());
                    assert(cl[cursor as int].wf());
                    assert(cl[idx as int].gts.len() == cl[cursor as int].gts.len());
                }
                let ghost pre_hi = hi_idx as int;
                proof {
                    assert(bits_of(processed)[cursor as int] == pre_bits[cursor as int]);
                    assert(pre_claimed.contains(cursor as int) == pre_bits[cursor as int]);
                }
                if !processed.get(cursor) && are_conflicting(&cluster[idx], &cluster[cursor]) {
                    processed.set(cursor, true);
                    let other_rank = rank_or_worst(&cluster[cursor], ranks);
                    if other_rank < hi_rank {
                        hi_rank = other_rank;
                        hi_idx = cursor;
                    }
                }
                proof {
                    assert(bits_of(processed) =~= Seq::new(
                        n as nat,
                        |x: int| pre_bits[x] || (idx < x < cursor + 1 && spec_conflicting(
                            cl[idx as int],
                            cl[x],
                        )),
                    ));
                    assert(scan_best(cl, m, pre_claimed, idx as int, cursor as int, pre_hi)
                        == scan_best(
                        cl,
                        m,
                        pre_claimed,
                        idx as int,
                        cursor as int + 1,
                        hi_idx as int,
                    ));
                }
                cursor = cursor + 1;
            }
            let ghost pre_sel = selected@;
            selected.push(hi_idx);
            proof {
                assert(scan_best(cl, m, pre_claimed, idx as int, n as int, hi_idx as int)
                    == hi_idx as int);
                assert(hi_idx as int == survivor_of(cl, m, pre_claimed, idx as int));
                assert(!pre_claimed.contains(idx as int));
                assert(mask_set(bits_of(processed)) =~= pre_claimed.union(
                    conflict_set(cl, pre_claimed, idx as int),
                ));
                let done = pre_sel.map_values(|u: usize| u as int);
                let rest = sweep(cl, m, idx as int + 1, mask_set(bits_of(processed)));
                assert(sweep(cl, m, idx as int, pre_claimed) == seq![
                    survivor_of(cl, m, pre_claimed, idx as int),
                ] + rest);
                assert(selected@ =~= pre_sel.push(hi_idx));
                assert(selected@.map_values(|u: usize| u as int) =~= done.push(hi_idx as int));
                assert(done + (seq![hi_idx as int] + rest) =~= done.push(hi_idx as int) + rest);
                assert(selected_of(cl, m) == selected@.map_values(|u: usize| u as int) + rest);
            }
        } else {
            proof {
                assert(pre_claimed.contains(idx as int));
                assert(sweep(cl, m, idx as int, pre_claimed) == sweep(
                    cl,
                    m,
                    idx as int + 1,
                    pre_claimed,
                ));
            }
        }
        idx = idx + 1;
    }
    proof {
        assert(sweep(cl, m, n as int, mask_set(bits_of(processed))) == Seq::<int>::empty());
        assert(selected_of(cl, m) =~= selected@.map_values(|u: usize| u as int));
    }
    let ghost pre_sort = selected@;
    sort_indices(&mut selected);
    proof {
        lemma_selected_sorted_eq(cl, m, selected@);
        assert forall|k: int| 0 <= k < selected@.len() implies (#[trigger] selected@[k])
            < cluster@.len() by {
            assert(selected@.contains(selected@[k]));
            assert(pre_sort.contains(selected@[k]));
            let k2 = choose|k2: int| 0 <= k2 < pre_sort.len() && pre_sort[k2] == selected@[k];
            assert(pre_sort[k2] < n);
        }
        lemma_selected_sorted_strict(cl, m);
        assert forall|p: int, q: int| 0 <= p < q < selected@.len() implies selected@[p]
            < selected@[q] by {
            let img = selected@.map_values(|u: usize| u as int);
            assert(img[p] < img[q]);
        }
    }
    selected
}

/// Sort a vector of indices into ascending order.
fn sort_indices(v: &mut Vec<usize>)
    ensures
        vstd::relations::sorted_by(
            final(v)@.map_values(|u: usize| u as int),
            |x: int, y: int| x <= y,
        ),
        final(v)@.map_values(|u: usize| u as int).to_multiset() == old(v)@.map_values(
            |u: usize| u as int,
        ).to_multiset(),
        final(v)@.len() == old(v)@.len(),
        forall|x: usize| final(v)@.contains(x) ==> old(v)@.contains(x),
{
    let ghost orig = v@.map_values(|u: usize| u as int);
    let n = v.len();
    if n == 0 {
        proof {
            assert(vstd::relations::sorted_by(
                v@.map_values(|u: usize| u as int),
                |x: int, y: int| x <= y,
            ));
        }
        return ;
    }
    let mut i: usize = 1;
    while i < n
        invariant
            1 <= i <= n,
            n == v@.len(),
            orig == old(v)@.map_values(|u: usize| u as int),
            v@.map_values(|u: usize| u as int).to_multiset() == orig.to_multiset(),
            forall|p: int, q: int| 0 <= p < q < i ==> #[trigger] v@[p] <= #[trigger] v@[q],
            forall|x: usize| v@.contains(x) ==> old(v)@.contains(x),
        decreases n - i,
    {
        let x = v[i];
        let ghost pre = v@;
        let mut j: usize = i;
        // Walk the insertion point leftward past every sorted-prefix
        // element larger than the one being placed.
        while j > 0 && x < v[j - 1]
            invariant
                0 <= j <= i < n,
                n == v@.len(),
                v@ == pre,
                x == v@[i as int],
                forall|k: int| j <= k < i ==> x <= #[trigger] pre[k],
            decreases j,
        {
            j = j - 1;
        }
        let moved = v.remove(i);
        v.insert(j, moved);
        proof {
            broadcast use vstd::seq_lib::group_to_multiset_ensures;
            broadcast use vstd::multiset::group_multiset_axioms;

            let cast = |u: usize| u as int;
            let img_pre = pre.map_values(cast);
            let removed = pre.remove(i as int);
            let img_removed = removed.map_values(cast);
            assert(img_removed =~= img_pre.remove(i as int));
            let inserted = removed.insert(j as int, moved);
            let img_ins = inserted.map_values(cast);
            assert(img_ins =~= img_removed.insert(j as int, moved as int));
            assert(v@ == inserted);
            assert(moved == pre[i as int]);
            assert(moved == x);
            assert(img_pre[i as int] == moved as int);
            assert(img_ins.to_multiset() == img_pre.to_multiset()) by {
                assert(img_pre.remove(i as int).to_multiset() == img_pre.to_multiset().remove(
                    img_pre[i as int],
                ));
                assert(img_removed.insert(j as int, moved as int).to_multiset()
                    == img_removed.to_multiset().insert(moved as int));
                assert(img_pre.contains(moved as int));
                assert(img_pre.to_multiset().count(moved as int) > 0);
                assert(img_pre.to_multiset().remove(moved as int).insert(moved as int)
                    =~= img_pre.to_multiset());
            }
            assert(v@.map_values(cast).to_multiset() == orig.to_multiset());
            assert(v@.map_values(|u: usize| u as int).to_multiset() == orig.to_multiset()) by {
                assert(v@.map_values(|u: usize| u as int) =~= v@.map_values(cast));
            }
            assert forall|x0: usize| v@.contains(x0) implies pre.contains(x0) by {
                let k = choose|k: int| 0 <= k < v@.len() && v@[k] == x0;
                if k < j {
                    assert(pre[k] == x0);
                } else if k == j {
                    assert(pre[i as int] == x0);
                } else if k <= i {
                    assert(pre[k - 1] == x0);
                } else {
                    assert(pre[k] == x0);
                }
            }
            assert(forall|k: int| 0 <= k < j ==> #[trigger] v@[k] == pre[k]);
            assert(v@[j as int] == x);
            assert(forall|k: int| j < k <= i ==> #[trigger] v@[k] == pre[k - 1]);
            assert(forall|k: int| i < k < n ==> #[trigger] v@[k] == pre[k]);
            assert forall|p: int, q: int| 0 <= p < q < i + 1 implies #[trigger] v@[p]
                <= #[trigger] v@[q] by {
                if q < j {
                } else if q == j {
                    assert(x >= pre[j - 1]);
                    assert(v@[p] == pre[p]);
                    if p < j - 1 {
                        assert(pre[p] <= pre[j - 1]);
                    }
                } else if p < j {
                    assert(v@[q] == pre[q - 1]);
                    if q - 1 < i {
                        if p < q - 1 {
                            assert(pre[p] <= pre[q - 1]);
                        } else {
                            assert(p == q - 1);
                        }
                    } else {
                        assert(q - 1 == i);
                        assert(pre[q - 1] == x);
                        assert(x >= pre[j - 1]);
                        if p < j - 1 {
                            assert(pre[p] <= pre[j - 1]);
                        }
                    }
                } else if p == j {
                    assert(v@[p] == x);
                    assert(v@[q] == pre[q - 1]);
                    assert(j <= q - 1 < i);
                    assert(x <= pre[q - 1]);
                } else {
                    assert(v@[p] == pre[p - 1]);
                    assert(v@[q] == pre[q - 1]);
                    assert(pre[p - 1] <= pre[q - 1]);
                }
            }
        }
        i = i + 1;
    }
    proof {
        assert(vstd::relations::sorted_by(
            v@.map_values(|u: usize| u as int),
            |x: int, y: int| x <= y,
        )) by {
            let img = v@.map_values(|u: usize| u as int);
            assert(forall|k: int| 0 <= k < n ==> #[trigger] img[k] == v@[k] as int);
            assert(forall|p: int, q: int| 0 <= p < q < n ==> #[trigger] v@[p] <= #[trigger] v@[q]);
        }
    }
}

/// In ascending order, sorted survivors equal any sorted sequence with the
/// same multiset of indices.
proof fn lemma_selected_sorted_eq(cl: Seq<RecordV>, m: RankModel, s: Seq<usize>)
    requires
        vstd::relations::sorted_by(s.map_values(|u: usize| u as int), |x: int, y: int| x <= y),
        s.map_values(|u: usize| u as int).to_multiset() == selected_of(cl, m).to_multiset(),
    ensures
        s.map_values(|u: usize| u as int) == selected_sorted(cl, m),
{
    let leq = |x: int, y: int| x <= y;
    let img = s.map_values(|u: usize| u as int);
    selected_of(cl, m).lemma_sort_ensures();
    assert(vstd::relations::sorted_by(selected_sorted(cl, m), leq));
    assert(vstd::relations::total_ordering(leq)) by {
        assert(vstd::relations::reflexive(leq));
        assert(vstd::relations::transitive(leq));
        assert(vstd::relations::antisymmetric(leq));
        assert(vstd::relations::connected(leq));
    }
    vstd::seq_lib::lemma_sorted_unique(img, selected_sorted(cl, m), leq);
}

} // verus!
