//! The streaming engine: a single-pass state machine that groups
//! consecutive overlapping records into clusters, resolves each cluster,
//! and re-emits survivors in input order.

use crate::cluster::{
    all_wf, covered, lemma_coverage, lemma_selected_sorted_strict, lemma_sort_pairwise,
    lemma_sweep_bounds, resolve_cluster, same_schema, selected_of, selected_sorted, RankModel,
};
use crate::conflict::spec_conflicting;
use crate::range::{is_range_overlapping, merge_range, spec_overlaps, PosRange};
use crate::rank::RankStore;
use crate::record::{site_ref_range, views_of, Record, RecordV};
use crate::nums::bytes_eq;
use vstd::prelude::*;

verus! {

/// The engine's abstract state after some prefix of the input: the indices
/// emitted so far, the start of the pending window, and the merged site
/// range of the pending records.
pub struct EngState {
    pub emitted: Seq<int>,
    pub pstart: int,
    pub mlo: int,
    pub mhi: int,
}

/// The state before any record has been read.
pub open spec fn eng_init() -> EngState {
    EngState { emitted: seq![], pstart: 0, mlo: 0, mhi: 0 }
}

/// What a flushed pending window `[base, end)` emits: its sole record when
/// it holds one record, else the resolved cluster's surviving indices,
/// shifted to input positions.
pub open spec fn flush_emits(input: Seq<RecordV>, m: RankModel, base: int, end: int) -> Seq<int> {
    if end - base == 1 {
        seq![base]
    } else {
        selected_sorted(input.subrange(base, end), m).map_values(|x: int| x + base)
    }
}

/// One step of the state machine: what reading record `input[k]` does to
/// the state reached after the first `k` records. A record that shares the
/// previous record's chromosome and overlaps the merged pending range
/// joins the pending window; any other record flushes the window first.
pub open spec fn eng_step(input: Seq<RecordV>, m: RankModel, st: EngState, k: int) -> EngState {
    let r = input[k];
    if k == 0 {
        EngState { emitted: seq![], pstart: 0, mlo: r.site_lo(), mhi: r.site_hi() }
    } else if r.chrom == input[k - 1].chrom && spec_overlaps(
        r.site_lo(),
        r.site_hi(),
        st.mlo,
        st.mhi,
    ) {
        EngState {
            emitted: st.emitted,
            pstart: st.pstart,
            mlo: if st.mlo <= r.site_lo() {
                st.mlo
            } else {
                r.site_lo()
            },
            mhi: if st.mhi >= r.site_hi() {
                st.mhi
            } else {
                r.site_hi()
            },
        }
    } else {
        EngState {
            emitted: st.emitted + flush_emits(input, m, st.pstart, k),
            pstart: k,
            mlo: r.site_lo(),
            mhi: r.site_hi(),
        }
    }
}

/// The abstract state after the first `n` records of the input.
pub open spec fn eng_after(input: Seq<RecordV>, m: RankModel, n: int) -> EngState
    decreases n,
{
    if n <= 0 {
        eng_init()
    } else {
        eng_step(input, m, eng_after(input, m, n - 1), n - 1)
    }
}

/// Everything the engine emits for a whole input: the emissions of each
/// flushed window, then the final flush of whatever is pending at end of
/// stream.
pub open spec fn engine_output(input: Seq<RecordV>, m: RankModel) -> Seq<int> {
    let n = input.len() as int;
    if n == 0 {
        seq![]
    } else {
        let st = eng_after(input, m, n);
        st.emitted + flush_emits(input, m, st.pstart, n)
    }
}

/// The pending window is always a non-empty suffix of what has been read
/// (empty only before the first record).
pub proof fn lemma_eng_pstart(input: Seq<RecordV>, m: RankModel, n: int)
    requires
        0 <= n <= input.len(),
    ensures
        0 <= eng_after(input, m, n).pstart,
        eng_after(input, m, n).pstart <= n,
        n > 0 ==> eng_after(input, m, n).pstart < n,
    decreases n,
{
    if n > 0 {
        lemma_eng_pstart(input, m, n - 1);
    }
}

/// The engine's state after `n` records depends only on those records.
pub proof fn lemma_eng_prefix(a: Seq<RecordV>, b: Seq<RecordV>, m: RankModel, n: int)
    requires
        0 <= n <= a.len(),
        n <= b.len(),
        a.subrange(0, n) == b.subrange(0, n),
    ensures
        eng_after(a, m, n) == eng_after(b, m, n),
    decreases n,
{
    if n > 0 {
        assert forall|i: int| 0 <= i < n implies a[i] == #[trigger] b[i] by {
            assert(a.subrange(0, n)[i] == a[i]);
            assert(b.subrange(0, n)[i] == b[i]);
        }
        assert(a.subrange(0, n - 1) =~= b.subrange(0, n - 1));
        lemma_eng_prefix(a, b, m, n - 1);
        let st = eng_after(a, m, n - 1);
        lemma_eng_pstart(a, m, n - 1);
        if !(n - 1 == 0) && !(a[n - 1].chrom == a[n - 2].chrom && spec_overlaps(
            a[n - 1].site_lo(),
            a[n - 1].site_hi(),
            st.mlo,
            st.mhi,
        )) {
            assert(a.subrange(st.pstart, n - 1) =~= b.subrange(st.pstart, n - 1));
        }
    }
}

/// The streaming overlap resolver. Records are pushed one at a time in
/// file order; each push hands back which buffered records are settled and
/// which of them to emit. At end of stream, [`Engine::finish`] flushes
/// what is still pending.
pub struct Engine {
    store: RankStore,
    n_samples: usize,
    pending: Vec<Record>,
    merged: PosRange,
    hist: Ghost<Seq<RecordV>>,
}

impl Engine {
    /// Every record pushed so far, in order.
    pub closed spec fn history(self) -> Seq<RecordV> {
        self.hist@
    }

    /// The priority map the engine resolves against.
    pub closed spec fn rank_model(self) -> RankModel {
        self.store@
    }

    /// The number of samples every record must carry.
    pub closed spec fn sample_count(self) -> int {
        self.n_samples as int
    }

    /// The engine's records so far and its buffered state are consistent
    /// with the abstract state machine.
    pub closed spec fn wf(self) -> bool {
        let n = self.hist@.len() as int;
        let st = eng_after(self.hist@, self.store@, n);
        &&& self.store.inv()
        &&& all_wf(self.hist@)
        &&& forall|i: int|
            0 <= i < n ==> (#[trigger] self.hist@[i].gts.len()) == self.n_samples as int
        &&& views_of(self.pending@) == self.hist@.subrange(st.pstart, n)
        &&& self.pending@.len() == n - st.pstart
        &&& n > 0 ==> self.merged.start as int == st.mlo && self.merged.end as int == st.mhi
            && self.merged.wf()
    }

    /// A fresh engine over a rank store, for records of `n_samples`
    /// samples.
    pub fn new(store: RankStore, n_samples: usize) -> (r: Engine)
        requires
            store.inv(),
        ensures
            r.wf(),
            r.history() == Seq::<RecordV>::empty(),
            r.rank_model() == store@,
            r.sample_count() == n_samples as int,
    {
        let r = Engine {
            store,
            n_samples,
            pending: Vec::new(),
            merged: PosRange { start: 0, end: 0 },
            hist: Ghost(Seq::empty()),
        };
        proof {
            assert(views_of(r.pending@) =~= r.hist@.subrange(0, 0));
        }
        r
    }

    /// Feed the next record of the sorted stream.
    ///
    /// Returns `(settled, emit)`: the first `settled` records of the
    /// caller's buffer of unsettled records are now decided, and of those,
    /// exactly the positions in `emit` (strictly ascending, each at most
    /// once) are to be written out; the rest are suppressed. `settled` is
    /// positive only when this record broke the pending run; the record
    /// itself always stays buffered.
    pub fn push(&mut self, record: Record) -> (out: (usize, Vec<usize>))
        requires
            old(self).wf(),
            record@.wf(),
            record@.gts.len() == old(self).sample_count(),
        ensures
            final(self).wf(),
            final(self).history() == old(self).history().push(record@),
            final(self).rank_model() == old(self).rank_model(),
            final(self).sample_count() == old(self).sample_count(),
            ({
                let n = old(self).history().len() as int;
                let st0 = eng_after(old(self).history(), old(self).rank_model(), n);
                let st1 = eng_after(final(self).history(), final(self).rank_model(), n + 1);
                &&& out.0 as int == st1.pstart - st0.pstart
                &&& st1.emitted == st0.emitted + out.1@.map_values(
                    |u: usize| st0.pstart + u as int,
                )
                &&& forall|k: int| 0 <= k < out.1@.len() ==> (#[trigger] out.1@[k]) < out.0
                &&& forall|p: int, q: int| 0 <= p < q < out.1@.len() ==> out.1@[p] < out.1@[q]
            }),
    {
        let ghost hist0 = self.hist@;
        let ghost m = self.store@;
        let ghost n0 = hist0.len() as int;
        let ghost st0 = eng_after(hist0, m, n0);
        let ghost hist1 = hist0.push(record@);
        proof {
            lemma_eng_pstart(hist0, m, n0);
            assert(hist1.subrange(0, n0) =~= hist0);
            assert(hist0.subrange(0, n0) =~= hist0);
            lemma_eng_prefix(hist1, hist0, m, n0);
            assert(eng_after(hist1, m, n0) == st0);
            assert(hist1[n0] == record@);
        }
        let new_range = site_ref_range(&record);
        let mut settled: usize = 0;
        let mut emit: Vec<usize> = Vec::new();
        if self.pending.len() == 0 {
            self.merged = new_range;
            self.pending.push(record);
            proof {
                assert(n0 == 0);
                assert(eng_after(hist1, m, 1) == eng_step(hist1, m, st0, 0));
                assert(views_of(self.pending@).len() == 1);
                assert(views_of(self.pending@)[0] == self.pending@[0]@);
                assert(views_of(self.pending@) =~= hist1.subrange(0, 1));
            }
        } else {
            proof {
                assert(n0 > 0);
                assert(views_of(self.pending@)[self.pending@.len() - 1] == hist0[n0 - 1]);
                assert(self.pending@[self.pending@.len() - 1]@ == hist0[n0 - 1]);
            }
            let last = self.pending.len() - 1;
            let same_chrom = bytes_eq(
                self.pending[last].chrom.as_slice(),
                record.chrom.as_slice(),
            );
            let overlapping = is_range_overlapping(&self.merged, &new_range);
            proof {
                assert(same_chrom == (record@.chrom == hist0[n0 - 1].chrom));
                assert(overlapping == spec_overlaps(
                    record@.site_lo(),
                    record@.site_hi(),
                    st0.mlo,
                    st0.mhi,
                ));
            }
            if same_chrom && overlapping {
                self.merged = merge_range(&self.merged, &new_range);
                let ghost pre_pending = self.pending@;
                self.pending.push(record);
                proof {
                    assert(eng_after(hist1, m, n0 + 1) == eng_step(hist1, m, st0, n0));
                    assert(eng_after(hist1, m, n0 + 1).pstart == st0.pstart);
                    assert forall|i: int| 0 <= i < self.pending@.len() implies #[trigger] views_of(
                        self.pending@,
                    )[i] == hist1.subrange(st0.pstart, n0 + 1)[i] by {
                        assert(views_of(self.pending@)[i] == self.pending@[i]@);
                        if i < pre_pending.len() {
                            assert(self.pending@[i] == pre_pending[i]);
                            assert(views_of(pre_pending)[i] == pre_pending[i]@);
                            assert(views_of(pre_pending)[i] == hist0.subrange(st0.pstart, n0)[i]);
                            assert(hist1[st0.pstart + i] == hist0[st0.pstart + i]);
                        } else {
                            assert(self.pending@[i] == record);
                            assert(hist1[st0.pstart + i] == record@);
                        }
                    }
                    assert(views_of(self.pending@) =~= hist1.subrange(st0.pstart, n0 + 1));
                }
            } else {
                settled = self.pending.len();
                let ghost window = hist0.subrange(st0.pstart, n0);
                proof {
                    assert(window == views_of(self.pending@));
                    assert(hist1.subrange(st0.pstart, n0) =~= window);
                    assert forall|i: int| 0 <= i < window.len() implies (
                    #[trigger] window[i]).wf() && window[i].gts.len() == self.n_samples as int by {
                        assert(window[i] == hist0[st0.pstart + i]);
                    }
                    assert(all_wf(window));
                    assert(same_schema(window));
                }
                if settled == 1 {
                    emit.push(0);
                    proof {
                        assert(flush_emits(hist1, m, st0.pstart, n0) =~= seq![st0.pstart]);
                        assert(emit@.map_values(|u: usize| st0.pstart + u as int) =~= seq![
                            st0.pstart,
                        ]);
                    }
                } else {
                    emit = resolve_cluster(&self.pending, &self.store);
                    proof {
                        assert(views_of(self.pending@) == window);
                        assert(emit@.map_values(|u: usize| u as int) == selected_sorted(
                            window,
                            m,
                        ));
                        assert(flush_emits(hist1, m, st0.pstart, n0) == selected_sorted(
                            window,
                            m,
                        ).map_values(|x: int| x + st0.pstart));
                        assert(emit@.map_values(|u: usize| st0.pstart + u as int)
                            =~= selected_sorted(window, m).map_values(|x: int| x + st0.pstart));
                    }
                }
                self.pending.clear();
                self.pending.push(record);
                self.merged = new_range;
                proof {
                    assert(eng_after(hist1, m, n0 + 1) == eng_step(hist1, m, st0, n0));
                    assert(eng_after(hist1, m, n0 + 1).pstart == n0);
                    assert(eng_after(hist1, m, n0 + 1).emitted =~= st0.emitted + emit@.map_values(
                        |u: usize| st0.pstart + u as int,
                    ));
                    assert(views_of(self.pending@).len() == 1);
                    assert(views_of(self.pending@)[0] == self.pending@[0]@);
                    assert(views_of(self.pending@) =~= hist1.subrange(n0, n0 + 1));
                }
            }
        }
        self.hist = Ghost(hist1);
        proof {
            assert forall|i: int| 0 <= i < n0 + 1 implies (#[trigger] hist1[i]).wf() && hist1[i]
                .gts.len() == self.n_samples as int by {
                if i < n0 {
                    assert(hist1[i] == hist0[i]);
                }
            }
        }
        (settled, emit)
    }

    /// End of stream: flush whatever is still pending. The returned
    /// positions index the caller's remaining buffer, strictly ascending
    /// as in [`Engine::push`]; everything else in it is suppressed.
    pub fn finish(self) -> (emit: Vec<usize>)
        requires
            self.wf(),
        ensures
            ({
                let n = self.history().len() as int;
                let st = eng_after(self.history(), self.rank_model(), n);
                &&& engine_output(self.history(), self.rank_model()) == st.emitted
                    + emit@.map_values(|u: usize| st.pstart + u as int)
                &&& forall|k: int|
                    0 <= k < emit@.len() ==> (#[trigger] emit@[k]) as int + st.pstart < n
                &&& forall|p: int, q: int| 0 <= p < q < emit@.len() ==> emit@[p] < emit@[q]
            }),
    {
        let ghost hist0 = self.hist@;
        let ghost m = self.store@;
        let ghost n0 = hist0.len() as int;
        let ghost st = eng_after(hist0, m, n0);
        let mut emit: Vec<usize> = Vec::new();
        proof {
            lemma_eng_pstart(hist0, m, n0);
        }
        if self.pending.len() == 0 {
            proof {
                assert(n0 == 0);
                assert(engine_output(hist0, m) =~= st.emitted + emit@.map_values(
                    |u: usize| st.pstart + u as int,
                ));
            }
            return emit;
        }
        let ghost window = hist0.subrange(st.pstart, n0);
        proof {
            assert(window == views_of(self.pending@));
            assert forall|i: int| 0 <= i < window.len() implies (#[trigger] window[i]).wf()
                && window[i].gts.len() == self.n_samples as int by {
                assert(window[i] == hist0[st.pstart + i]);
            }
            assert(all_wf(window));
            assert(same_schema(window));
        }
        if self.pending.len() == 1 {
            emit.push(0);
            proof {
                assert(flush_emits(hist0, m, st.pstart, n0) =~= seq![st.pstart]);
                assert(emit@.map_values(|u: usize| st.pstart + u as int) =~= seq![st.pstart]);
            }
        } else {
            emit = resolve_cluster(&self.pending, &self.store);
            proof {
                assert(emit@.map_values(|u: usize| u as int) == selected_sorted(window, m));
                assert(flush_emits(hist0, m, st.pstart, n0) == selected_sorted(
                    window,
                    m,
                ).map_values(|x: int| x + st.pstart));
                assert(emit@.map_values(|u: usize| st.pstart + u as int) =~= selected_sorted(
                    window,
                    m,
                ).map_values(|x: int| x + st.pstart));
                assert forall|k: int|
                    0 <= k < emit@.len() implies (#[trigger] emit@[k]) as int + st.pstart
                    < n0 by {
                    assert(emit@[k] < self.pending@.len());
                }
            }
        }
        emit
    }
}

/// No two records of the sequence conflict with each other.
pub open spec fn pairwise_nonconflicting(cl: Seq<RecordV>) -> bool {
    forall|i: int, j: int|
        0 <= i < cl.len() && 0 <= j < cl.len() && i != j ==> !#[trigger] spec_conflicting(
            cl[i],
            cl[j],
        )
}

/// A flushed window emits positions inside the window, each at most once,
/// in strictly ascending order.
proof fn lemma_flush_props(input: Seq<RecordV>, m: RankModel, base: int, end: int)
    requires
        0 <= base < end <= input.len(),
    ensures
        forall|k: int|
            0 <= k < flush_emits(input, m, base, end).len() ==> base <= #[trigger] flush_emits(
                input,
                m,
                base,
                end,
            )[k] < end,
        forall|p: int, q: int|
            0 <= p < q < flush_emits(input, m, base, end).len() ==> flush_emits(
                input,
                m,
                base,
                end,
            )[p] < flush_emits(input, m, base, end)[q],
{
    let fe = flush_emits(input, m, base, end);
    if end - base == 1 {
    } else {
        let sub = input.subrange(base, end);
        let sel = selected_of(sub, m);
        lemma_sweep_bounds(sub, m, 0, Set::empty());
        lemma_sort_pairwise(sel);
        lemma_selected_sorted_strict(sub, m);
        assert(fe == sel.sort().map_values(|x: int| x + base));
        assert forall|k: int| 0 <= k < fe.len() implies base <= #[trigger] fe[k] < end by {
            assert(fe[k] == sel.sort()[k] + base);
            let x = sel.sort()[k];
            assert(sel.sort().contains(x));
            assert(sel.contains(x));
            let j = choose|j: int| 0 <= j < sel.len() && sel[j] == x;
            assert(0 <= sel[j] < sub.len());
        }
        assert forall|p: int, q: int| 0 <= p < q < fe.len() implies fe[p] < fe[q] by {
            assert(fe[p] == selected_sorted(sub, m)[p] + base);
            assert(fe[q] == selected_sorted(sub, m)[q] + base);
        }
    }
}

/// Emitted positions always precede the pending window and are emitted in
/// strictly ascending order: no input position is emitted twice.
proof fn lemma_eng_emitted_props(input: Seq<RecordV>, m: RankModel, n: int)
    requires
        0 <= n <= input.len(),
    ensures
        ({
            let st = eng_after(input, m, n);
            &&& forall|k: int| 0 <= k < st.emitted.len() ==> 0 <= #[trigger] st.emitted[k]
                < st.pstart
            &&& forall|p: int, q: int|
                0 <= p < q < st.emitted.len() ==> st.emitted[p] < st.emitted[q]
        }),
    decreases n,
{
    if n > 0 {
        lemma_eng_emitted_props(input, m, n - 1);
        lemma_eng_pstart(input, m, n - 1);
        let st = eng_after(input, m, n - 1);
        let st1 = eng_after(input, m, n);
        let r = input[n - 1];
        if n - 1 == 0 {
        } else if r.chrom == input[n - 2].chrom && spec_overlaps(
            r.site_lo(),
            r.site_hi(),
            st.mlo,
            st.mhi,
        ) {
        } else {
            lemma_flush_props(input, m, st.pstart, n - 1);
            let fe = flush_emits(input, m, st.pstart, n - 1);
            assert(st1.emitted == st.emitted + fe);
            assert forall|k: int| 0 <= k < st1.emitted.len() implies 0 <= #[trigger] st1.emitted[k]
                < st1.pstart by {
                if k < st.emitted.len() {
                    assert(st1.emitted[k] == st.emitted[k]);
                } else {
                    assert(st1.emitted[k] == fe[k - st.emitted.len()]);
                }
            }
            assert forall|p: int, q: int| 0 <= p < q < st1.emitted.len() implies st1.emitted[p]
                < st1.emitted[q] by {
                if q < st.emitted.len() {
                } else if p >= st.emitted.len() {
                    assert(st1.emitted[p] == fe[p - st.emitted.len()]);
                    assert(st1.emitted[q] == fe[q - st.emitted.len()]);
                } else {
                    assert(st1.emitted[p] == st.emitted[p]);
                    assert(st1.emitted[q] == fe[q - st.emitted.len()]);
                }
            }
        }
    }
}

/// Order preservation: the engine's output lists input positions in
/// strictly ascending order — surviving records keep the relative order
/// they had in the input, each emitted at most once — and every emitted
/// position is a real input position.
pub proof fn lemma_order_preserved(input: Seq<RecordV>, m: RankModel)
    ensures
        forall|p: int, q: int|
            0 <= p < q < engine_output(input, m).len() ==> #[trigger] engine_output(input, m)[p]
                < #[trigger] engine_output(input, m)[q],
        forall|k: int|
            0 <= k < engine_output(input, m).len() ==> 0 <= #[trigger] engine_output(input, m)[k]
                < input.len(),
{
    let n = input.len() as int;
    let out = engine_output(input, m);
    if n > 0 {
        lemma_eng_emitted_props(input, m, n);
        lemma_eng_pstart(input, m, n);
        let st = eng_after(input, m, n);
        lemma_flush_props(input, m, st.pstart, n);
        let fe = flush_emits(input, m, st.pstart, n);
        assert(out == st.emitted + fe);
        assert forall|k: int| 0 <= k < out.len() implies 0 <= #[trigger] out[k] < n by {
            if k < st.emitted.len() {
                assert(out[k] == st.emitted[k]);
            } else {
                assert(out[k] == fe[k - st.emitted.len()]);
            }
        }
        assert forall|p: int, q: int| 0 <= p < q < out.len() implies #[trigger] out[p]
            < #[trigger] out[q] by {
            if q < st.emitted.len() {
                assert(out[p] == st.emitted[p]);
                assert(out[q] == st.emitted[q]);
            } else if p >= st.emitted.len() {
                assert(out[p] == fe[p - st.emitted.len()]);
                assert(out[q] == fe[q - st.emitted.len()]);
            } else {
                assert(out[p] == st.emitted[p]);
                assert(out[q] == fe[q - st.emitted.len()]);
            }
        }
    }
}

proof fn lemma_scan_best_no_conf(
    cl: Seq<RecordV>,
    m: RankModel,
    claimed: Set<int>,
    a: int,
    j: int,
    bi: int,
)
    requires
        a < j,
        forall|x: int|
            0 <= x < cl.len() && x != a ==> !#[trigger] spec_conflicting(cl[a], cl[x]),
    ensures
        crate::cluster::scan_best(cl, m, claimed, a, j, bi) == bi,
    decreases cl.len() - j,
{
    if 0 <= j < cl.len() {
        lemma_scan_best_no_conf(cl, m, claimed, a, j + 1, bi);
    }
}

proof fn lemma_sweep_identity(cl: Seq<RecordV>, m: RankModel, i: int)
    requires
        pairwise_nonconflicting(cl),
        0 <= i,
    ensures
        crate::cluster::sweep(cl, m, i, Set::empty()).len() == if i < cl.len() {
            cl.len() - i
        } else {
            0
        },
        forall|k: int|
            0 <= k < crate::cluster::sweep(cl, m, i, Set::empty()).len()
                ==> #[trigger] crate::cluster::sweep(cl, m, i, Set::empty())[k] == i + k,
    decreases cl.len() - i,
{
    if i < cl.len() {
        assert(!Set::<int>::empty().contains(i));
        lemma_scan_best_no_conf(cl, m, Set::empty(), i, i + 1, i);
        assert(crate::cluster::survivor_of(cl, m, Set::empty(), i) == i);
        assert(Set::<int>::empty().union(crate::cluster::conflict_set(cl, Set::empty(), i))
            =~= Set::<int>::empty()) by {
            assert(crate::cluster::conflict_set(cl, Set::empty(), i) =~= Set::<int>::empty());
        }
        lemma_sweep_identity(cl, m, i + 1);
        let rest = crate::cluster::sweep(cl, m, i + 1, Set::<int>::empty());
        assert(crate::cluster::sweep(cl, m, i, Set::empty()) == seq![i] + rest);
    }
}

proof fn lemma_selected_sorted_identity(cl: Seq<RecordV>, m: RankModel)
    requires
        pairwise_nonconflicting(cl),
    ensures
        selected_sorted(cl, m) == Seq::new(cl.len(), |k: int| k),
{
    lemma_sweep_identity(cl, m, 0);
    let sel = selected_of(cl, m);
    let ident = Seq::new(cl.len(), |k: int| k);
    assert(sel =~= ident);
    lemma_sort_pairwise(sel);
    let leq = |x: int, y: int| x <= y;
    assert(vstd::relations::sorted_by(sel, leq));
    assert(vstd::relations::sorted_by(sel.sort(), leq)) by {
        sel.lemma_sort_ensures();
    }
    assert(vstd::relations::total_ordering(leq)) by {
        assert(vstd::relations::reflexive(leq));
        assert(vstd::relations::transitive(leq));
        assert(vstd::relations::antisymmetric(leq));
        assert(vstd::relations::connected(leq));
    }
    vstd::seq_lib::lemma_sorted_unique(sel, sel.sort(), leq);
    assert(selected_sorted(cl, m) == sel);
}

proof fn lemma_flush_identity(input: Seq<RecordV>, m: RankModel, base: int, end: int)
    requires
        pairwise_nonconflicting(input),
        0 <= base < end <= input.len(),
    ensures
        flush_emits(input, m, base, end) == Seq::new((end - base) as nat, |k: int| base + k),
{
    let fe = flush_emits(input, m, base, end);
    let ident = Seq::new((end - base) as nat, |k: int| base + k);
    if end - base == 1 {
        assert(fe =~= ident);
    } else {
        let sub = input.subrange(base, end);
        assert(pairwise_nonconflicting(sub)) by {
            assert forall|i: int, j: int|
                0 <= i < sub.len() && 0 <= j < sub.len() && i != j implies !#[trigger]
            spec_conflicting(sub[i], sub[j]) by {
                assert(sub[i] == input[base + i]);
                assert(sub[j] == input[base + j]);
            }
        }
        lemma_selected_sorted_identity(sub, m);
        assert(fe =~= ident);
    }
}

proof fn lemma_eng_no_conf(input: Seq<RecordV>, m: RankModel, n: int)
    requires
        pairwise_nonconflicting(input),
        0 <= n <= input.len(),
    ensures
        eng_after(input, m, n).emitted == Seq::new(
            eng_after(input, m, n).pstart as nat,
            |k: int| k,
        ),
    decreases n,
{
    if n > 0 {
        lemma_eng_no_conf(input, m, n - 1);
        lemma_eng_pstart(input, m, n - 1);
        let st = eng_after(input, m, n - 1);
        let st1 = eng_after(input, m, n);
        let r = input[n - 1];
        if n - 1 == 0 {
            assert(st1.emitted =~= Seq::new(0nat, |k: int| k));
        } else if r.chrom == input[n - 2].chrom && spec_overlaps(
            r.site_lo(),
            r.site_hi(),
            st.mlo,
            st.mhi,
        ) {
        } else {
            lemma_flush_identity(input, m, st.pstart, n - 1);
            assert(st1.emitted =~= Seq::new(st1.pstart as nat, |k: int| k));
        }
    } else {
        assert(eng_after(input, m, 0).emitted =~= Seq::new(0nat, |k: int| k));
    }
}

/// A stream in which no two records conflict passes through unchanged:
/// the engine emits every record exactly once, in input order. It follows
/// that re-running the engine on its own output is a no-op whenever that
/// output is free of pairwise conflicts; an output can still hold a
/// conflicting pair when a conflict chain is intransitive, since groups
/// are formed against anchors only.
pub proof fn lemma_conflict_free_no_op(input: Seq<RecordV>, m: RankModel)
    requires
        pairwise_nonconflicting(input),
    ensures
        engine_output(input, m) == Seq::new(input.len(), |k: int| k),
{
    let n = input.len() as int;
    if n == 0 {
        assert(engine_output(input, m) =~= Seq::new(0nat, |k: int| k));
    } else {
        lemma_eng_no_conf(input, m, n);
        lemma_eng_pstart(input, m, n);
        let st = eng_after(input, m, n);
        lemma_flush_identity(input, m, st.pstart, n);
        assert(engine_output(input, m) =~= Seq::new(n as nat, |k: int| k));
    }
}

/// How an input record is accounted for at stream level, given everything
/// the engine emitted: it is emitted itself, or it lies in a flushed
/// window `[b, e)` within which the resolver covered it — excluded while
/// conflicting, directly or through its group's anchor, with a kept
/// record of rank at most its own.
pub open spec fn engine_covered(input: Seq<RecordV>, m: RankModel, out: Seq<int>, x: int) -> bool {
    ||| out.contains(x)
    ||| exists|b: int, e: int|
        0 <= b <= x < e <= input.len() && #[trigger] covered(
            input.subrange(b, e),
            m,
            selected_sorted(input.subrange(b, e), m),
            x - b,
        )
}

proof fn lemma_engine_covered_monotone(
    input: Seq<RecordV>,
    m: RankModel,
    out1: Seq<int>,
    out2: Seq<int>,
    x: int,
)
    requires
        engine_covered(input, m, out1, x),
        forall|v: int| out1.contains(v) ==> out2.contains(v),
    ensures
        engine_covered(input, m, out2, x),
{
    if out1.contains(x) {
        assert(out2.contains(x));
    }
}

proof fn lemma_covered_contains_equiv(
    cl: Seq<RecordV>,
    m: RankModel,
    sel1: Seq<int>,
    sel2: Seq<int>,
    x: int,
)
    requires
        covered(cl, m, sel1, x),
        forall|v: int| sel1.contains(v) == #[trigger] sel2.contains(v),
    ensures
        covered(cl, m, sel2, x),
{
    if sel1.contains(x) {
        assert(sel2.contains(x));
    } else if exists|s: int|
        #[trigger] sel1.contains(s) && crate::rank::eff_rank(m, cl[s]) <= crate::rank::eff_rank(
            m,
            cl[x],
        ) && spec_conflicting(cl[x], cl[s]) {
        let s = choose|s: int|
            #[trigger] sel1.contains(s) && crate::rank::eff_rank(m, cl[s])
                <= crate::rank::eff_rank(m, cl[x]) && spec_conflicting(cl[x], cl[s]);
        assert(sel2.contains(s));
    } else {
        let (s, a) = choose|s: int, a: int|
            #![trigger sel1.contains(s), spec_conflicting(cl[a], cl[s])]
            sel1.contains(s) && 0 <= a < cl.len() && crate::rank::eff_rank(m, cl[s])
                <= crate::rank::eff_rank(m, cl[x]) && spec_conflicting(cl[a], cl[x])
                && spec_conflicting(cl[a], cl[s]);
        assert(sel2.contains(s));
        assert(covered(cl, m, sel2, x));
    }
}

/// A record of a flushed window is either among the window's emissions or
/// covered by the window's resolution.
proof fn lemma_flush_covers(input: Seq<RecordV>, m: RankModel, base: int, end: int, x: int, out: Seq<int>)
    requires
        0 <= base <= x < end <= input.len(),
        forall|v: int| flush_emits(input, m, base, end).contains(v) ==> #[trigger] out.contains(v),
    ensures
        engine_covered(input, m, out, x),
{
    let fe = flush_emits(input, m, base, end);
    if end - base == 1 {
        assert(fe[0] == base);
        assert(fe.contains(base));
        assert(out.contains(x));
    } else {
        let sub = input.subrange(base, end);
        lemma_coverage(sub, m, x - base);
        lemma_sort_pairwise(selected_of(sub, m));
        lemma_covered_contains_equiv(
            sub,
            m,
            selected_of(sub, m),
            selected_sorted(sub, m),
            x - base,
        );
        assert(covered(sub, m, selected_sorted(sub, m), x - base));
        assert(engine_covered(input, m, out, x));
    }
}

proof fn lemma_eng_coverage(input: Seq<RecordV>, m: RankModel, n: int, x: int)
    requires
        0 <= n <= input.len(),
        0 <= x < eng_after(input, m, n).pstart,
    ensures
        engine_covered(input, m, eng_after(input, m, n).emitted, x),
    decreases n,
{
    if n > 0 {
        lemma_eng_pstart(input, m, n - 1);
        let st = eng_after(input, m, n - 1);
        let st1 = eng_after(input, m, n);
        let r = input[n - 1];
        if n - 1 == 0 {
            assert(false);
        } else if r.chrom == input[n - 2].chrom && spec_overlaps(
            r.site_lo(),
            r.site_hi(),
            st.mlo,
            st.mhi,
        ) {
            lemma_eng_coverage(input, m, n - 1, x);
        } else {
            let fe = flush_emits(input, m, st.pstart, n - 1);
            assert(st1.emitted == st.emitted + fe);
            assert forall|v: int| st.emitted.contains(v) implies st1.emitted.contains(v) by {
                let k = choose|k: int| 0 <= k < st.emitted.len() && st.emitted[k] == v;
                assert(st1.emitted[k] == v);
            }
            assert forall|v: int| fe.contains(v) implies st1.emitted.contains(v) by {
                let k = choose|k: int| 0 <= k < fe.len() && fe[k] == v;
                assert(st1.emitted[st.emitted.len() + k] == v);
            }
            if x < st.pstart {
                lemma_eng_coverage(input, m, n - 1, x);
                lemma_engine_covered_monotone(input, m, st.emitted, st1.emitted, x);
            } else {
                lemma_flush_covers(input, m, st.pstart, n - 1, x, st1.emitted);
            }
        }
    }
}

/// Coverage, over the whole stream: every input record is either emitted,
/// or was excluded in its flushed window while conflicting — directly or
/// through its group's anchor — with a kept record whose rank is at most
/// its own.
pub proof fn lemma_engine_coverage(input: Seq<RecordV>, m: RankModel, x: int)
    requires
        0 <= x < input.len(),
    ensures
        engine_covered(input, m, engine_output(input, m), x),
{
    let n = input.len() as int;
    let st = eng_after(input, m, n);
    let out = engine_output(input, m);
    lemma_eng_pstart(input, m, n);
    let fe = flush_emits(input, m, st.pstart, n);
    assert(out == st.emitted + fe);
    assert forall|v: int| st.emitted.contains(v) implies out.contains(v) by {
        let k = choose|k: int| 0 <= k < st.emitted.len() && st.emitted[k] == v;
        assert(out[k] == v);
    }
    assert forall|v: int| fe.contains(v) implies out.contains(v) by {
        let k = choose|k: int| 0 <= k < fe.len() && fe[k] == v;
        assert(out[st.emitted.len() + k] == v);
    }
    if x < st.pstart {
        lemma_eng_coverage(input, m, n, x);
        lemma_engine_covered_monotone(input, m, st.emitted, out, x);
    } else {
        lemma_flush_covers(input, m, st.pstart, n, x, out);
    }
}

} // verus!
