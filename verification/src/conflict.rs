//! The conflict test: can two overlapping records coexist in any sample?

use crate::genotype::{gt_coupled, lemma_coupled_sym, spec_coupled};
use crate::range::{is_range_overlapping, spec_overlaps};
use crate::record::{variant_ref_range, Record, RecordV};
use vstd::prelude::*;

verus! {

/// Some sample couples the two records: its genotypes allow both variants
/// on one haplotype copy. Samples are matched by their position in the
/// header's sample order.
pub open spec fn spec_coupled_records(a: RecordV, b: RecordV) -> bool {
    exists|s: int|
        0 <= s < a.gts.len() && s < b.gts.len() && #[trigger] spec_coupled(a.gts[s], b.gts[s])
}

/// Two records conflict when their variant ranges overlap and some sample
/// couples them.
pub open spec fn spec_conflicting(a: RecordV, b: RecordV) -> bool {
    spec_overlaps(a.var_lo(), a.site_hi(), b.var_lo(), b.site_hi()) && spec_coupled_records(a, b)
}

/// The conflict test does not depend on the order of the two records.
pub proof fn lemma_conflicting_sym(a: RecordV, b: RecordV)
    ensures
        spec_conflicting(a, b) == spec_conflicting(b, a),
{
    assert(spec_coupled_records(a, b) == spec_coupled_records(b, a)) by {
        if spec_coupled_records(a, b) {
            let s = choose|s: int|
                0 <= s < a.gts.len() && s < b.gts.len() && #[trigger] spec_coupled(
                    a.gts[s],
                    b.gts[s],
                );
            lemma_coupled_sym(a.gts[s], b.gts[s]);
            assert(spec_coupled(b.gts[s], a.gts[s]));
        }
        if spec_coupled_records(b, a) {
            let s = choose|s: int|
                0 <= s < b.gts.len() && s < a.gts.len() && #[trigger] spec_coupled(
                    b.gts[s],
                    a.gts[s],
                );
            lemma_coupled_sym(b.gts[s], a.gts[s]);
            assert(spec_coupled(a.gts[s], b.gts[s]));
        }
    }
}

/// Check whether two records are coupled in at least one sample of the
/// cohort. Both records must carry the same number of samples: comparing
/// records from different header schemas is a precondition violation that
/// the caller must rule out.
pub fn are_coupled(record1: &Record, record2: &Record) -> (b: bool)
    requires
        record1@.gts.len() == record2@.gts.len(),
    ensures
        b == spec_coupled_records(record1@, record2@),
{
    let n = record1.gts.len();
    let mut s: usize = 0;
    while s < n
        invariant
            0 <= s <= n,
            n == record1@.gts.len(),
            n == record2@.gts.len(),
            forall|j: int|
                0 <= j < s ==> !(#[trigger] spec_coupled(record1@.gts[j], record2@.gts[j])),
        decreases n - s,
    {
        if gt_coupled(&record1.gts[s], &record2.gts[s]) {
            proof {
                assert(record1@.gts[s as int] == record1.gts@[s as int]@);
                assert(spec_coupled(record1@.gts[s as int], record2@.gts[s as int]));
            }
            return true;
        }
        s = s + 1;
    }
    false
}

/// Check whether two records are conflicting: their variant ranges overlap
/// and at least one sample couples them.
pub fn are_conflicting(first: &Record, second: &Record) -> (b: bool)
    requires
        first@.wf(),
        second@.wf(),
        first@.gts.len() == second@.gts.len(),
    ensures
        b == spec_conflicting(first@, second@),
{
    let first_range = variant_ref_range(first);
    let second_range = variant_ref_range(second);
    is_range_overlapping(&first_range, &second_range) && are_coupled(first, second)
}

} // verus!
