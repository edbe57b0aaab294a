use forgers::cluster::{rank_or_worst, resolve_cluster};
use forgers::conflict::{are_conflicting, are_coupled};
use forgers::genotype::Genotype;
use forgers::rank::{load_rank, RankStore, WORST_RANK};
use forgers::record::Record;

fn rec(chrom: &str, pos: u64, ref_len: usize, gts: Vec<Genotype>) -> Record {
    Record { chrom: chrom.as_bytes().to_vec(), pos, ref_len, gts }
}

fn ph(bits: &[bool]) -> Genotype {
    Genotype::Phased(bits.to_vec())
}

fn store_of(items: &[&str]) -> RankStore {
    let toks: Vec<Vec<u8>> = items.iter().map(|s| s.as_bytes().to_vec()).collect();
    let n = toks.len();
    load_rank(&toks, n).unwrap().0
}

#[test]
fn pass_through_of_compatible_overlap() {
    // An indel and an SNV at one position whose phased genotypes never put
    // both alternates on one haplotype copy: overlapping, not conflicting,
    // both retained.
    let a = rec("20", 100, 4, vec![ph(&[false, false]), ph(&[true, false])]);
    let b = rec("20", 100, 1, vec![ph(&[true, false]), ph(&[false, false])]);
    assert!(!are_conflicting(&a, &b));
    let cluster = vec![a, b];
    let selected = resolve_cluster(&cluster, &RankStore::new());
    assert_eq!(selected, vec![0, 1]);
}

#[test]
fn conflict_keeps_the_better_rank() {
    // Two single-base variants altering position 200, coupled on the first
    // haplotype of the only sample. The first record's site (199) holds
    // rank 5, the second's (200) rank 2: only the rank-2 record survives.
    let a = rec("20", 199, 2, vec![ph(&[true, false])]);
    let b = rec("20", 200, 1, vec![ph(&[true, false])]);
    assert!(are_conflicting(&a, &b));
    let store = store_of(&["20,300", "20,200", "20,301", "20,302", "20,199"]);
    let cluster = vec![a, b];
    assert_eq!(rank_or_worst(&cluster[0], &store), 5);
    assert_eq!(rank_or_worst(&cluster[1], &store), 2);
    let selected = resolve_cluster(&cluster, &store);
    assert_eq!(selected, vec![1]);
}

#[test]
fn equal_ranks_keep_the_anchor() {
    // Both records alter the same site, so both carry the same rank; the
    // scan only moves the survivor on a strictly better rank, so the
    // anchor stays.
    let a = rec("20", 200, 1, vec![ph(&[true, false])]);
    let b = rec("20", 200, 1, vec![ph(&[true, false])]);
    let store = store_of(&["20,200"]);
    let selected = resolve_cluster(&vec![a, b], &store);
    assert_eq!(selected, vec![0]);
}

#[test]
fn unranked_records_use_the_worst_rank() {
    let a = rec("20", 200, 1, vec![ph(&[true])]);
    let store = RankStore::new();
    assert_eq!(rank_or_worst(&a, &store), WORST_RANK);
    // A ranked record beats an unranked one it conflicts with, wherever it
    // stands in the cluster.
    let b = rec("20", 200, 1, vec![ph(&[true])]);
    let store2 = store_of(&["20,200"]);
    let unranked = rec("20", 199, 2, vec![ph(&[true])]);
    let selected = resolve_cluster(&vec![unranked, b], &store2);
    assert_eq!(selected, vec![1]);
    let a2 = rec("20", 199, 2, vec![ph(&[true])]);
    let store3 = store_of(&["20,199"]);
    let b2 = rec("20", 200, 1, vec![ph(&[true])]);
    assert_eq!(resolve_cluster(&vec![a2, b2], &store3), vec![0]);
}

#[test]
fn missing_genotype_falls_back_to_heterozygosity() {
    // Sample X has a missing call for the first record and a heterozygous
    // unphased call for the second: coupled by the fallback, hence
    // conflicting, whatever the other samples say.
    let a = rec("20", 300, 1, vec![Genotype::Missing, ph(&[false, false])]);
    let b = rec(
        "20",
        300,
        1,
        vec![Genotype::Unphased(vec![false, true]), ph(&[false, false])],
    );
    assert!(are_coupled(&a, &b));
    assert!(are_conflicting(&a, &b));
    let selected = resolve_cluster(&vec![a, b], &RankStore::new());
    assert_eq!(selected, vec![0]);
}

#[test]
fn groups_are_formed_against_the_anchor_only() {
    // A conflict chain: 0 conflicts with 1, 1 conflicts with 2, but 0 and
    // 2 do not conflict. The anchor 0 claims only 1; record 2 then anchors
    // its own group. The survivors can still conflict with each other.
    let r0 = rec("20", 100, 1, vec![ph(&[true, false]), ph(&[false, false])]);
    let r1 = rec("20", 100, 1, vec![ph(&[true, true]), ph(&[false, true])]);
    let r2 = rec("20", 100, 1, vec![ph(&[false, false]), ph(&[false, true])]);
    assert!(are_conflicting(&r0, &r1));
    assert!(are_conflicting(&r1, &r2));
    assert!(!are_conflicting(&r0, &r2));
    let selected = resolve_cluster(&vec![r0, r1, r2], &RankStore::new());
    assert_eq!(selected, vec![0, 2]);
}

#[test]
fn a_claimed_record_belongs_to_one_group_only() {
    // Record 2 conflicts with records 0 and 1, which do not conflict with
    // each other, and holds the best rank. The anchor 0 claims record 2,
    // which survives that group; record 1 then anchors a group of its own
    // — its only conflict partner is already claimed and is not
    // re-examined — and survives it. No record is ever emitted twice.
    let store = store_of(&["20,100", "20,98", "20,99"]);
    let cluster = vec![
        rec("20", 98, 3, vec![ph(&[true, false]), ph(&[false, false])]),
        rec("20", 99, 2, vec![ph(&[false, false]), ph(&[false, true])]),
        rec("20", 100, 1, vec![ph(&[true, false]), ph(&[false, true])]),
    ];
    assert!(are_conflicting(&cluster[0], &cluster[2]));
    assert!(are_conflicting(&cluster[1], &cluster[2]));
    assert!(!are_conflicting(&cluster[0], &cluster[1]));
    let selected = resolve_cluster(&cluster, &store);
    assert_eq!(selected, vec![1, 2]);
}
