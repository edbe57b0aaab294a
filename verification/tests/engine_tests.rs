use forgers::engine::Engine;
use forgers::genotype::Genotype;
use forgers::rank::{load_rank, RankStore};
use forgers::record::Record;

fn rec(chrom: &str, pos: u64, ref_len: usize, gts: Vec<Genotype>) -> Record {
    Record { chrom: chrom.as_bytes().to_vec(), pos, ref_len, gts }
}

fn ph(bits: &[bool]) -> Genotype {
    Genotype::Phased(bits.to_vec())
}

fn store_of(items: &[&str]) -> RankStore {
    let toks: Vec<Vec<u8>> = items.iter().map(|s| s.as_bytes().to_vec()).collect();
    let n = toks.len();
    load_rank(&toks, n).unwrap().0
}

/// Drive the engine over a whole stream, as the surrounding program
/// would, and collect the input positions it emits, in order.
fn run(records: Vec<Record>, store: RankStore, n_samples: usize) -> Vec<usize> {
    let mut engine = Engine::new(store, n_samples);
    let mut output: Vec<usize> = Vec::new();
    let mut base: usize = 0;
    for r in records {
        assert_eq!(r.gts.len(), n_samples);
        let (settled, emit) = engine.push(r);
        for e in emit {
            assert!(e < settled);
            output.push(base + e);
        }
        base += settled;
    }
    for e in engine.finish() {
        output.push(base + e);
    }
    output
}

#[test]
fn lone_records_pass_through() {
    let records = vec![
        rec("1", 100, 1, vec![ph(&[true, false])]),
        rec("1", 200, 1, vec![ph(&[true, false])]),
        rec("1", 300, 1, vec![ph(&[true, false])]),
    ];
    assert_eq!(run(records, RankStore::new(), 1), vec![0, 1, 2]);
}

#[test]
fn empty_stream_emits_nothing() {
    assert_eq!(run(Vec::new(), RankStore::new(), 1), Vec::<usize>::new());
}

#[test]
fn single_record_is_flushed_at_end_of_stream() {
    let records = vec![rec("1", 100, 1, vec![ph(&[true])])];
    assert_eq!(run(records, RankStore::new(), 1), vec![0]);
}

#[test]
fn compatible_overlap_passes_through() {
    // The pass-through pair: both overlap at one site yet no sample puts
    // both alternates on one haplotype; both are retained.
    let records = vec![
        rec("20", 100, 4, vec![ph(&[false, false]), ph(&[true, false])]),
        rec("20", 100, 1, vec![ph(&[true, false]), ph(&[false, false])]),
    ];
    assert_eq!(run(records, RankStore::new(), 2), vec![0, 1]);
}

#[test]
fn conflicting_overlap_keeps_the_better_rank() {
    let records = vec![
        rec("20", 199, 2, vec![ph(&[true, false])]),
        rec("20", 200, 1, vec![ph(&[true, false])]),
    ];
    let store = store_of(&["20,300", "20,200", "20,301", "20,302", "20,199"]);
    assert_eq!(run(records, store, 1), vec![1]);
}

#[test]
fn chromosome_change_breaks_a_cluster() {
    // Identical positions on different chromosomes never cluster.
    let records = vec![
        rec("1", 100, 1, vec![ph(&[true])]),
        rec("2", 100, 1, vec![ph(&[true])]),
    ];
    assert_eq!(run(records, RankStore::new(), 1), vec![0, 1]);
}

#[test]
fn cluster_pending_at_end_of_stream_is_resolved() {
    // The stream ends while a conflicting cluster is still pending: the
    // final flush must resolve it, not drop it.
    let records = vec![
        rec("20", 199, 2, vec![ph(&[true])]),
        rec("20", 200, 1, vec![ph(&[true])]),
    ];
    let store = store_of(&["20,200"]);
    assert_eq!(run(records, store, 1), vec![1]);
}

#[test]
fn cluster_grows_through_the_merged_range() {
    // The third record overlaps the merged range of the first two through
    // the long first record, though not the second record itself.
    let records = vec![
        rec("20", 100, 10, vec![ph(&[true])]),
        rec("20", 101, 1, vec![ph(&[true])]),
        rec("20", 105, 1, vec![ph(&[true])]),
        rec("20", 300, 1, vec![ph(&[true])]),
    ];
    let store = store_of(&["20,101"]);
    // All of the first three conflict with the anchor; the ranked record
    // survives, and the isolated record passes through.
    assert_eq!(run(records, store, 1), vec![1, 3]);
}

#[test]
fn mixed_stream_keeps_input_order() {
    let records = vec![
        rec("1", 10, 1, vec![ph(&[true, false]), ph(&[false, false])]),
        rec("1", 50, 4, vec![ph(&[false, false]), ph(&[true, false])]),
        rec("1", 50, 1, vec![ph(&[true, false]), ph(&[false, false])]),
        rec("1", 90, 1, vec![ph(&[false, true]), ph(&[false, false])]),
        rec("2", 90, 1, vec![ph(&[true, true]), ph(&[false, false])]),
    ];
    let out = run(records, RankStore::new(), 2);
    let mut sorted = out.clone();
    sorted.sort();
    assert_eq!(out, sorted);
}

#[test]
fn rerun_is_not_identity_after_an_intransitive_chain() {
    // The first record conflicts with the second, the second with the
    // third, but the first and third do not conflict. The anchor claims
    // only the second, which survives that group on rank, and the third
    // passes through alone — so the output still holds a conflicting
    // pair. Resolution against anchors only is not idempotent on such
    // chains: a second run removes one more record.
    let make = || {
        vec![
            rec("20", 99, 2, vec![ph(&[true, false]), ph(&[false, false])]),
            rec("20", 100, 1, vec![ph(&[true, false]), ph(&[false, true])]),
            rec("20", 100, 1, vec![ph(&[false, false]), ph(&[false, true])]),
        ]
    };
    let first = run(make(), store_of(&["20,100", "20,98"]), 2);
    assert_eq!(first, vec![1, 2]);
    let survivors: Vec<Record> = make()
        .into_iter()
        .enumerate()
        .filter(|(i, _)| first.contains(i))
        .map(|(_, r)| r)
        .collect();
    let second = run(survivors, store_of(&["20,100", "20,98"]), 2);
    assert_eq!(second, vec![0]);
}

#[test]
fn rerun_on_conflict_free_output_is_identity() {
    // Resolve a stream once, then feed the surviving records through a
    // second engine: nothing further is removed and order is kept.
    let make = || {
        vec![
            rec("20", 199, 2, vec![ph(&[true, false])]),
            rec("20", 200, 1, vec![ph(&[true, false])]),
            rec("20", 500, 1, vec![ph(&[false, true])]),
            rec("21", 500, 1, vec![ph(&[true, false])]),
        ]
    };
    let store = store_of(&["20,200"]);
    let first = run(make(), store, 1);
    assert_eq!(first, vec![1, 2, 3]);
    let survivors: Vec<Record> = make()
        .into_iter()
        .enumerate()
        .filter(|(i, _)| first.contains(i))
        .map(|(_, r)| r)
        .collect();
    let store2 = store_of(&["20,200"]);
    let second = run(survivors, store2, 1);
    assert_eq!(second, vec![0, 1, 2]);
}
