use forgers::genotype::Genotype;
use forgers::range::{is_range_overlapping, merge_range, PosRange};
use forgers::record::{site_ref_range, variant_ref_range, Record};

fn rec(chrom: &str, pos: u64, ref_len: usize) -> Record {
    Record { chrom: chrom.as_bytes().to_vec(), pos, ref_len, gts: Vec::<Genotype>::new() }
}

#[test]
fn overlap_is_inclusive() {
    let a = PosRange { start: 10, end: 20 };
    let b = PosRange { start: 20, end: 30 };
    assert!(is_range_overlapping(&a, &b));
    assert!(is_range_overlapping(&b, &a));
    let c = PosRange { start: 21, end: 30 };
    assert!(!is_range_overlapping(&a, &c));
    assert!(!is_range_overlapping(&c, &a));
}

#[test]
fn containment_overlaps() {
    let outer = PosRange { start: 5, end: 50 };
    let inner = PosRange { start: 10, end: 12 };
    assert!(is_range_overlapping(&outer, &inner));
    assert!(is_range_overlapping(&inner, &outer));
}

#[test]
fn merge_takes_the_hull() {
    let a = PosRange { start: 10, end: 20 };
    let b = PosRange { start: 15, end: 30 };
    let m = merge_range(&a, &b);
    assert_eq!(m, PosRange { start: 10, end: 30 });
    let m2 = merge_range(&b, &a);
    assert_eq!(m2, PosRange { start: 10, end: 30 });
}

#[test]
fn site_range_spans_the_reference() {
    // A four-base reference starting at 14370 spans 14370..=14373.
    let r = rec("20", 14370, 4);
    let site = site_ref_range(&r);
    assert_eq!(site, PosRange { start: 14370, end: 14373 });
}

#[test]
fn variant_range_skips_the_anchor_base() {
    // The anchor base of a normalized indel is shared by all alleles, so
    // only 14371..=14373 is variant.
    let r = rec("20", 14370, 4);
    let var = variant_ref_range(&r);
    assert_eq!(var, PosRange { start: 14371, end: 14373 });
}

#[test]
fn variant_range_of_a_snv_is_its_site() {
    let r = rec("20", 14370, 1);
    assert_eq!(variant_ref_range(&r), PosRange { start: 14370, end: 14370 });
}
