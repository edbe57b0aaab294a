use forgers::genotype::{genotype_of, gt_coupled, is_ref_hom, parse_genotype, Genotype};

#[test]
fn parses_phased_genotype() {
    let g = parse_genotype(b"0|1");
    assert!(matches!(g, Genotype::Phased(ref v) if *v == vec![false, true]));
}

#[test]
fn parses_unphased_genotype() {
    let g = parse_genotype(b"0/1");
    assert!(matches!(g, Genotype::Unphased(ref v) if *v == vec![false, true]));
}

#[test]
fn parses_triploid_phased_genotype() {
    let g = parse_genotype(b"1|0|2");
    assert!(matches!(g, Genotype::Phased(ref v) if *v == vec![true, false, true]));
}

#[test]
fn dot_is_missing() {
    assert!(matches!(parse_genotype(b"."), Genotype::Missing));
}

#[test]
fn dot_slash_dot_is_missing() {
    assert!(matches!(parse_genotype(b"./."), Genotype::Missing));
}

#[test]
fn partly_missing_genotype_is_missing() {
    assert!(matches!(parse_genotype(b"0/."), Genotype::Missing));
}

#[test]
fn empty_value_is_missing() {
    assert!(matches!(parse_genotype(b""), Genotype::Missing));
}

#[test]
fn garbage_value_is_missing() {
    assert!(matches!(parse_genotype(b"a|b"), Genotype::Missing));
}

#[test]
fn mixed_separators_count_as_unphased() {
    let g = parse_genotype(b"0/1|1");
    assert!(matches!(g, Genotype::Unphased(ref v) if *v == vec![false, true, true]));
}

#[test]
fn absent_genotype_field_is_missing() {
    assert!(matches!(genotype_of(None), Genotype::Missing));
    let raw = b"1|1".to_vec();
    assert!(matches!(genotype_of(Some(&raw)), Genotype::Phased(_)));
}

#[test]
fn ref_hom_of_all_reference_bits() {
    assert_eq!(is_ref_hom(&Genotype::Phased(vec![false, false])), Some(true));
    assert_eq!(is_ref_hom(&Genotype::Unphased(vec![false, true])), Some(false));
    assert_eq!(is_ref_hom(&Genotype::Missing), None);
}

#[test]
fn phased_coupling_requires_shared_slot() {
    let a = Genotype::Phased(vec![false, true]);
    let b = Genotype::Phased(vec![true, false]);
    assert!(!gt_coupled(&a, &b));
    let c = Genotype::Phased(vec![true, false]);
    let d = Genotype::Phased(vec![true, true]);
    assert!(gt_coupled(&c, &d));
}

#[test]
fn both_missing_are_coupled() {
    assert!(gt_coupled(&Genotype::Missing, &Genotype::Missing));
}

#[test]
fn missing_against_het_is_coupled() {
    // The heterozygosity fallback: a missing call cannot rule out that the
    // present variant shares a haplotype with it.
    let het = parse_genotype(b"0/1");
    assert!(gt_coupled(&Genotype::Missing, &het));
    assert!(gt_coupled(&het, &Genotype::Missing));
}

#[test]
fn missing_against_hom_ref_is_not_coupled() {
    let hom = parse_genotype(b"0|0");
    assert!(!gt_coupled(&Genotype::Missing, &hom));
}

#[test]
fn unphased_coupling_by_heterozygosity() {
    let a = parse_genotype(b"0/1");
    let b = parse_genotype(b"1|0");
    assert!(gt_coupled(&a, &b));
    let hom = parse_genotype(b"0/0");
    assert!(!gt_coupled(&a, &hom));
}
