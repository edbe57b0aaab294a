//! Per-sample genotypes and the coupling test between two of them.

use crate::nums::{parse_u64, spec_parse_u64};
use vstd::prelude::*;

verus! {

/// ASCII `'|'`, the phased allele separator.
pub const PHASED_SEP: u8 = 124;

/// ASCII `'/'`, the unphased allele separator.
pub const UNPHASED_SEP: u8 = 47;

/// A sample's genotype at one site: which haplotype copies carry an
/// alternate allele.
#[derive(Clone, Debug)]
pub enum Genotype {
    /// Alt-presence bits in haplotype order.
    Phased(Vec<bool>),
    /// Alt-presence bits without a haplotype order.
    Unphased(Vec<bool>),
    /// No usable genotype call.
    Missing,
}

/// The mathematical value of a [`Genotype`].
pub enum GtView {
    Phased(Seq<bool>),
    Unphased(Seq<bool>),
    Missing,
}

impl View for Genotype {
    type V = GtView;

    open spec fn view(&self) -> GtView {
        match self {
            Genotype::Phased(v) => GtView::Phased(v@),
            Genotype::Unphased(v) => GtView::Unphased(v@),
            Genotype::Missing => GtView::Missing,
        }
    }
}

/// No bit of the sequence is set.
pub open spec fn all_clear(bits: Seq<bool>) -> bool {
    forall|i: int| 0 <= i < bits.len() ==> !bits[i]
}

/// A present genotype is homozygous for the reference allele when none of
/// its haplotype copies carries an alternate allele. A missing genotype is
/// never considered homozygous-reference: absence of evidence is treated as
/// possible presence.
pub open spec fn spec_hom_ref(g: GtView) -> bool {
    match g {
        GtView::Phased(bits) => all_clear(bits),
        GtView::Unphased(bits) => all_clear(bits),
        GtView::Missing => false,
    }
}

/// Some haplotype slot carries an alternate allele in both bit sequences.
pub open spec fn spec_slot_coupled(b1: Seq<bool>, b2: Seq<bool>) -> bool {
    exists|i: int| 0 <= i < b1.len() && i < b2.len() && #[trigger] b1[i] && #[trigger] b2[i]
}

/// Two genotypes of one sample are *coupled* when the two variants may sit
/// on the same haplotype copy of that sample:
/// - both missing: nothing can rule coupling out, so they are coupled;
/// - one missing: coupled unless the present one is homozygous-reference;
/// - both phased: coupled when some haplotype slot carries an alternate
///   allele in both;
/// - at least one unphased: coupled when neither is homozygous-reference.
pub open spec fn spec_coupled(g1: GtView, g2: GtView) -> bool {
    match (g1, g2) {
        (GtView::Missing, GtView::Missing) => true,
        (GtView::Missing, other) => !spec_hom_ref(other),
        (other, GtView::Missing) => !spec_hom_ref(other),
        (GtView::Phased(b1), GtView::Phased(b2)) => spec_slot_coupled(b1, b2),
        (other1, other2) => !spec_hom_ref(other1) && !spec_hom_ref(other2),
    }
}

/// Coupling does not depend on the order of the two genotypes.
pub proof fn lemma_coupled_sym(g1: GtView, g2: GtView)
    ensures
        spec_coupled(g1, g2) == spec_coupled(g2, g1),
{
}

fn all_bits_clear(v: &Vec<bool>) -> (b: bool)
    ensures
        b == all_clear(v@),
{
    let mut i: usize = 0;
    while i < v.len()
        invariant
            0 <= i <= v@.len(),
            forall|j: int| 0 <= j < i ==> !v@[j],
        decreases v@.len() - i,
    {
        if v[i] {
            return false;
        }
        i = i + 1;
    }
    true
}

fn any_slot_coupled(v1: &Vec<bool>, v2: &Vec<bool>) -> (b: bool)
    ensures
        b == spec_slot_coupled(v1@, v2@),
{
    let n = if v1.len() <= v2.len() {
        v1.len()
    } else {
        v2.len()
    };
    let mut i: usize = 0;
    while i < n
        invariant
            0 <= i <= n,
            n <= v1@.len(),
            n <= v2@.len(),
            n == if v1@.len() <= v2@.len() {
                v1@.len()
            } else {
                v2@.len()
            },
            forall|j: int| 0 <= j < i ==> !(#[trigger] v1@[j] && #[trigger] v2@[j]),
        decreases n - i,
    {
        if v1[i] && v2[i] {
            proof {
                assert(0 <= i < v1@.len() && (i as int) < v2@.len() && v1@[i as int]
                    && v2@[i as int]);
            }
            return true;
        }
        i = i + 1;
    }
    false
}

/// Check whether the genotype is homozygous for the reference allele;
/// `None` when the genotype is missing.
pub fn is_ref_hom(genotype: &Genotype) -> (r: Option<bool>)
    ensures
        match genotype@ {
            GtView::Missing => r is None,
            _ => r == Some(spec_hom_ref(genotype@)),
        },
{
    match genotype {
        Genotype::Phased(v) => Some(all_bits_clear(v)),
        Genotype::Unphased(v) => Some(all_bits_clear(v)),
        Genotype::Missing => None,
    }
}

/// Decide coupling of one sample's genotypes for two records.
pub fn gt_coupled(g1: &Genotype, g2: &Genotype) -> (b: bool)
    ensures
        b == spec_coupled(g1@, g2@),
{
    match (g1, g2) {
        (Genotype::Missing, Genotype::Missing) => true,
        (Genotype::Missing, Genotype::Phased(v)) => !all_bits_clear(v),
        (Genotype::Missing, Genotype::Unphased(v)) => !all_bits_clear(v),
        (Genotype::Phased(v), Genotype::Missing) => !all_bits_clear(v),
        (Genotype::Unphased(v), Genotype::Missing) => !all_bits_clear(v),
        (Genotype::Phased(v1), Genotype::Phased(v2)) => any_slot_coupled(v1, v2),
        (Genotype::Phased(v1), Genotype::Unphased(v2)) => !all_bits_clear(v1)
            && !all_bits_clear(v2),
        (Genotype::Unphased(v1), Genotype::Phased(v2)) => !all_bits_clear(v1)
            && !all_bits_clear(v2),
        (Genotype::Unphased(v1), Genotype::Unphased(v2)) => !all_bits_clear(v1)
            && !all_bits_clear(v2),
    }
}

/// The tokens of a genotype value, split at every allele separator;
/// `cur` is the token read so far.
pub open spec fn split_gt(s: Seq<u8>, cur: Seq<u8>) -> Seq<Seq<u8>>
    decreases s.len(),
{
    if s.len() == 0 {
        seq![cur]
    } else if s[0] == PHASED_SEP || s[0] == UNPHASED_SEP {
        seq![cur] + split_gt(s.skip(1), Seq::empty())
    } else {
        split_gt(s.skip(1), cur.push(s[0]))
    }
}

/// The allele tokens of a raw genotype value.
pub open spec fn gt_tokens(s: Seq<u8>) -> Seq<Seq<u8>> {
    split_gt(s, Seq::empty())
}

/// Whether the raw value uses the unphased separator anywhere.
pub open spec fn has_unphased_sep(s: Seq<u8>) -> bool {
    exists|i: int| 0 <= i < s.len() && #[trigger] s[i] == UNPHASED_SEP
}

/// Every allele token denotes a non-negative integer.
pub open spec fn all_tokens_numeric(toks: Seq<Seq<u8>>) -> bool {
    forall|i: int| 0 <= i < toks.len() ==> spec_parse_u64(#[trigger] toks[i]) is Some
}

/// One alt-presence bit per allele token: set iff the allele index is not
/// the reference index 0.
pub open spec fn bits_of_tokens(toks: Seq<Seq<u8>>) -> Seq<bool> {
    Seq::new(
        toks.len(),
        |i: int|
            match spec_parse_u64(toks[i]) {
                Some(v) => v != 0,
                None => false,
            },
    )
}

/// The genotype denoted by a raw value: allele indices joined by `|`
/// (phased) or `/` (unphased). A value in which any allele token is not a
/// non-negative integer — in particular `.`, a missing allele — denotes a
/// missing genotype.
pub open spec fn spec_parse_genotype(s: Seq<u8>) -> GtView {
    let toks = gt_tokens(s);
    if all_tokens_numeric(toks) {
        if has_unphased_sep(s) {
            GtView::Unphased(bits_of_tokens(toks))
        } else {
            GtView::Phased(bits_of_tokens(toks))
        }
    } else {
        GtView::Missing
    }
}

/// Parse a raw genotype value such as `0|1`, `0/1` or `.`.
pub fn parse_genotype(raw: &[u8]) -> (g: Genotype)
    ensures
        g@ == spec_parse_genotype(raw@),
{
    let n = raw.len();
    let mut tokens: Vec<Vec<u8>> = Vec::new();
    let mut cur: Vec<u8> = Vec::new();
    let mut saw_unphased = false;
    let mut i: usize = 0;
    proof {
        assert(raw@.skip(0) =~= raw@);
        assert(tokens@.map_values(|t: Vec<u8>| t@) + split_gt(raw@, cur@) =~= split_gt(
            raw@,
            cur@,
        ));
        assert(raw@.take(0) =~= Seq::<u8>::empty());
    }
    while i < n
        invariant
            0 <= i <= n,
            n == raw@.len(),
            gt_tokens(raw@) == tokens@.map_values(|t: Vec<u8>| t@) + split_gt(
                raw@.skip(i as int),
                cur@,
            ),
            saw_unphased == has_unphased_sep(raw@.take(i as int)),
        decreases n - i,
    {
        let b = raw[i];
        let ghost pre_tokens = tokens@;
        let ghost pre_cur = cur@;
        if b == PHASED_SEP || b == UNPHASED_SEP {
            if b == UNPHASED_SEP {
                saw_unphased = true;
            }
            tokens.push(cur);
            cur = Vec::new();
        } else {
            cur.push(b);
        }
        proof {
            assert(raw@.skip(i as int)[0] == raw@[i as int]);
            assert(raw@.skip(i as int).skip(1) =~= raw@.skip(i as int + 1));
            if b == PHASED_SEP || b == UNPHASED_SEP {
                assert(split_gt(raw@.skip(i as int), pre_cur) == seq![pre_cur] + split_gt(
                    raw@.skip(i as int + 1),
                    Seq::empty(),
                ));
                assert(tokens@.map_values(|t: Vec<u8>| t@) =~= pre_tokens.map_values(
                    |t: Vec<u8>| t@,
                ) + seq![pre_cur]);
                assert(tokens@.map_values(|t: Vec<u8>| t@) + split_gt(
                    raw@.skip(i as int + 1),
                    cur@,
                ) =~= gt_tokens(raw@));
            } else {
                assert(cur@ =~= pre_cur.push(b));
            }
            assert(raw@.take(i as int + 1).drop_last() =~= raw@.take(i as int));
            assert(raw@.take(i as int + 1).last() == raw@[i as int]);
            assert(has_unphased_sep(raw@.take(i as int + 1)) == (has_unphased_sep(
                raw@.take(i as int),
            ) || raw@[i as int] == UNPHASED_SEP)) by {
                let ext = raw@.take(i as int + 1);
                let pre = raw@.take(i as int);
                if has_unphased_sep(pre) {
                    let j = choose|j: int| 0 <= j < pre.len() && #[trigger] pre[j] == UNPHASED_SEP;
                    assert(ext[j] == UNPHASED_SEP);
                }
                if raw@[i as int] == UNPHASED_SEP {
                    assert(ext[i as int] == UNPHASED_SEP);
                }
                if has_unphased_sep(ext) {
                    let j = choose|j: int| 0 <= j < ext.len() && #[trigger] ext[j] == UNPHASED_SEP;
                    if j < i {
                        assert(pre[j] == UNPHASED_SEP);
                    }
                }
            }
        }
        i = i + 1;
    }
    proof {
        assert(raw@.skip(n as int) =~= Seq::<u8>::empty());
        assert(split_gt(Seq::<u8>::empty(), cur@) == seq![cur@]);
        assert(gt_tokens(raw@) =~= tokens@.map_values(|t: Vec<u8>| t@).push(cur@));
        assert(raw@.take(n as int) =~= raw@);
    }
    tokens.push(cur);
    let ghost toks = gt_tokens(raw@);
    proof {
        assert(tokens@.map_values(|t: Vec<u8>| t@) =~= toks);
    }
    let mut bits: Vec<bool> = Vec::new();
    let mut j: usize = 0;
    while j < tokens.len()
        invariant
            0 <= j <= tokens@.len(),
            toks == tokens@.map_values(|t: Vec<u8>| t@),
            toks == gt_tokens(raw@),
            bits@.len() == j,
            forall|k: int| 0 <= k < j ==> spec_parse_u64(#[trigger] toks[k]) is Some,
            forall|k: int|
                0 <= k < j ==> bits@[k] == match spec_parse_u64(#[trigger] toks[k]) {
                    Some(v) => v != 0,
                    None => false,
                },
        decreases tokens@.len() - j,
    {
        match parse_u64(tokens[j].as_slice()) {
            Some(v) => {
                bits.push(v != 0);
            },
            None => {
                proof {
                    assert(spec_parse_u64(toks[j as int]) is None);
                    assert(!all_tokens_numeric(toks));
                }
                return Genotype::Missing;
            },
        }
        j = j + 1;
    }
    proof {
        assert(all_tokens_numeric(toks));
        assert(bits@ =~= bits_of_tokens(toks));
    }
    if saw_unphased {
        Genotype::Unphased(bits)
    } else {
        Genotype::Phased(bits)
    }
}

/// The genotype of a sample for one record, `None` standing for a missing
/// genotype field: a record whose format has no genotype key yields a
/// missing genotype.
pub fn genotype_of(raw: Option<&Vec<u8>>) -> (g: Genotype)
    ensures
        g@ == match raw {
            Some(v) => spec_parse_genotype(v@),
            None => GtView::Missing,
        },
{
    match raw {
        Some(v) => parse_genotype(v.as_slice()),
        None => Genotype::Missing,
    }
}

} // verus!
