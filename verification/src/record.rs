//! Variant records as the engine sees them: chromosome, position, reference
//! span, and one genotype per sample.

use crate::genotype::{Genotype, GtView};
use crate::range::PosRange;
use vstd::prelude::*;

verus! {

/// What the engine reads of a variant record. The upstream reader owns the
/// full record; this type carries the fields that clustering and conflict
/// resolution depend on.
#[derive(Clone, Debug)]
pub struct Record {
    /// Chromosome identifier, as raw bytes.
    pub chrom: Vec<u8>,
    /// 1-based position of the first reference base.
    pub pos: u64,
    /// Length of the reference allele, in bases.
    pub ref_len: usize,
    /// One genotype per sample, in the header's sample order.
    pub gts: Vec<Genotype>,
}

/// The mathematical value of a [`Record`].
pub struct RecordV {
    pub chrom: Seq<u8>,
    pub pos: int,
    pub ref_len: int,
    pub gts: Seq<GtView>,
}

impl View for Record {
    type V = RecordV;

    open spec fn view(&self) -> RecordV {
        RecordV {
            chrom: self.chrom@,
            pos: self.pos as int,
            ref_len: self.ref_len as int,
            gts: self.gts@.map_values(|g: Genotype| g@),
        }
    }
}

impl RecordV {
    /// A record is well formed when its reference allele is non-empty and
    /// its site range stays within the position type.
    pub open spec fn wf(self) -> bool {
        &&& 1 <= self.ref_len
        &&& 0 <= self.pos
        &&& self.pos + self.ref_len - 1 <= u64::MAX
    }

    /// First position of the site range: the record's own position.
    pub open spec fn site_lo(self) -> int {
        self.pos
    }

    /// Last position of the site range: the last reference base.
    pub open spec fn site_hi(self) -> int {
        self.pos + self.ref_len - 1
    }

    /// First position actually altered by the variant. For a record that
    /// spans more than one base — a normalized indel — the first base is a
    /// shared anchor that every allele retains, so it is excluded.
    pub open spec fn var_lo(self) -> int {
        if self.ref_len > 1 {
            self.pos + 1
        } else {
            self.pos
        }
    }
}

/// The mathematical values of a sequence of records.
pub open spec fn views_of(rs: Seq<Record>) -> Seq<RecordV> {
    rs.map_values(|r: Record| r@)
}

/// Site positional range of a record: the inclusive span of its reference
/// allele, `[pos, pos + ref_len - 1]`.
pub fn site_ref_range(record: &Record) -> (r: PosRange)
    requires
        record@.wf(),
    ensures
        r.start == record@.site_lo(),
        r.end == record@.site_hi(),
        r.wf(),
{
    let start = record.pos;
    let end = record.pos + (record.ref_len as u64 - 1);
    PosRange { start, end }
}

/// Range of reference bases actually altered by the variant. Equal to the
/// site range for a single-base record; for a longer record the start is
/// advanced past the shared anchor base.
pub fn variant_ref_range(record: &Record) -> (r: PosRange)
    requires
        record@.wf(),
    ensures
        r.start == record@.var_lo(),
        r.end == record@.site_hi(),
        r.wf(),
{
    let end = record.pos + (record.ref_len as u64 - 1);
    let start = if record.pos != end {
        record.pos + 1
    } else {
        record.pos
    };
    PosRange { start, end }
}

} // verus!
