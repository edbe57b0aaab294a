//! The external priority order: a read-only map from (chromosome, position)
//! to a 1-based rank, loaded from a ranking file's tokens.

use crate::nums::{all_ascii, bytes_are_ascii, bytes_eq, parse_u64, spec_parse_u64};
use crate::record::{Record, RecordV};
use std::collections::HashMap;
use vstd::prelude::*;
use vstd::string::StringSliceAdditionalSpecFns;

verus! {

broadcast use vstd::std_specs::hash::group_hash_axioms;

/// ASCII `','`, the field separator inside a ranking token.
pub const COMMA: u8 = 44;

/// A chromosome identifier, as raw bytes.
pub type Region = Vec<u8>;

/// Ranks of one chromosome, keyed by position.
pub type SiteMap = HashMap<u64, usize>;

/// The rank that stands in for "absent from the ranking": worse than every
/// real rank, which the store keeps strictly below this value.
pub const WORST_RANK: usize = usize::MAX;

/// The fields of a ranking token, split at every comma; `cur` is the field
/// read so far.
pub open spec fn split_comma(s: Seq<u8>, cur: Seq<u8>) -> Seq<Seq<u8>>
    decreases s.len(),
{
    if s.len() == 0 {
        seq![cur]
    } else if s[0] == COMMA {
        seq![cur] + split_comma(s.skip(1), Seq::empty())
    } else {
        split_comma(s.skip(1), cur.push(s[0]))
    }
}

/// The entry denoted by a ranking token: `chromosome,position` with an
/// ASCII chromosome and a non-negative integer position. Anything else —
/// more or fewer than two comma-separated fields, a non-ASCII chromosome,
/// or a malformed position — denotes no entry.
pub open spec fn spec_parse_id(s: Seq<u8>) -> Option<(Seq<u8>, u64)> {
    let fields = split_comma(s, Seq::empty());
    if fields.len() == 2 && all_ascii(fields[0]) && spec_parse_u64(fields[1]) is Some {
        Some((fields[0], spec_parse_u64(fields[1]).unwrap()))
    } else {
        None
    }
}

/// Parse a ranking-file token given as raw bytes.
pub fn parse_id_bytes(tok: &[u8]) -> (r: Option<(Region, u64)>)
    ensures
        match (r, spec_parse_id(tok@)) {
            (Some((reg, pos)), Some(sp)) => reg@ == sp.0 && pos == sp.1,
            (None, None) => true,
            _ => false,
        },
{
    let n = tok.len();
    let mut fields: Vec<Vec<u8>> = Vec::new();
    let mut cur: Vec<u8> = Vec::new();
    let mut i: usize = 0;
    proof {
        assert(tok@.skip(0) =~= tok@);
        assert(fields@.map_values(|t: Vec<u8>| t@) + split_comma(tok@, cur@) =~= split_comma(
            tok@,
            cur@,
        ));
    }
    while i < n
        invariant
            0 <= i <= n,
            n == tok@.len(),
            split_comma(tok@, Seq::empty()) == fields@.map_values(|t: Vec<u8>| t@) + split_comma(
                tok@.skip(i as int),
                cur@,
            ),
        decreases n - i,
    {
        let b = tok[i];
        let ghost pre_fields = fields@;
        let ghost pre_cur = cur@;
        if b == COMMA {
            fields.push(cur);
            cur = Vec::new();
        } else {
            cur.push(b);
        }
        proof {
            assert(tok@.skip(i as int)[0] == tok@[i as int]);
            assert(tok@.skip(i as int).skip(1) =~= tok@.skip(i as int + 1));
            if b == COMMA {
                assert(fields@.map_values(|t: Vec<u8>| t@) =~= pre_fields.map_values(
                    |t: Vec<u8>| t@,
                ) + seq![pre_cur]);
                assert(fields@.map_values(|t: Vec<u8>| t@) + split_comma(
                    tok@.skip(i as int + 1),
                    cur@,
                ) =~= split_comma(tok@, Seq::empty()));
            } else {
                assert(cur@ =~= pre_cur.push(b));
            }
        }
        i = i + 1;
    }
    proof {
        assert(tok@.skip(n as int) =~= Seq::<u8>::empty());
        assert(split_comma(tok@, Seq::empty()) =~= fields@.map_values(|t: Vec<u8>| t@).push(cur@));
    }
    fields.push(cur);
    let ghost sf = split_comma(tok@, Seq::empty());
    proof {
        assert(fields@.map_values(|t: Vec<u8>| t@) =~= sf);
    }
    if fields.len() != 2 {
        return None;
    }
    let pos = match parse_u64(fields[1].as_slice()) {
        Some(p) => p,
        None => {
            return None;
        },
    };
    let region = fields.remove(0);
    if !bytes_are_ascii(region.as_slice()) {
        return None;
    }
    Some((region, pos))
}

/// Parse an entry of the ranking file.
pub fn parse_id(id: &str) -> (r: Option<(Region, u64)>)
    ensures
        match (r, spec_parse_id(id.spec_bytes())) {
            (Some((reg, pos)), Some(sp)) => reg@ == sp.0 && pos == sp.1,
            (None, None) => true,
            _ => false,
        },
{
    parse_id_bytes(id.as_bytes())
}

/// The read-only priority lookup: (chromosome, position) to 1-based rank,
/// lower meaning higher priority.
pub struct RankStore {
    regions: Vec<(Region, SiteMap)>,
    model: Ghost<Map<(Seq<u8>, u64), usize>>,
}

impl View for RankStore {
    type V = Map<(Seq<u8>, u64), usize>;

    closed spec fn view(&self) -> Map<(Seq<u8>, u64), usize> {
        self.model@
    }
}

impl RankStore {
    /// Internal consistency: region names are unique, the per-region maps
    /// agree with the abstract map, and every stored rank is a real rank,
    /// at least 1 and strictly better than [`WORST_RANK`].
    pub closed spec fn inv(self) -> bool {
        &&& forall|i: int, j: int|
            0 <= i < j < self.regions@.len() ==> (#[trigger] self.regions@[i].0@) != (
            #[trigger] self.regions@[j].0@)
        &&& forall|i: int, k: u64|
            0 <= i < self.regions@.len() && (#[trigger] self.regions@[i].1@.contains_key(k))
                ==> self.model@.contains_key((self.regions@[i].0@, k)) && self.model@[(
                self.regions@[i].0@,
                k,
            )] == self.regions@[i].1@[k]
        &&& forall|i: int, k: u64|
            0 <= i < self.regions@.len() && (#[trigger] self.model@.contains_key(
                (self.regions@[i].0@, k),
            )) ==> self.regions@[i].1@.contains_key(k)
        &&& forall|key: (Seq<u8>, u64)| #[trigger]
            self.model@.contains_key(key) ==> exists|i: int|
                0 <= i < self.regions@.len() && (#[trigger] self.regions@[i].0@) == key.0
        &&& forall|key: (Seq<u8>, u64)| #[trigger]
            self.model@.contains_key(key) ==> 1 <= self.model@[key] < WORST_RANK
    }

    /// An empty store.
    pub fn new() -> (r: RankStore)
        ensures
            r.inv(),
            r@ == Map::<(Seq<u8>, u64), usize>::empty(),
    {
        RankStore { regions: Vec::new(), model: Ghost(Map::empty()) }
    }

    /// Rank of a site, if the site is ranked.
    pub fn lookup(&self, chrom: &[u8], pos: u64) -> (r: Option<usize>)
        requires
            self.inv(),
        ensures
            r == if self@.contains_key((chrom@, pos)) {
                Some(self@[(chrom@, pos)])
            } else {
                None::<usize>
            },
    {
        let n = self.regions.len();
        let mut i: usize = 0;
        while i < n
            invariant
                0 <= i <= n,
                n == self.regions@.len(),
                self.inv(),
                forall|j: int| 0 <= j < i ==> (#[trigger] self.regions@[j].0@) != chrom@,
            decreases n - i,
        {
            if bytes_eq(self.regions[i].0.as_slice(), chrom) {
                let r = match self.regions[i].1.get(&pos) {
                    Some(rank) => Some(*rank),
                    None => None,
                };
                proof {
                    if self.regions@[i as int].1@.contains_key(pos) {
                        assert(self@.contains_key((chrom@, pos)));
                    } else {
                        if self@.contains_key((chrom@, pos)) {
                            assert(self@.contains_key((self.regions@[i as int].0@, pos)));
                            assert(self.regions@[i as int].1@.contains_key(pos));
                        }
                    }
                }
                return r;
            }
            i = i + 1;
        }
        proof {
            if self@.contains_key((chrom@, pos)) {
                let j = choose|j: int|
                    0 <= j < self.regions@.len() && (#[trigger] self.regions@[j].0@) == chrom@;
                assert(false);
            }
        }
        None
    }

    /// Record a new site's rank. The site must not be ranked yet.
    fn insert_rank(&mut self, chrom: Region, pos: u64, rank: usize)
        requires
            old(self).inv(),
            1 <= rank < WORST_RANK,
            !old(self)@.contains_key((chrom@, pos)),
        ensures
            final(self).inv(),
            final(self)@ == old(self)@.insert((chrom@, pos), rank),
    {
        let ghost new_model = old(self)@.insert((chrom@, pos), rank);
        let n = self.regions.len();
        let mut i: usize = 0;
        while i < n
            invariant
                0 <= i <= n,
                n == self.regions@.len(),
                self == old(self),
                old(self).inv(),
                !old(self)@.contains_key((chrom@, pos)),
                new_model == old(self)@.insert((chrom@, pos), rank),
                1 <= rank < WORST_RANK,
                forall|j: int| 0 <= j < i ==> (#[trigger] self.regions@[j].0@) != chrom@,
            decreases n - i,
        {
            if bytes_eq(self.regions[i].0.as_slice(), chrom.as_slice()) {
                let ghost pre = *self;
                let entry = &mut self.regions[i];
                entry.1.insert(pos, rank);
                self.model = Ghost(new_model);
                proof {
                    let rs = self.regions@;
                    let ps = pre.regions@;
                    assert(rs.len() == ps.len());
                    assert(forall|j: int| 0 <= j < rs.len() ==> rs[j].0@ == ps[j].0@);
                    assert(rs[i as int].1@ == ps[i as int].1@.insert(pos, rank));
                    assert(forall|j: int| 0 <= j < rs.len() && j != i ==> rs[j] == ps[j]);
                    assert forall|j: int, k: u64|
                        0 <= j < rs.len() && (#[trigger] rs[j].1@.contains_key(k)) implies self
                        .model@.contains_key((rs[j].0@, k)) && self.model@[(rs[j].0@, k)]
                        == rs[j].1@[k] by {
                        if j == i && k == pos {
                        } else if j == i {
                            assert(ps[j].1@.contains_key(k));
                        } else {
                            assert(ps[j].1@.contains_key(k));
                            assert((rs[j].0@, k) != (chrom@, pos));
                        }
                    }
                    assert forall|j: int, k: u64|
                        0 <= j < rs.len() && (#[trigger] self.model@.contains_key(
                            (rs[j].0@, k),
                        )) implies rs[j].1@.contains_key(k) by {
                        if (rs[j].0@, k) == (chrom@, pos) {
                            assert(rs[j].0@ == ps[i as int].0@);
                            if j != i {
                                assert(ps[j].0@ != ps[i as int].0@);
                            }
                        } else {
                            assert(pre.model@.contains_key((ps[j].0@, k)));
                            assert(ps[j].1@.contains_key(k));
                        }
                    }
                    assert forall|key: (Seq<u8>, u64)| #[trigger]
                        self.model@.contains_key(key) implies exists|j: int|
                        0 <= j < rs.len() && (#[trigger] rs[j].0@) == key.0 by {
                        if key == (chrom@, pos) {
                            assert(rs[i as int].0@ == key.0);
                        } else {
                            assert(pre.model@.contains_key(key));
                            let j = choose|j: int|
                                0 <= j < ps.len() && (#[trigger] ps[j].0@) == key.0;
                            assert(rs[j].0@ == key.0);
                        }
                    }
                }
                return ;
            }
            i = i + 1;
        }
        let mut site_map: SiteMap = HashMap::new();
        site_map.insert(pos, rank);
        let ghost pre = *self;
        let ghost sm = site_map@;
        self.regions.push((chrom, site_map));
        self.model = Ghost(new_model);
        proof {
            let rs = self.regions@;
            let ps = pre.regions@;
            assert(sm == Map::<u64, usize>::empty().insert(pos, rank));
            assert(rs[ps.len() as int].1@ == sm);
            assert(rs =~= ps.push((chrom, site_map)));
            assert(forall|j: int| 0 <= j < ps.len() ==> rs[j] == ps[j]);
            assert(rs[ps.len() as int].0@ == chrom@);
            assert forall|j: int, k: u64|
                0 <= j < rs.len() && (#[trigger] rs[j].1@.contains_key(k)) implies self
                .model@.contains_key((rs[j].0@, k)) && self.model@[(rs[j].0@, k)]
                == rs[j].1@[k] by {
                if j == ps.len() {
                    assert(k == pos);
                } else {
                    assert(ps[j].1@.contains_key(k));
                    assert((rs[j].0@, k) != (chrom@, pos));
                }
            }
            assert forall|j: int, k: u64|
                0 <= j < rs.len() && (#[trigger] self.model@.contains_key(
                    (rs[j].0@, k),
                )) implies rs[j].1@.contains_key(k) by {
                if (rs[j].0@, k) == (chrom@, pos) {
                    if j != ps.len() {
                        assert(ps[j].0@ == chrom@);
                        assert(false);
                    }
                } else {
                    assert(pre.model@.contains_key((rs[j].0@, k)));
                    if j == ps.len() {
                        let l = choose|l: int|
                            0 <= l < ps.len() && (#[trigger] ps[l].0@) == chrom@;
                        assert(false);
                    } else {
                        assert(ps[j].1@.contains_key(k));
                    }
                }
            }
            assert forall|key: (Seq<u8>, u64)| #[trigger]
                self.model@.contains_key(key) implies exists|j: int|
                0 <= j < rs.len() && (#[trigger] rs[j].0@) == key.0 by {
                if key == (chrom@, pos) {
                    assert(rs[ps.len() as int].0@ == key.0);
                } else {
                    assert(pre.model@.contains_key(key));
                    let j = choose|j: int| 0 <= j < ps.len() && (#[trigger] ps[j].0@) == key.0;
                    assert(rs[j].0@ == key.0);
                }
            }
        }
    }
}

/// Failure to make any sense of the ranking file.
#[derive(Debug, PartialEq, Eq, Structural, Clone, Copy)]
pub enum RankFileError {
    /// The whole file reduced to a single token, and that token is
    /// malformed.
    SoleTokenMalformed,
}

/// What became of one ranking-file token.
#[derive(Debug, PartialEq, Eq, Structural, Clone, Copy)]
pub enum TokenFate {
    /// Stored with the next sequential rank.
    Inserted,
    /// Not a valid `chromosome,position` entry: skipped.
    Malformed,
    /// A repeat of an already-stored site: skipped, the first rank kept.
    Duplicate,
    /// Past the point where the target count of distinct sites was
    /// reached: not examined.
    Unread,
}

/// What became of each token, alongside [`ranks_fold`]: `acc` and `cnt`
/// are the map and distinct count accumulated so far.
pub open spec fn fates_fold(
    toks: Seq<Seq<u8>>,
    target: int,
    acc: Map<(Seq<u8>, u64), usize>,
    cnt: int,
) -> Seq<TokenFate>
    decreases toks.len(),
{
    if toks.len() == 0 {
        seq![]
    } else if cnt >= target {
        Seq::new(toks.len(), |i: int| TokenFate::Unread)
    } else {
        match spec_parse_id(toks[0]) {
            Some(entry) => {
                if acc.contains_key(entry) {
                    seq![TokenFate::Duplicate] + fates_fold(toks.skip(1), target, acc, cnt)
                } else {
                    seq![TokenFate::Inserted] + fates_fold(
                        toks.skip(1),
                        target,
                        acc.insert(entry, (cnt + 1) as usize),
                        cnt + 1,
                    )
                }
            },
            None => seq![TokenFate::Malformed] + fates_fold(toks.skip(1), target, acc, cnt),
        }
    }
}

/// What became of each token of the file.
pub open spec fn spec_token_fates(toks: Seq<Seq<u8>>, target: int) -> Seq<TokenFate> {
    fates_fold(toks, target, Map::empty(), 0)
}

/// Folding the tokens into a rank map, left to right: the first occurrence
/// of a site gets the next sequential rank (`cnt` distinct sites are stored
/// so far), repeats keep their first rank, malformed tokens are skipped,
/// and folding stops once `target` distinct sites are stored.
pub open spec fn ranks_fold(
    toks: Seq<Seq<u8>>,
    target: int,
    acc: Map<(Seq<u8>, u64), usize>,
    cnt: int,
) -> Map<(Seq<u8>, u64), usize>
    decreases toks.len(),
{
    if toks.len() == 0 || cnt >= target {
        acc
    } else {
        match spec_parse_id(toks[0]) {
            Some(entry) => {
                if acc.contains_key(entry) {
                    ranks_fold(toks.skip(1), target, acc, cnt)
                } else {
                    ranks_fold(toks.skip(1), target, acc.insert(entry, (cnt + 1) as usize), cnt + 1)
                }
            },
            None => ranks_fold(toks.skip(1), target, acc, cnt),
        }
    }
}

/// The rank map denoted by a token sequence and a target count of distinct
/// entries.
pub open spec fn spec_load_rank(toks: Seq<Seq<u8>>, target: int) -> Map<(Seq<u8>, u64), usize> {
    ranks_fold(toks, target, Map::empty(), 0)
}

/// Build the rank store from the ranking file's tokens, reporting what
/// became of each token so the caller can log skipped ones.
///
/// File order defines priority: the first occurrence of a site gets the
/// next sequential rank, a repeated site keeps its first rank, and a
/// malformed token is skipped. Loading stops once `target` distinct sites
/// are stored. A file that reduces to a single malformed token is rejected
/// outright.
pub fn load_rank(tokens: &Vec<Vec<u8>>, target: usize) -> (r: Result<
    (RankStore, Vec<TokenFate>),
    RankFileError,
>)
    requires
        tokens@.len() < usize::MAX,
    ensures
        (r is Err) == (tokens@.len() == 1 && spec_parse_id(tokens@[0]@) is None),
        r matches Ok(p) ==> p.0.inv() && p.0@ == spec_load_rank(
            tokens@.map_values(|t: Vec<u8>| t@),
            target as int,
        ) && p.1@ == spec_token_fates(tokens@.map_values(|t: Vec<u8>| t@), target as int),
{
    let ghost toksv = tokens@.map_values(|t: Vec<u8>| t@);
    if tokens.len() == 1 {
        if parse_id_bytes(tokens[0].as_slice()).is_none() {
            return Err(RankFileError::SoleTokenMalformed);
        }
    }
    let mut store = RankStore::new();
    let mut fates: Vec<TokenFate> = Vec::new();
    let mut cnt: usize = 0;
    let mut i: usize = 0;
    let n = tokens.len();
    proof {
        assert(toksv.skip(0) =~= toksv);
    }
    while i < n && cnt < target
        invariant
            0 <= i <= n,
            cnt <= i,
            cnt <= target,
            n == tokens@.len(),
            n < usize::MAX,
            toksv == tokens@.map_values(|t: Vec<u8>| t@),
            store.inv(),
            fates@.len() == i,
            !(tokens@.len() == 1 && spec_parse_id(toksv[0]) is None),
            spec_load_rank(toksv, target as int) == ranks_fold(
                toksv.skip(i as int),
                target as int,
                store@,
                cnt as int,
            ),
            spec_token_fates(toksv, target as int) == fates@ + fates_fold(
                toksv.skip(i as int),
                target as int,
                store@,
                cnt as int,
            ),
        decreases n - i,
    {
        let ghost pre_store = store@;
        let ghost pre_cnt = cnt as int;
        let ghost pre_fates = fates@;
        proof {
            assert(toksv.skip(i as int)[0] == toksv[i as int]);
            assert(toksv[i as int] == tokens@[i as int]@);
            assert(toksv.skip(i as int).skip(1) =~= toksv.skip(i as int + 1));
        }
        match parse_id_bytes(tokens[i].as_slice()) {
            Some((region, pos)) => {
                let ghost entry = (region@, pos);
                match store.lookup(region.as_slice(), pos) {
                    Some(_) => {
                        // A repeated site: the first rank stands.
                        fates.push(TokenFate::Duplicate);
                    },
                    None => {
                        let rank = cnt + 1;
                        store.insert_rank(region, pos, rank);
                        cnt = cnt + 1;
                        fates.push(TokenFate::Inserted);
                    },
                }
            },
            None => {
                fates.push(TokenFate::Malformed);
            },
        }
        proof {
            assert(ranks_fold(toksv.skip(i as int), target as int, pre_store, pre_cnt)
                == ranks_fold(toksv.skip(i as int + 1), target as int, store@, cnt as int));
            assert(fates_fold(toksv.skip(i as int), target as int, pre_store, pre_cnt)
                == seq![fates@.last()] + fates_fold(
                toksv.skip(i as int + 1),
                target as int,
                store@,
                cnt as int,
            ));
            assert(pre_fates + fates_fold(toksv.skip(i as int), target as int, pre_store, pre_cnt)
                =~= fates@ + fates_fold(toksv.skip(i as int + 1), target as int, store@, cnt as int));
        }
        i = i + 1;
    }
    proof {
        assert(ranks_fold(toksv.skip(i as int), target as int, store@, cnt as int) == store@);
        if i == n {
            assert(toksv.skip(n as int) =~= Seq::<Seq<u8>>::empty());
            assert(fates_fold(toksv.skip(i as int), target as int, store@, cnt as int)
                =~= Seq::<TokenFate>::empty());
        }
        if tokens@.len() == 1 {
            assert(toksv[0] == tokens@[0]@);
        }
    }
    // Tokens past the stopping point are reported unread.
    while i < n
        invariant
            0 <= i <= n,
            n == tokens@.len(),
            toksv == tokens@.map_values(|t: Vec<u8>| t@),
            store.inv(),
            fates@.len() == i,
            i < n ==> cnt >= target,
            store@ == spec_load_rank(toksv, target as int),
            !(tokens@.len() == 1 && spec_parse_id(toksv[0]) is None),
            spec_token_fates(toksv, target as int) == fates@ + fates_fold(
                toksv.skip(i as int),
                target as int,
                store@,
                cnt as int,
            ),
        decreases n - i,
    {
        fates.push(TokenFate::Unread);
        proof {
            assert(toksv.skip(i as int).len() == n - i);
            assert(fates_fold(toksv.skip(i as int), target as int, store@, cnt as int)
                =~= seq![TokenFate::Unread] + fates_fold(
                toksv.skip(i as int + 1),
                target as int,
                store@,
                cnt as int,
            ));
        }
        i = i + 1;
    }
    proof {
        assert(toksv.skip(n as int) =~= Seq::<Seq<u8>>::empty());
        assert(spec_token_fates(toksv, target as int) =~= fates@);
    }
    Ok((store, fates))
}

/// Every rank a store under its invariant holds is a real rank: at least
/// 1 and strictly better than the sentinel [`WORST_RANK`].
pub proof fn lemma_store_ranks_real(s: RankStore)
    requires
        s.inv(),
    ensures
        forall|key: (Seq<u8>, u64)| #[trigger] s@.contains_key(key) ==> 1 <= s@[key] < WORST_RANK,
{
}

/// The priority of a record: its rank when the store ranks its site, else
/// [`WORST_RANK`].
pub open spec fn eff_rank(m: Map<(Seq<u8>, u64), usize>, r: RecordV) -> int {
    if 0 <= r.pos <= u64::MAX && m.contains_key((r.chrom, r.pos as u64)) {
        m[(r.chrom, r.pos as u64)] as int
    } else {
        WORST_RANK as int
    }
}

/// Rank of a record's site, if the store ranks it.
pub fn forge_rank(record: &Record, ranks: &RankStore) -> (r: Option<usize>)
    requires
        ranks.inv(),
    ensures
        r == if ranks@.contains_key((record@.chrom, record.pos)) {
            Some(ranks@[(record@.chrom, record.pos)])
        } else {
            None::<usize>
        },
{
    ranks.lookup(record.chrom.as_slice(), record.pos)
}

} // verus!
