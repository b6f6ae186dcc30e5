//! The range store and the point-in-range lookup.
//!
//! A [`DBIP`] holds one table of address ranges per family.  A lookup finds,
//! among the stored ranges of the query's family that contain the query
//! point, the one with the smallest `end`; with pairwise non-overlapping
//! ranges that is the unique containing range (see
//! [`lemma_lookup_unique`]).  Ranges of different families are never
//! compared.

use crate::addr::Family;
use crate::addr::IpAddress;
use crate::location::Location;
use crate::location::LocationModel;
use vstd::prelude::*;

verus! {

/// One geolocation range: a `[start, end]` interval of one family's address
/// space, with the attributes it maps to.
pub struct RangeRecord {
    pub family: Family,
    /// Numeric value of the range's first address.
    pub start: u128,
    /// Numeric value of the range's last address.
    pub end: u128,
    pub attrs: Location,
}

/// The mathematical content of a [`RangeRecord`].
#[verifier::ext_equal]
pub struct RangeModel {
    pub family: Family,
    pub start: u128,
    pub end: u128,
    pub attrs: LocationModel,
}

impl View for RangeRecord {
    type V = RangeModel;

    open spec fn view(&self) -> RangeModel {
        RangeModel {
            family: self.family,
            start: self.start,
            end: self.end,
            attrs: self.attrs@,
        }
    }
}

/// The content of one family's table, in commit order.
pub open spec fn recs_model(s: Seq<RangeRecord>) -> Seq<RangeModel> {
    s.map_values(|r: RangeRecord| r@)
}

/// The mathematical content of a [`DBIP`]: the two family tables.
#[verifier::ext_equal]
pub struct DbModel {
    pub v4: Seq<RangeModel>,
    pub v6: Seq<RangeModel>,
}

impl DbModel {
    /// The table that serves one family's lookups.
    pub open spec fn table(self, f: Family) -> Seq<RangeModel> {
        match f {
            Family::V4 => self.v4,
            Family::V6 => self.v6,
        }
    }
}

/// A lookup error.  A point that no stored range contains is a normal,
/// expected outcome, distinct from every ingestion fault.
#[derive(Clone, Copy, PartialEq, Eq, Structural, Debug)]
pub enum Error {
    NotFound,
}

/// Whether the range contains the point.
pub open spec fn qualifies(r: RangeModel, p: u128) -> bool {
    r.start <= p && p <= r.end
}

/// The index the lookup answers with among the first `n` ranges: the first
/// range with the smallest `end` of those containing `p`.
pub open spec fn best_upto(rs: Seq<RangeModel>, p: u128, n: int) -> Option<int>
    decreases n,
{
    if n <= 0 {
        None
    } else {
        let prev = best_upto(rs, p, n - 1);
        if qualifies(rs[n - 1], p) {
            match prev {
                None => Some(n - 1),
                Some(j) => if rs[n - 1].end < rs[j].end {
                    Some(n - 1)
                } else {
                    Some(j)
                },
            }
        } else {
            prev
        }
    }
}

/// The index the lookup answers with over a whole table.
pub open spec fn lookup(rs: Seq<RangeModel>, p: u128) -> Option<int> {
    best_upto(rs, p, rs.len() as int)
}

/// What the lookup index means: `None` exactly when no range contains the
/// point, and an answered index is a containing range with the smallest
/// `end` among all containing ranges (the tie-break rule).
pub proof fn lemma_lookup_characterization(rs: Seq<RangeModel>, p: u128)
    ensures
        match lookup(rs, p) {
            None => forall|i: int| 0 <= i < rs.len() ==> !qualifies(rs[i], p),
            Some(j) => 0 <= j < rs.len() && qualifies(rs[j], p) && forall|i: int|
                0 <= i < rs.len() && qualifies(#[trigger] rs[i], p) ==> rs[j].end <= rs[i].end,
        },
{
    lemma_best_upto_characterization(rs, p, rs.len() as int);
}

proof fn lemma_best_upto_characterization(rs: Seq<RangeModel>, p: u128, n: int)
    requires
        n <= rs.len(),
    ensures
        match best_upto(rs, p, n) {
            None => forall|i: int| 0 <= i < n ==> !qualifies(rs[i], p),
            Some(j) => 0 <= j < n && qualifies(rs[j], p) && forall|i: int|
                0 <= i < n && qualifies(#[trigger] rs[i], p) ==> rs[j].end <= rs[i].end,
        },
    decreases n,
{
    if n > 0 {
        lemma_best_upto_characterization(rs, p, n - 1);
    }
}

/// Ranges of one table that never overlap pairwise.
pub open spec fn non_overlapping(rs: Seq<RangeModel>) -> bool {
    forall|i: int, j: int|
        0 <= i < j < rs.len() ==> (#[trigger] rs[i]).end < (#[trigger] rs[j]).start || rs[j].end
            < rs[i].start
}

/// With non-overlapping ranges, a containing range is the unique one, and
/// the lookup answers exactly it.
pub proof fn lemma_lookup_unique(rs: Seq<RangeModel>, p: u128, k: int)
    requires
        non_overlapping(rs),
        0 <= k < rs.len(),
        qualifies(rs[k], p),
    ensures
        lookup(rs, p) == Some(k),
{
    lemma_lookup_characterization(rs, p);
    assert(forall|i: int|
        0 <= i < rs.len() && i != k ==> !qualifies(#[trigger] rs[i], p)) by {
        assert forall|i: int| 0 <= i < rs.len() && i != k implies !qualifies(
            #[trigger] rs[i],
            p,
        ) by {
            if qualifies(rs[i], p) {
                if i < k {
                    assert(rs[i].end < rs[k].start || rs[k].end < rs[i].start);
                } else {
                    assert(rs[k].end < rs[i].start || rs[i].end < rs[k].start);
                }
            }
        }
    }
    match lookup(rs, p) {
        None => {
            assert(qualifies(rs[k], p));
        },
        Some(j) => {
            assert(qualifies(rs[j], p));
            assert(j == k);
        },
    }
}

/// Self-consistency of a dataset of well-formed, pairwise non-overlapping
/// ranges: looking up a stored range's own `start` or `end` answers exactly
/// that range.
pub proof fn lemma_lookup_self(rs: Seq<RangeModel>, k: int)
    requires
        non_overlapping(rs),
        0 <= k < rs.len(),
        rs[k].start <= rs[k].end,
    ensures
        lookup(rs, rs[k].start) == Some(k),
        lookup(rs, rs[k].end) == Some(k),
{
    lemma_lookup_unique(rs, rs[k].start, k);
    lemma_lookup_unique(rs, rs[k].end, k);
}

/// The IP-range geolocation store: one table of ranges per address family,
/// filled in bulk by ingestion and answering point lookups.
pub struct DBIP {
    v4: Vec<RangeRecord>,
    v6: Vec<RangeRecord>,
}

impl View for DBIP {
    type V = DbModel;

    closed spec fn view(&self) -> DbModel {
        DbModel { v4: recs_model(self.v4@), v6: recs_model(self.v6@) }
    }
}

impl DBIP {
    /// Each table holds only ranges of its family, with v4 values inside the
    /// 32-bit space.
    pub open spec fn wf(self) -> bool {
        &&& forall|i: int|
            0 <= i < self@.v4.len() ==> (#[trigger] self@.v4[i]).family == Family::V4
                && self@.v4[i].start < 0x1_0000_0000 && self@.v4[i].end < 0x1_0000_0000
        &&& forall|i: int| 0 <= i < self@.v6.len() ==> (#[trigger] self@.v6[i]).family == Family::V6
    }

    /// A fresh store with both family tables created and empty.
    pub fn new() -> (r: DBIP)
        ensures
            r@.v4 == Seq::<RangeModel>::empty(),
            r@.v6 == Seq::<RangeModel>::empty(),
            r.wf(),
    {
        let r = DBIP { v4: Vec::new(), v6: Vec::new() };
        proof {
            assert(r@.v4 =~= Seq::<RangeModel>::empty());
            assert(r@.v6 =~= Seq::<RangeModel>::empty());
        }
        r
    }

    /// The committed records of one family's table, in commit order.
    pub fn table_records(&self, f: Family) -> (r: &Vec<RangeRecord>)
        ensures
            recs_model(r@) == self@.table(f),
    {
        match f {
            Family::V4 => &self.v4,
            Family::V6 => &self.v6,
        }
    }

    /// How many range records the store holds, both families together.
    pub fn committed_rows(&self) -> (n: usize)
        requires
            self@.v4.len() + self@.v6.len() <= usize::MAX,
        ensures
            n == self@.v4.len() + self@.v6.len(),
    {
        self.v4.len() + self.v6.len()
    }

    /// Commits one batch atomically: every appended row becomes visible at
    /// once, each at the back of its family's table, and the batch buffers
    /// are left empty.
    pub fn commit_batch(&mut self, batch_v4: &mut Vec<RangeRecord>, batch_v6: &mut Vec<RangeRecord>)
        ensures
            final(self)@.v4 == old(self)@.v4 + recs_model(old(batch_v4)@),
            final(self)@.v6 == old(self)@.v6 + recs_model(old(batch_v6)@),
            final(batch_v4)@.len() == 0,
            final(batch_v6)@.len() == 0,
    {
        let ghost old_v4 = self.v4@;
        let ghost old_b4 = batch_v4@;
        let ghost old_v6 = self.v6@;
        let ghost old_b6 = batch_v6@;
        self.v4.append(batch_v4);
        self.v6.append(batch_v6);
        proof {
            assert(recs_model(old_v4 + old_b4) =~= recs_model(old_v4) + recs_model(old_b4));
            assert(recs_model(old_v6 + old_b6) =~= recs_model(old_v6) + recs_model(old_b6));
        }
    }

    /// The lookup entry point: the attributes of the stored range of the
    /// address's family that contains it, preferring the smallest `end`;
    /// `Error::NotFound` exactly when no stored range contains it.
    pub fn location_by_ip(&self, ip: &IpAddress) -> (r: Result<Location, Error>)
        ensures
            match lookup(self@.table(ip.spec_family()), ip.spec_value() as u128) {
                Some(j) => r matches Ok(loc) && loc@ == self@.table(ip.spec_family())[j].attrs,
                None => r == Err::<Location, Error>(Error::NotFound),
            },
    {
        let p = ip.value();
        let tbl: &Vec<RangeRecord> = match ip.family() {
            Family::V4 => &self.v4,
            Family::V6 => &self.v6,
        };
        let ghost tblm = self@.table(ip.spec_family());
        proof {
            assert(tblm.len() == tbl@.len());
        }
        let mut best: Option<usize> = None;
        let mut i: usize = 0;
        while i < tbl.len()
            invariant
                i <= tbl@.len(),
                tblm == recs_model(tbl@),
                tblm.len() == tbl@.len(),
                p as nat == ip.spec_value(),
                match best {
                    Some(j) => j < i && best_upto(tblm, p, i as int) == Some(j as int),
                    None => best_upto(tblm, p, i as int) is None,
                },
            decreases tbl@.len() - i,
        {
            let rec = &tbl[i];
            proof {
                assert(tblm[i as int] == tbl@[i as int]@);
            }
            if rec.start <= p && p <= rec.end {
                best = match best {
                    None => Some(i),
                    Some(j) => if rec.end < tbl[j].end {
                        Some(i)
                    } else {
                        Some(j)
                    },
                };
            }
            i = i + 1;
        }
        match best {
            Some(j) => Ok(tbl[j].attrs.duplicate()),
            None => Err(Error::NotFound),
        }
    }
}

} // verus!
