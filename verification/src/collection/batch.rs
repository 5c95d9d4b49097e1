//! Batches that carry reports and patches.
use super::ingest::{batch_fault, report_time, tellings, well_placed, Report, Told};
use super::upkeep::{patch_fault, patches_of, Patch, PatchOutcome};
use super::{Collection, NEVER};
use crate::text::texts;
use vstd::prelude::*;

verus! {

/// What a batch did.
#[derive(Debug, Clone)]
pub struct Applied {
    /// Reports taken.
    pub accepted: usize,
    /// Reports that came too late.
    pub late: usize,
    pub patched: PatchOutcome,
}

impl Collection {
    /// What becomes of the collection when reports and then patches are applied, and the answer.
    /// If either is refused, nothing is written.
    pub open spec fn applies(
        &self,
        n: Collection,
        reports: Seq<Told>,
        patches: Seq<Told>,
        now: u64,
        r: Result<Applied, String>,
    ) -> bool {
        let names = texts(self.config.text@);
        match r {
            Err(e) => n == *self && Some(e@) == (match patch_fault(
                self.schema,
                self.props_limit,
                names,
                patches,
            ) {
                Some(f) => Some(f),
                None => batch_fault(self.schema, self.props_limit, names, reports),
            }),
            Ok(a) => a.accepted + a.late == reports.len() && exists|mid: Collection| #[trigger]
                self.takes(mid, reports, now, Ok(a.accepted)) && mid.retouches(
                    n,
                    patches,
                    Ok(a.patched),
                ),
        }
    }

    /// Whether there is room for so many more devices on this machine.
    pub fn has_room_for(&self, k: usize) -> (r: bool)
        requires
            self.sound(),
        ensures
            r == self.room_for(k as int),
    {
        let n = self.devices.len();
        if n > 0x0800_0000 || k > 0x0800_0000 {
            return false;
        }
        self.index.has_room_for(k) && self.index.options().can_house(n + k)
    }

    /// Apply reports, then patches, at a time: all or nothing.
    pub fn apply_at(&mut self, reports: &[Report], patches: &[Patch], now: u64) -> (r: Result<
        Applied,
        String,
    >)
        requires
            old(self).sound(),
            old(self).room_for((reports@.len() + patches@.len()) as int),
            now != NEVER,
            forall|i: int|
                0 <= i < reports@.len() ==> well_placed(
                    (#[trigger] reports@[i]).at,
                    reports@[i].told().cells,
                ),
            forall|i: int|
                0 <= i < patches@.len() ==> well_placed(
                    None,
                    (#[trigger] patches@[i]).told().cells,
                ),
        ensures
            old(self).applies(*final(self), tellings(reports@), patches_of(patches@), now, r),
    {
        let ghost o = *self;
        if let Some(e) = self.check_patches(patches) {
            return Err(e);
        }
        proof {
            self.lemma_room(reports@.len() as int, (reports@.len() + patches@.len()) as int);
        }
        let accepted = match self.upsert_at(reports, now) {
            Ok(n) => n,
            Err(e) => {
                return Err(e);
            },
        };
        let ghost mid = *self;
        proof {
            let q = tellings(reports@);
            super::ingest::lemma_reported_len(o.recs(), q, o.rules(now), q.len() as int);
            self.lemma_grown(o, reports@.len() as int, patches@.len() as int);
        }
        let late = reports.len() - accepted;
        match self.patch(patches) {
            Ok(patched) => {
                let a = Applied { accepted, late, patched };
                proof {
                    let (q, p) = (tellings(reports@), patches_of(patches@));
                    assert(q.len() == reports@.len());
                    assert(o.takes(mid, q, now, Ok(a.accepted)));
                    assert(mid.retouches(*self, p, Ok(a.patched)));
                    assert(o.applies(*self, q, p, now, Ok(a)));
                }
                Ok(a)
            },
            Err(e) => {
                proof {
                    assert(mid.schema == o.schema && mid.props_limit == o.props_limit && mid.config
                        == o.config);
                }
                vstd::pervasive::unreached()
            },
        }
    }

    /// Apply reports, then patches, now: all or nothing.
    pub fn apply(&mut self, reports: &[Report], patches: &[Patch]) -> (r: Result<Applied, String>)
        requires
            old(self).sound(),
            old(self).room_for((reports@.len() + patches@.len()) as int),
            forall|i: int|
                0 <= i < reports@.len() ==> well_placed(
                    (#[trigger] reports@[i]).at,
                    reports@[i].told().cells,
                ),
            forall|i: int|
                0 <= i < patches@.len() ==> well_placed(
                    None,
                    (#[trigger] patches@[i]).told().cells,
                ),
        ensures
            exists|now: u64|
                now != NEVER && #[trigger] old(self).applies(
                    *final(self),
                    tellings(reports@),
                    patches_of(patches@),
                    now,
                    r,
                ),
    {
        self.apply_at(reports, patches, report_time())
    }
}

} // verus!
