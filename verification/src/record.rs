//! The sole domain entity: one contiguous block of addresses mapped to a
//! place. Labels are free text; the numeric invariant `range_start <=
//! range_end` is what the parser guarantees of every record it emits.

use vstd::prelude::*;

verus! {

/// One address range and its location labels.
#[derive(Debug, PartialEq, Eq)]
pub struct RangeRecord {
    pub id: u32,
    pub range_start: u32,
    pub range_end: u32,
    pub country: String,
    pub region: String,
    pub city: String,
}

/// Mathematical image of a record: the numeric fields and the label texts.
pub ghost struct RecordModel {
    pub id: u32,
    pub range_start: u32,
    pub range_end: u32,
    pub country: Seq<char>,
    pub region: Seq<char>,
    pub city: Seq<char>,
}

impl View for RangeRecord {
    type V = RecordModel;

    open spec fn view(&self) -> RecordModel {
        RecordModel {
            id: self.id,
            range_start: self.range_start,
            range_end: self.range_end,
            country: self.country@,
            region: self.region@,
            city: self.city@,
        }
    }
}

impl Clone for RangeRecord {
    fn clone(&self) -> (r: Self)
        ensures
            r@ == self@,
    {
        RangeRecord {
            id: self.id,
            range_start: self.range_start,
            range_end: self.range_end,
            country: self.country.clone(),
            region: self.region.clone(),
            city: self.city.clone(),
        }
    }
}

/// The models of a sequence of records.
pub open spec fn models_of(s: Seq<RangeRecord>) -> Seq<RecordModel> {
    s.map_values(|r: RangeRecord| r@)
}

/// Whether the range of `r` contains the address `a`.
pub open spec fn contains_addr(r: RecordModel, a: u32) -> bool {
    r.range_start <= a && a <= r.range_end
}

} // verus!
