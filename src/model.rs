use vstd::prelude::*;

verus! {

/// One data line of a report: bytes attributed to a tag, and its allocation count.
#[derive(Debug, Clone, PartialEq, Eq)]
pub struct AllocInfo {
    pub size: u64,
    pub calls: u64,
    pub tag: String,
}

/// The mathematical content of an `AllocInfo`.
pub struct AllocRecord {
    pub size: u64,
    pub calls: u64,
    pub tag: Seq<char>,
}

impl View for AllocInfo {
    type V = AllocRecord;

    open spec fn view(&self) -> AllocRecord {
        AllocRecord { size: self.size, calls: self.calls, tag: self.tag@ }
    }
}

/// The models of a sequence of records, element by element.
pub open spec fn records(v: Seq<AllocInfo>) -> Seq<AllocRecord> {
    v.map_values(|r: AllocInfo| r@)
}

} // verus!
