use vstd::prelude::*;

use crate::model::{AllocInfo, AllocRecord, records};

verus! {

/// Totals over a whole report.
#[derive(Debug, Clone, Copy, PartialEq, Eq)]
pub struct AllocGlobal {
    pub size: u64,
    pub calls: u64,
}

/// The sum of `f` over the records.
pub open spec fn sum_of(rs: Seq<AllocRecord>, f: spec_fn(AllocRecord) -> nat) -> nat
    decreases rs.len(),
{
    if rs.len() == 0 {
        0
    } else {
        sum_of(rs.drop_last(), f) + f(rs.last())
    }
}

pub open spec fn size_of() -> spec_fn(AllocRecord) -> nat {
    |r: AllocRecord| r.size as nat
}

pub open spec fn calls_of() -> spec_fn(AllocRecord) -> nat {
    |r: AllocRecord| r.calls as nat
}

/// The sum of the sizes of the records.
pub open spec fn total_size(rs: Seq<AllocRecord>) -> nat {
    sum_of(rs, size_of())
}

/// The sum of the call counts of the records.
pub open spec fn total_calls(rs: Seq<AllocRecord>) -> nat {
    sum_of(rs, calls_of())
}

pub proof fn lemma_sum_step(rs: Seq<AllocRecord>, f: spec_fn(AllocRecord) -> nat, i: int)
    requires
        0 <= i < rs.len(),
    ensures
        sum_of(rs.take(i + 1), f) == sum_of(rs.take(i), f) + f(rs[i]),
{
    assert(rs.take(i + 1).drop_last() =~= rs.take(i));
}

pub proof fn lemma_sum_prefix_le(rs: Seq<AllocRecord>, f: spec_fn(AllocRecord) -> nat, k: int)
    requires
        0 <= k <= rs.len(),
    ensures
        sum_of(rs.take(k), f) <= sum_of(rs, f),
    decreases rs.len(),
{
    if k == rs.len() {
        assert(rs.take(k) =~= rs);
    } else {
        lemma_sum_prefix_le(rs.drop_last(), f, k);
        assert(rs.drop_last().take(k) =~= rs.take(k));
    }
}

pub proof fn lemma_sum_le(rs: Seq<AllocRecord>, f: spec_fn(AllocRecord) -> nat, g: spec_fn(AllocRecord) -> nat)
    requires
        forall|r: AllocRecord| #[trigger] f(r) <= g(r),
    ensures
        sum_of(rs, f) <= sum_of(rs, g),
    decreases rs.len(),
{
    if rs.len() > 0 {
        lemma_sum_le(rs.drop_last(), f, g);
    }
}

pub proof fn lemma_sum_insert(rs: Seq<AllocRecord>, f: spec_fn(AllocRecord) -> nat, pos: int, x: AllocRecord)
    requires
        0 <= pos <= rs.len(),
    ensures
        sum_of(rs.insert(pos, x), f) == sum_of(rs, f) + f(x),
    decreases rs.len(),
{
    if pos == rs.len() {
        assert(rs.insert(pos, x).drop_last() =~= rs);
    } else {
        lemma_sum_insert(rs.drop_last(), f, pos, x);
        assert(rs.insert(pos, x).drop_last() =~= rs.drop_last().insert(pos, x));
    }
}

pub proof fn lemma_sum_update(rs: Seq<AllocRecord>, f: spec_fn(AllocRecord) -> nat, i: int, x: AllocRecord)
    requires
        0 <= i < rs.len(),
    ensures
        sum_of(rs.update(i, x), f) == sum_of(rs, f) - f(rs[i]) + f(x),
    decreases rs.len(),
{
    if i == rs.len() - 1 {
        assert(rs.update(i, x).drop_last() =~= rs.drop_last());
    } else {
        lemma_sum_update(rs.drop_last(), f, i, x);
        assert(rs.update(i, x).drop_last() =~= rs.drop_last().update(i, x));
    }
}

/// Where `f` vanishes on every record but the one at `i`, the sum is its value there.
pub proof fn lemma_sum_single(rs: Seq<AllocRecord>, f: spec_fn(AllocRecord) -> nat, i: int)
    requires
        0 <= i < rs.len(),
        forall|j: int| 0 <= j < rs.len() && j != i ==> f(#[trigger] rs[j]) == 0,
    ensures
        sum_of(rs, f) == f(rs[i]),
    decreases rs.len(),
{
    if i == rs.len() - 1 {
        lemma_sum_zero(rs.drop_last(), f);
    } else {
        lemma_sum_single(rs.drop_last(), f, i);
    }
}

pub proof fn lemma_sum_zero(rs: Seq<AllocRecord>, f: spec_fn(AllocRecord) -> nat)
    requires
        forall|j: int| 0 <= j < rs.len() ==> f(#[trigger] rs[j]) == 0,
    ensures
        sum_of(rs, f) == 0,
    decreases rs.len(),
{
    if rs.len() > 0 {
        lemma_sum_zero(rs.drop_last(), f);
    }
}

/// The total size and the total call count of all records, or none where
/// either total exceeds the range of `u64`.
pub fn aggregate_global(data: &[AllocInfo]) -> (r: Option<AllocGlobal>)
    ensures
        r is Some <==> total_size(records(data@)) <= u64::MAX && total_calls(records(data@))
            <= u64::MAX,
        r matches Some(g) ==> g.size == total_size(records(data@)) && g.calls == total_calls(
            records(data@),
        ),
{
    let ghost rs = records(data@);
    let mut size: u64 = 0;
    let mut calls: u64 = 0;
    let mut i: usize = 0;
    assert(rs.take(0) =~= Seq::<AllocRecord>::empty());
    while i < data.len()
        invariant
            i <= data.len(),
            rs == records(data@),
            size == total_size(rs.take(i as int)),
            calls == total_calls(rs.take(i as int)),
        decreases data.len() - i,
    {
        proof {
            lemma_sum_step(rs, size_of(), i as int);
            lemma_sum_step(rs, calls_of(), i as int);
            lemma_sum_prefix_le(rs, size_of(), i + 1);
            lemma_sum_prefix_le(rs, calls_of(), i + 1);
        }
        let info = &data[i];
        match size.checked_add(info.size) {
            Some(s) => size = s,
            None => return None,
        }
        match calls.checked_add(info.calls) {
            Some(c) => calls = c,
            None => return None,
        }
        i = i + 1;
    }
    assert(rs.take(i as int) =~= rs);
    Some(AllocGlobal { size, calls })
}

} // verus!
