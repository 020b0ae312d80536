use vstd::prelude::*;

use crate::model::AllocInfo;
use crate::order::{lex_lt, tag_less};
use crate::tree::{aggregate_tree, tree_entries};
use crate::aggregate::{total_calls, total_size};
use crate::model::records;

verus! {

/// The orders in which the flat view can list records.
#[derive(Debug, Clone, Copy, PartialEq, Eq)]
pub enum SortBy {
    /// Largest size first.
    Size,
    /// Largest call count first.
    Calls,
    /// Tags in ascending lexicographic order.
    Tag,
}

/// Under the order `by`, record `a` must be listed before record `b`.
pub open spec fn precedes(a: AllocInfo, b: AllocInfo, by: SortBy) -> bool {
    match by {
        SortBy::Size => a.size > b.size,
        SortBy::Calls => a.calls > b.calls,
        SortBy::Tag => lex_lt(a.tag@, b.tag@),
    }
}

/// Where `x` enters the sorted `s`: after every element that it need not precede.
pub open spec fn insert_pos(s: Seq<AllocInfo>, x: AllocInfo, by: SortBy) -> int
    decreases s.len(),
{
    if s.len() == 0 {
        0
    } else if precedes(x, s.last(), by) {
        insert_pos(s.drop_last(), x, by)
    } else {
        s.len() as int
    }
}

/// The stable sort of `s` under `by`: each element in turn enters the sorted
/// earlier elements just after the last one that it does not precede.
pub open spec fn sorted_by(s: Seq<AllocInfo>, by: SortBy) -> Seq<AllocInfo>
    decreases s.len(),
{
    if s.len() == 0 {
        s
    } else {
        let t = sorted_by(s.drop_last(), by);
        t.insert(insert_pos(t, s.last(), by), s.last())
    }
}

pub open spec fn at_least(min_size: u64) -> spec_fn(AllocInfo) -> bool {
    |r: AllocInfo| r.size >= min_size
}

/// The first `n` elements of `s`, or all of them where there are fewer.
pub open spec fn first_n(s: Seq<AllocInfo>, n: usize) -> Seq<AllocInfo> {
    if n < s.len() {
        s.take(n as int)
    } else {
        s
    }
}

/// The flat view: the records of size at least `min_size`, sorted where an
/// order is given (else in their own order), then cut to `max_lines`.
pub open spec fn flat_rows(
    s: Seq<AllocInfo>,
    min_size: u64,
    sort_by: Option<SortBy>,
    max_lines: usize,
) -> Seq<AllocInfo> {
    let kept = s.filter(at_least(min_size));
    let ordered = match sort_by {
        Some(by) => sorted_by(kept, by),
        None => kept,
    };
    first_n(ordered, max_lines)
}

fn goes_before(a: &AllocInfo, b: &AllocInfo, by: SortBy) -> (r: bool)
    ensures
        r == precedes(*a, *b, by),
{
    match by {
        SortBy::Size => a.size > b.size,
        SortBy::Calls => a.calls > b.calls,
        SortBy::Tag => tag_less(&a.tag, &b.tag),
    }
}

/// Sorts the records stably: by size or call count, largest first, or by tag,
/// ascending. Records that the order does not tell apart keep their order.
pub fn sort_allocinfo(data: &mut Vec<AllocInfo>, sort_by: SortBy)
    ensures
        final(data)@ == sorted_by(old(data)@, sort_by),
{
    let ghost s = data@;
    let mut src: Vec<AllocInfo> = Vec::new();
    std::mem::swap(data, &mut src);
    let mut out: Vec<AllocInfo> = Vec::new();
    assert(s.take(0) =~= Seq::<AllocInfo>::empty());
    for x in it: src.into_iter()
        invariant
            it.seq() == s,
            0 <= it.index() <= s.len(),
            out@ == sorted_by(s.take(it.index() as int), sort_by),
    {
        let ghost pre = s.take(it.index() as int);
        assert(s.take(it.index() + 1).drop_last() =~= pre);
        assert(s.take(it.index() + 1).last() == x);
        let mut pos: usize = out.len();
        assert(out@.take(pos as int) =~= out@);
        while pos > 0 && goes_before(&x, &out[pos - 1], sort_by)
            invariant
                pos <= out.len(),
                insert_pos(out@, x, sort_by) == insert_pos(out@.take(pos as int), x, sort_by),
            decreases pos,
        {
            assert(out@.take(pos as int).drop_last() =~= out@.take(pos - 1));
            pos = pos - 1;
        }
        out.insert(pos, x);
    }
    assert(s.take(s.len() as int) =~= s);
    *data = out;
}

/// The records of size at least `min_size`, in their order.
pub fn filter_min_size(data: Vec<AllocInfo>, min_size: u64) -> (r: Vec<AllocInfo>)
    ensures
        r@ == data@.filter(at_least(min_size)),
{
    let ghost s = data@;
    let mut out: Vec<AllocInfo> = Vec::new();
    assert(s.take(0) =~= Seq::<AllocInfo>::empty());
    for x in it: data.into_iter()
        invariant
            it.seq() == s,
            0 <= it.index() <= s.len(),
            out@ == s.take(it.index() as int).filter(at_least(min_size)),
    {
        assert(s.take(it.index() + 1).drop_last() =~= s.take(it.index() as int));
        assert(s.take(it.index() + 1).last() == x);
        let ghost pre = s.take(it.index() as int).filter(at_least(min_size));
        let ghost next = s.take(it.index() + 1);
        reveal(Seq::filter);
        assert(next.filter(at_least(min_size)) == if at_least(min_size)(x) {
            pre.push(x)
        } else {
            pre
        });
        if x.size >= min_size {
            out.push(x);
        }
    }
    assert(s.take(s.len() as int) =~= s);
    out
}

/// The flat view of the records: those of size at least `min_size`, sorted
/// where an order is given and otherwise in their own order, and of those the
/// first `max_lines`.
pub fn flat_view(data: Vec<AllocInfo>, min_size: u64, sort_by: Option<SortBy>, max_lines: usize) -> (r: Vec<AllocInfo>)
    ensures
        r@ == flat_rows(data@, min_size, sort_by, max_lines),
{
    let mut kept = filter_min_size(data, min_size);
    match sort_by {
        Some(by) => sort_allocinfo(&mut kept, by),
        None => {},
    }
    if max_lines < kept.len() {
        kept.truncate(max_lines);
        assert(kept@ =~= flat_rows(data@, min_size, sort_by, max_lines));
    }
    kept
}

/// The tree view of the records: the entries of `aggregate_tree` whose
/// aggregated size is at least `min_size`, in ascending order of their keys.
pub fn tree_view(data: &[AllocInfo], min_size: u64) -> (r: Vec<AllocInfo>)
    requires
        total_size(records(data@)) <= u64::MAX,
        total_calls(records(data@)) <= u64::MAX,
    ensures
        exists|t: Seq<AllocInfo>|
            #[trigger] tree_entries(records(data@), t) && r@ == t.filter(at_least(min_size)),
{
    let t = aggregate_tree(data);
    let ghost tv = t@;
    let r = filter_min_size(t, min_size);
    assert(tree_entries(records(data@), tv));
    r
}

} // verus!
