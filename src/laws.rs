use vstd::prelude::*;

use crate::aggregate::{sum_of, total_calls, total_size};
use crate::model::{AllocInfo, AllocRecord};
use crate::order::{
    lemma_lex_asymmetric, lemma_lex_irreflexive, lemma_lex_not_lt_transitive, lemma_lex_total,
};
use crate::parse::{lines, parse_line, parse_lines, parse_report};
use crate::pipeline::{at_least, insert_pos, precedes, sorted_by, SortBy};
use crate::tree::{
    calls_under, has_entry, is_slash_prefix, size_under, tree_calls, tree_entries, tree_key,
    tree_size,
};

verus! {

/// The size that the data lines among `ls` carry; other lines carry none.
pub open spec fn lines_size(ls: Seq<Seq<char>>) -> nat
    decreases ls.len(),
{
    if ls.len() == 0 {
        0
    } else {
        lines_size(ls.drop_last()) + match parse_line(ls.last()) {
            Some(r) => r.size as nat,
            None => 0,
        }
    }
}

/// The call count that the data lines among `ls` carry.
pub open spec fn lines_calls(ls: Seq<Seq<char>>) -> nat
    decreases ls.len(),
{
    if ls.len() == 0 {
        0
    } else {
        lines_calls(ls.drop_last()) + match parse_line(ls.last()) {
            Some(r) => r.calls as nat,
            None => 0,
        }
    }
}

pub proof fn lemma_parsed_totals(ls: Seq<Seq<char>>)
    ensures
        total_size(parse_lines(ls)) == lines_size(ls),
        total_calls(parse_lines(ls)) == lines_calls(ls),
    decreases ls.len(),
{
    if ls.len() > 0 {
        lemma_parsed_totals(ls.drop_last());
        match parse_line(ls.last()) {
            Some(r) => {
                assert(parse_lines(ls).drop_last() == parse_lines(ls.drop_last()));
            },
            None => {},
        }
    }
}

/// The global totals of a report are the sums over exactly its data lines:
/// comments and lines of fewer than three fields add nothing.
pub proof fn lemma_global_totals_count_data_lines(text: Seq<char>)
    ensures
        total_size(parse_report(text)) == lines_size(lines(text)),
        total_calls(parse_report(text)) == lines_calls(lines(text)),
{
    lemma_parsed_totals(lines(text));
}

/// Every record adds its whole size and call count to each of its tag's keys:
/// a record tagged `a/b/c` counts in full under `a`, `a/b` and `a/b/c`.
pub proof fn lemma_tree_counts_each_record(rs: Seq<AllocRecord>, i: int, k: Seq<char>)
    requires
        0 <= i < rs.len(),
        is_slash_prefix(k, rs[i].tag),
    ensures
        tree_key(rs, k),
        tree_size(rs, k) >= rs[i].size,
        tree_calls(rs, k) >= rs[i].calls,
    decreases rs.len(),
{
    if i < rs.len() - 1 {
        lemma_tree_counts_each_record(rs.drop_last(), i, k);
    }
}

/// The first component of a tag: all of it before its first '/'.
pub open spec fn root_of(t: Seq<char>) -> Seq<char>
    decreases t.len(),
{
    if t.len() == 0 || t[0] == '/' {
        Seq::empty()
    } else {
        seq![t[0]] + root_of(t.drop_first())
    }
}

pub open spec fn size_with_root(c: Seq<char>) -> spec_fn(AllocRecord) -> nat {
    |r: AllocRecord|
        if root_of(r.tag) == c {
            r.size as nat
        } else {
            0
        }
}

pub open spec fn calls_with_root(c: Seq<char>) -> spec_fn(AllocRecord) -> nat {
    |r: AllocRecord|
        if root_of(r.tag) == c {
            r.calls as nat
        } else {
            0
        }
}

proof fn lemma_root_is_slash_prefix(c: Seq<char>, t: Seq<char>)
    requires
        forall|i: int| 0 <= i < c.len() ==> c[i] != '/',
    ensures
        is_slash_prefix(c, t) <==> root_of(t) == c,
    decreases t.len(),
{
    if t.len() > 0 && t[0] != '/' {
        if c.len() > 0 {
            let c1 = c.drop_first();
            lemma_root_is_slash_prefix(c1, t.drop_first());
            if c.len() <= t.len() {
                assert(t.drop_first().take(c1.len() as int) =~= t.take(c.len() as int).drop_first());
            }
            if is_slash_prefix(c, t) {
                assert(c[0] == t[0]);
                assert(c =~= seq![t[0]] + c1);
            }
            if root_of(t) == c {
                assert(root_of(t).drop_first() =~= root_of(t.drop_first()));
                assert(t.take(c.len() as int) =~= seq![t[0]] + t.drop_first().take(c1.len() as int));
            }
        } else {
            assert(root_of(t).len() > 0);
        }
    } else {
        assert(t.take(0) =~= Seq::<char>::empty());
        if c.len() > 0 && is_slash_prefix(c, t) {
            assert(t.take(c.len() as int)[0] == t[0]);
        }
    }
}

/// The entry of a top-level component (a key without '/') holds the sums over
/// exactly the records whose tag starts with that component.
pub proof fn lemma_tree_root_key(rs: Seq<AllocRecord>, c: Seq<char>)
    requires
        forall|i: int| 0 <= i < c.len() ==> c[i] != '/',
    ensures
        tree_size(rs, c) == sum_of(rs, size_with_root(c)),
        tree_calls(rs, c) == sum_of(rs, calls_with_root(c)),
{
    assert forall|r: AllocRecord| #[trigger] size_under(c)(r) == size_with_root(c)(r) by {
        lemma_root_is_slash_prefix(c, r.tag);
    }
    assert forall|r: AllocRecord| #[trigger] calls_under(c)(r) == calls_with_root(c)(r) by {
        lemma_root_is_slash_prefix(c, r.tag);
    }
    assert(size_under(c) =~= size_with_root(c));
    assert(calls_under(c) =~= calls_with_root(c));
}

proof fn lemma_not_precedes_transitive(a: AllocInfo, b: AllocInfo, c: AllocInfo, by: SortBy)
    requires
        !precedes(a, b, by),
        !precedes(b, c, by),
    ensures
        !precedes(a, c, by),
{
    if by == SortBy::Tag {
        lemma_lex_not_lt_transitive(a.tag@, b.tag@, c.tag@);
    }
}

proof fn lemma_precedes_asymmetric(a: AllocInfo, b: AllocInfo, by: SortBy)
    requires
        precedes(a, b, by),
    ensures
        !precedes(b, a, by),
{
    if by == SortBy::Tag {
        lemma_lex_asymmetric(a.tag@, b.tag@);
    }
}

proof fn lemma_insert_pos(t: Seq<AllocInfo>, x: AllocInfo, by: SortBy)
    ensures
        0 <= insert_pos(t, x, by) <= t.len(),
        forall|k: int| insert_pos(t, x, by) <= k < t.len() ==> precedes(x, #[trigger] t[k], by),
        insert_pos(t, x, by) > 0 ==> !precedes(x, t[insert_pos(t, x, by) - 1], by),
    decreases t.len(),
{
    if t.len() > 0 && precedes(x, t.last(), by) {
        lemma_insert_pos(t.drop_last(), x, by);
        assert forall|k: int| insert_pos(t, x, by) <= k < t.len() implies precedes(
            x,
            #[trigger] t[k],
            by,
        ) by {
            if k < t.len() - 1 {
                assert(t[k] == t.drop_last()[k]);
            }
        }
    }
}

/// Sorting keeps the records and orders them: no record is listed after one
/// that it precedes. By size or calls the values do not increase down the list;
/// by tag the tags do not decrease.
pub proof fn lemma_sorted_by_ordered(s: Seq<AllocInfo>, by: SortBy)
    ensures
        sorted_by(s, by).to_multiset() == s.to_multiset(),
        forall|i: int, j: int|
            0 <= i < j < sorted_by(s, by).len() ==> !precedes(
                #[trigger] sorted_by(s, by)[j],
                #[trigger] sorted_by(s, by)[i],
                by,
            ),
    decreases s.len(),
{
    broadcast use vstd::seq_lib::to_multiset_insert;

    if s.len() > 0 {
        let t = sorted_by(s.drop_last(), by);
        let x = s.last();
        let p = insert_pos(t, x, by);
        let u = sorted_by(s, by);
        lemma_sorted_by_ordered(s.drop_last(), by);
        lemma_insert_pos(t, x, by);
        s.drop_last().to_multiset_ensures();
        assert(s.drop_last().push(x) =~= s);
        assert(u == t.insert(p, x));
        assert forall|i: int, j: int| 0 <= i < j < u.len() implies !precedes(
            #[trigger] u[j],
            #[trigger] u[i],
            by,
        ) by {
            if j < p {
                assert(u[i] == t[i] && u[j] == t[j]);
            } else if j == p {
                if i < p - 1 {
                    assert(!precedes(t[p - 1], t[i], by));
                    lemma_not_precedes_transitive(x, t[p - 1], t[i], by);
                }
            } else if i == p {
                lemma_precedes_asymmetric(x, t[j - 1], by);
            } else if i < p {
                assert(u[i] == t[i] && u[j] == t[j - 1]);
            } else {
                assert(u[i] == t[i - 1] && u[j] == t[j - 1]);
            }
        }
    }
}

/// In the tree view the minimum size applies to each key's aggregated total,
/// not to the records under it: a key is listed exactly when its total reaches
/// the minimum, however small the records that make up that total.
pub proof fn lemma_tree_view_filters_totals(
    rs: Seq<AllocRecord>,
    t: Seq<AllocInfo>,
    min_size: u64,
    k: Seq<char>,
)
    requires
        tree_entries(rs, t),
        tree_key(rs, k),
    ensures
        has_entry(t.filter(at_least(min_size)), k) <==> tree_size(rs, k) >= min_size,
{
    broadcast use vstd::seq_lib::group_filter_ensures;

    let f = t.filter(at_least(min_size));
    assert(has_entry(t, k));
    let i = choose|i: int| 0 <= i < t.len() && #[trigger] t[i].tag@ == k;
    if tree_size(rs, k) >= min_size {
        t.lemma_filter_contains(at_least(min_size), i);
        let m = choose|m: int| 0 <= m < f.len() && f[m] == t[i];
        assert(f[m].tag@ == k);
    }
    if has_entry(f, k) {
        let m = choose|m: int| 0 <= m < f.len() && #[trigger] f[m].tag@ == k;
        t.lemma_filter_pred(at_least(min_size), m);
        t.lemma_filter_contains_rev(at_least(min_size), f[m]);
        assert(f.contains(f[m]));
        let n = choose|n: int| 0 <= n < t.len() && t[n] == f[m];
        assert(t[n].tag@ == k);
    }
}

/// Records that the order `by` does not tell apart from `x`.
pub open spec fn ties_with(x: AllocInfo, by: SortBy) -> spec_fn(AllocInfo) -> bool {
    |y: AllocInfo| !precedes(x, y, by) && !precedes(y, x, by)
}

proof fn lemma_ties_exclude_precedence(x: AllocInfo, y: AllocInfo, z: AllocInfo, by: SortBy)
    requires
        ties_with(x, by)(y),
        ties_with(x, by)(z),
    ensures
        !precedes(y, z, by),
{
    if by == SortBy::Tag {
        lemma_lex_total(x.tag@, y.tag@);
        lemma_lex_total(x.tag@, z.tag@);
        lemma_lex_irreflexive(y.tag@);
    }
}

proof fn lemma_filter_insert_skipped(t: Seq<AllocInfo>, p: int, y: AllocInfo, f: spec_fn(AllocInfo) -> bool)
    requires
        0 <= p <= t.len(),
        !f(y),
    ensures
        t.insert(p, y).filter(f) == t.filter(f),
    decreases t.len(),
{
    reveal(Seq::filter);
    if p == t.len() {
        assert(t.insert(p, y).drop_last() =~= t);
    } else {
        lemma_filter_insert_skipped(t.drop_last(), p, y, f);
        assert(t.insert(p, y).drop_last() =~= t.drop_last().insert(p, y));
    }
}

proof fn lemma_filter_insert_kept(t: Seq<AllocInfo>, p: int, y: AllocInfo, f: spec_fn(AllocInfo) -> bool)
    requires
        0 <= p <= t.len(),
        f(y),
        forall|k: int| p <= k < t.len() ==> !f(#[trigger] t[k]),
    ensures
        t.insert(p, y).filter(f) == t.filter(f).push(y),
    decreases t.len(),
{
    reveal(Seq::filter);
    if p == t.len() {
        assert(t.insert(p, y).drop_last() =~= t);
    } else {
        assert(!f(t[t.len() - 1]));
        lemma_filter_insert_kept(t.drop_last(), p, y, f);
        assert(t.insert(p, y).drop_last() =~= t.drop_last().insert(p, y));
    }
}

/// Sorting is stable: the records that tie with any given record come out in
/// the order in which they went in. With the ordering above, this fixes the
/// sorted sequence completely.
pub proof fn lemma_sorted_by_stable(s: Seq<AllocInfo>, by: SortBy, x: AllocInfo)
    ensures
        sorted_by(s, by).filter(ties_with(x, by)) == s.filter(ties_with(x, by)),
    decreases s.len(),
{
    reveal(Seq::filter);
    if s.len() > 0 {
        let f = ties_with(x, by);
        let t = sorted_by(s.drop_last(), by);
        let y = s.last();
        let p = insert_pos(t, y, by);
        lemma_sorted_by_stable(s.drop_last(), by, x);
        lemma_insert_pos(t, y, by);
        if f(y) {
            assert forall|k: int| p <= k < t.len() implies !f(#[trigger] t[k]) by {
                if f(t[k]) {
                    lemma_ties_exclude_precedence(x, y, t[k], by);
                }
            }
            lemma_filter_insert_kept(t, p, y, f);
        } else {
            lemma_filter_insert_skipped(t, p, y, f);
        }
    }
}

} // verus!
