use vstd::prelude::*;

use crate::aggregate::{
    calls_of, lemma_sum_insert, lemma_sum_le, lemma_sum_prefix_le, lemma_sum_single,
    lemma_sum_step, lemma_sum_update, size_of, sum_of, total_calls, total_size,
};
use crate::model::{AllocInfo, AllocRecord, records};
use crate::order::{lemma_lex_irreflexive, lemma_lex_total, lemma_lex_transitive, lex_lt, tag_less};
use crate::parse::{chars_of, push_char};

verus! {

/// `k` is the tag `t` itself, or `t` cut just before one of its '/': one of the
/// keys under which a record tagged `t` is counted in the tree.
pub open spec fn is_slash_prefix(k: Seq<char>, t: Seq<char>) -> bool {
    k.len() <= t.len() && t.take(k.len() as int) == k && (k.len() == t.len() || t[k.len() as int]
        == '/')
}

/// `k` is a key of the tree of the records: a slash prefix of some record's tag.
pub open spec fn tree_key(rs: Seq<AllocRecord>, k: Seq<char>) -> bool {
    exists|i: int| 0 <= i < rs.len() && is_slash_prefix(k, #[trigger] rs[i].tag)
}

pub open spec fn size_under(k: Seq<char>) -> spec_fn(AllocRecord) -> nat {
    |r: AllocRecord|
        if is_slash_prefix(k, r.tag) {
            r.size as nat
        } else {
            0
        }
}

pub open spec fn calls_under(k: Seq<char>) -> spec_fn(AllocRecord) -> nat {
    |r: AllocRecord|
        if is_slash_prefix(k, r.tag) {
            r.calls as nat
        } else {
            0
        }
}

/// The size aggregated under key `k`: the sum over the records counted under it.
pub open spec fn tree_size(rs: Seq<AllocRecord>, k: Seq<char>) -> nat {
    sum_of(rs, size_under(k))
}

/// The call count aggregated under key `k`.
pub open spec fn tree_calls(rs: Seq<AllocRecord>, k: Seq<char>) -> nat {
    sum_of(rs, calls_under(k))
}

/// Tags strictly ascending: sorted, and no tag twice.
pub open spec fn tags_ascending(v: Seq<AllocInfo>) -> bool {
    forall|i: int, j: int| 0 <= i < j < v.len() ==> lex_lt(#[trigger] v[i].tag@, #[trigger] v[j].tag@)
}

/// `v` is the tree of the records: entries in ascending order of their keys,
/// one for each key, each holding the sums aggregated under its key.
pub open spec fn tree_entries(rs: Seq<AllocRecord>, v: Seq<AllocInfo>) -> bool {
    &&& tags_ascending(v)
    &&& forall|i: int|
        0 <= i < v.len() ==> tree_key(rs, #[trigger] v[i].tag@) && v[i].size == tree_size(
            rs,
            v[i].tag@,
        ) && v[i].calls == tree_calls(rs, v[i].tag@)
    &&& forall|k: Seq<char>| #[trigger] tree_key(rs, k) ==> has_entry(v, k)
}

pub open spec fn has_entry(v: Seq<AllocInfo>, k: Seq<char>) -> bool {
    exists|i: int| 0 <= i < v.len() && #[trigger] v[i].tag@ == k
}

pub open spec fn size_at(k: Seq<char>) -> spec_fn(AllocRecord) -> nat {
    |r: AllocRecord|
        if r.tag == k {
            r.size as nat
        } else {
            0
        }
}

pub open spec fn calls_at(k: Seq<char>) -> spec_fn(AllocRecord) -> nat {
    |r: AllocRecord|
        if r.tag == k {
            r.calls as nat
        } else {
            0
        }
}

/// In a vector of entries with ascending tags, the sums at an entry's tag are its own counts.
proof fn lemma_entry_sums(v: Seq<AllocInfo>, i: int)
    requires
        tags_ascending(v),
        0 <= i < v.len(),
    ensures
        sum_of(records(v), size_at(v[i].tag@)) == v[i].size,
        sum_of(records(v), calls_at(v[i].tag@)) == v[i].calls,
{
    let rs = records(v);
    assert forall|j: int| 0 <= j < rs.len() && j != i implies rs[j].tag != v[i].tag@ by {
        if j < i {
            assert(lex_lt(v[j].tag@, v[i].tag@));
        } else {
            assert(lex_lt(v[i].tag@, v[j].tag@));
        }
        lemma_lex_irreflexive(v[i].tag@);
    }
    lemma_sum_single(rs, size_at(v[i].tag@), i);
    lemma_sum_single(rs, calls_at(v[i].tag@), i);
}

/// Adds `size` and `calls` to the entry tagged `key`, creating it where there is none.
fn add_entry(v: &mut Vec<AllocInfo>, key: String, size: u64, calls: u64)
    requires
        tags_ascending(old(v)@),
        sum_of(records(old(v)@), size_at(key@)) + size <= u64::MAX,
        sum_of(records(old(v)@), calls_at(key@)) + calls <= u64::MAX,
    ensures
        tags_ascending(final(v)@),
        forall|k: Seq<char>| #[trigger]
            sum_of(records(final(v)@), size_at(k)) == sum_of(records(old(v)@), size_at(k)) + if k
                == key@ {
                size as nat
            } else {
                0
            },
        forall|k: Seq<char>| #[trigger]
            sum_of(records(final(v)@), calls_at(k)) == sum_of(records(old(v)@), calls_at(k)) + if k
                == key@ {
                calls as nat
            } else {
                0
            },
        forall|k: Seq<char>| #[trigger]
            has_entry(final(v)@, k) <==> has_entry(old(v)@, k) || k == key@,
{
    let ghost ov = v@;
    let mut lo: usize = 0;
    let mut hi: usize = v.len();
    while lo < hi
        invariant
            lo <= hi <= v.len(),
            v@ == ov,
            tags_ascending(v@),
            forall|i: int| 0 <= i < lo ==> lex_lt(#[trigger] v@[i].tag@, key@),
            forall|i: int| hi <= i < v.len() ==> !lex_lt(#[trigger] v@[i].tag@, key@),
        decreases hi - lo,
    {
        let mid = lo + (hi - lo) / 2;
        if tag_less(&v[mid].tag, &key) {
            assert forall|i: int| 0 <= i < mid + 1 implies lex_lt(#[trigger] v@[i].tag@, key@) by {
                if i < mid {
                    lemma_lex_transitive(v@[i].tag@, v@[mid as int].tag@, key@);
                }
            }
            lo = mid + 1;
        } else {
            assert forall|i: int| mid <= i < v.len() implies !lex_lt(#[trigger] v@[i].tag@, key@) by {
                if i > mid && lex_lt(v@[i].tag@, key@) {
                    lemma_lex_transitive(v@[mid as int].tag@, v@[i].tag@, key@);
                }
            }
            hi = mid;
        }
    }
    if lo < v.len() && v[lo].tag == key {
        proof {
            lemma_entry_sums(v@, lo as int);
        }
        let e = AllocInfo { size: v[lo].size + size, calls: v[lo].calls + calls, tag: key };
        let ghost old_e = v@[lo as int];
        v.set(lo, e);
        assert(records(v@) =~= records(ov).update(lo as int, e@));
        assert forall|k: Seq<char>| #[trigger]
            sum_of(records(v@), size_at(k)) == sum_of(records(ov), size_at(k)) + if k == key@ {
                size as nat
            } else {
                0
            } by {
            lemma_sum_update(records(ov), size_at(k), lo as int, e@);
        }
        assert forall|k: Seq<char>| #[trigger]
            sum_of(records(v@), calls_at(k)) == sum_of(records(ov), calls_at(k)) + if k == key@ {
                calls as nat
            } else {
                0
            } by {
            lemma_sum_update(records(ov), calls_at(k), lo as int, e@);
        }
        assert forall|k: Seq<char>| #[trigger]
            has_entry(v@, k) <==> has_entry(ov, k) || k == key@ by {
            if has_entry(ov, k) {
                let i = choose|i: int| 0 <= i < ov.len() && #[trigger] ov[i].tag@ == k;
                assert(v@[i].tag@ == k);
            }
            if has_entry(v@, k) {
                let i = choose|i: int| 0 <= i < v@.len() && #[trigger] v@[i].tag@ == k;
                assert(ov[i].tag@ == k);
            }
            if k == key@ {
                assert(v@[lo as int].tag@ == k);
            }
        }
    } else {
        proof {
            assert forall|i: int| lo <= i < ov.len() implies lex_lt(key@, #[trigger] ov[i].tag@) by {
                lemma_lex_total(key@, ov[i].tag@);
                if i > lo && ov[i].tag@ == key@ {
                    assert(lex_lt(ov[lo as int].tag@, ov[i].tag@));
                }
            }
        }
        let e = AllocInfo { size, calls, tag: key };
        v.insert(lo, e);
        assert(records(v@) =~= records(ov).insert(lo as int, e@));
        assert forall|i: int, j: int| 0 <= i < j < v@.len() implies lex_lt(
            #[trigger] v@[i].tag@,
            #[trigger] v@[j].tag@,
        ) by {
            if j < lo {
            } else if j == lo {
            } else if i < lo {
                lemma_lex_transitive(v@[i].tag@, e.tag@, v@[j].tag@);
            } else if i == lo {
            } else {
                assert(v@[i] == ov[i - 1] && v@[j] == ov[j - 1]);
            }
        }
        assert forall|k: Seq<char>| #[trigger]
            sum_of(records(v@), size_at(k)) == sum_of(records(ov), size_at(k)) + if k == key@ {
                size as nat
            } else {
                0
            } by {
            lemma_sum_insert(records(ov), size_at(k), lo as int, e@);
        }
        assert forall|k: Seq<char>| #[trigger]
            sum_of(records(v@), calls_at(k)) == sum_of(records(ov), calls_at(k)) + if k == key@ {
                calls as nat
            } else {
                0
            } by {
            lemma_sum_insert(records(ov), calls_at(k), lo as int, e@);
        }
        assert forall|k: Seq<char>| #[trigger]
            has_entry(v@, k) <==> has_entry(ov, k) || k == key@ by {
            if has_entry(ov, k) {
                let i = choose|i: int| 0 <= i < ov.len() && #[trigger] ov[i].tag@ == k;
                if i < lo {
                    assert(v@[i].tag@ == k);
                } else {
                    assert(v@[i + 1].tag@ == k);
                }
            }
            if has_entry(v@, k) {
                let i = choose|i: int| 0 <= i < v@.len() && #[trigger] v@[i].tag@ == k;
                if i < lo {
                    assert(ov[i].tag@ == k);
                } else if i > lo {
                    assert(ov[i - 1].tag@ == k);
                }
            }
            if k == key@ {
                assert(v@[lo as int].tag@ == k);
            }
        }
    }
}

/// The tree view's counts: one entry per key, that is per slash prefix of some
/// tag (`a`, `a/b` and `a/b/c` for `a/b/c`), holding the sums over all records
/// whose tag is that key or extends it past a '/'. Entries come in ascending
/// order of their keys.
pub fn aggregate_tree(data: &[AllocInfo]) -> (r: Vec<AllocInfo>)
    requires
        total_size(records(data@)) <= u64::MAX,
        total_calls(records(data@)) <= u64::MAX,
    ensures
        tree_entries(records(data@), r@),
{
    let ghost rs = records(data@);
    let mut v: Vec<AllocInfo> = Vec::new();
    let mut j: usize = 0;
    proof {
        assert(rs.take(0) =~= Seq::<AllocRecord>::empty());
        assert(records(v@) =~= Seq::<AllocRecord>::empty());
    }
    while j < data.len()
        invariant
            j <= data.len(),
            rs == records(data@),
            total_size(rs) <= u64::MAX,
            total_calls(rs) <= u64::MAX,
            tags_ascending(v@),
            forall|k: Seq<char>| #[trigger]
                sum_of(records(v@), size_at(k)) == tree_size(rs.take(j as int), k),
            forall|k: Seq<char>| #[trigger]
                sum_of(records(v@), calls_at(k)) == tree_calls(rs.take(j as int), k),
            forall|k: Seq<char>| #[trigger]
                has_entry(v@, k) <==> tree_key(rs.take(j as int), k),
        decreases data.len() - j,
    {
        let info = &data[j];
        let t = chars_of(&info.tag);
        let ghost pre = rs.take(j as int);
        let ghost next = rs.take(j + 1);
        assert(rs[j as int].tag == t@);
        let mut prefix = String::new();
        let mut p: usize = 0;
        while p < t.len()
            invariant
                p <= t.len(),
                prefix@ == t@.take(p as int),
                j < data.len(),
                info == &data@[j as int],
                rs == records(data@),
                rs[j as int].tag == t@,
                pre == rs.take(j as int),
                next == rs.take(j + 1),
                total_size(rs) <= u64::MAX,
                total_calls(rs) <= u64::MAX,
                tags_ascending(v@),
                forall|k: Seq<char>| #[trigger]
                    sum_of(records(v@), size_at(k)) == tree_size(pre, k) + if is_slash_prefix(
                        k,
                        t@,
                    ) && k.len() < p {
                        info.size as nat
                    } else {
                        0
                    },
                forall|k: Seq<char>| #[trigger]
                    sum_of(records(v@), calls_at(k)) == tree_calls(pre, k) + if is_slash_prefix(
                        k,
                        t@,
                    ) && k.len() < p {
                        info.calls as nat
                    } else {
                        0
                    },
                forall|k: Seq<char>| #[trigger]
                    has_entry(v@, k) <==> tree_key(pre, k) || (is_slash_prefix(k, t@) && k.len()
                        < p),
            decreases t.len() - p,
        {
            if t[p] == '/' {
                let ghost key = prefix@;
                proof {
                    assert(is_slash_prefix(key, t@));
                    lemma_sum_step(rs, size_under(key), j as int);
                    lemma_sum_step(rs, calls_under(key), j as int);
                    lemma_sum_le(next, size_under(key), size_of());
                    lemma_sum_le(next, calls_under(key), calls_of());
                    lemma_sum_prefix_le(rs, size_of(), j + 1);
                    lemma_sum_prefix_le(rs, calls_of(), j + 1);
                }
                add_entry(&mut v, prefix.clone(), info.size, info.calls);
            }
            push_char(&mut prefix, t[p]);
            assert(t@.take(p + 1) =~= t@.take(p as int).push(t@[p as int]));
            p = p + 1;
        }
        let ghost key = prefix@;
        proof {
            assert(key =~= t@);
            assert(is_slash_prefix(key, t@));
            lemma_sum_step(rs, size_under(key), j as int);
            lemma_sum_step(rs, calls_under(key), j as int);
            lemma_sum_le(next, size_under(key), size_of());
            lemma_sum_le(next, calls_under(key), calls_of());
            lemma_sum_prefix_le(rs, size_of(), j + 1);
            lemma_sum_prefix_le(rs, calls_of(), j + 1);
        }
        add_entry(&mut v, prefix, info.size, info.calls);
        proof {
            assert forall|k: Seq<char>| #[trigger]
                sum_of(records(v@), size_at(k)) == tree_size(next, k) by {
                lemma_sum_step(rs, size_under(k), j as int);
            }
            assert forall|k: Seq<char>| #[trigger]
                sum_of(records(v@), calls_at(k)) == tree_calls(next, k) by {
                lemma_sum_step(rs, calls_under(k), j as int);
            }
            assert forall|k: Seq<char>| #[trigger] has_entry(v@, k) <==> tree_key(next, k) by {
                if tree_key(next, k) {
                    let i = choose|i: int| 0 <= i < next.len() && is_slash_prefix(k, #[trigger] next[i].tag);
                    if i < j {
                        assert(pre[i] == next[i]);
                    }
                }
                if tree_key(pre, k) {
                    let i = choose|i: int| 0 <= i < pre.len() && is_slash_prefix(k, #[trigger] pre[i].tag);
                    assert(pre[i] == next[i]);
                }
                if is_slash_prefix(k, t@) {
                    assert(next[j as int].tag == t@);
                }
            }
        }
        j = j + 1;
    }
    proof {
        assert(rs.take(j as int) =~= rs);
        assert forall|i: int|
            0 <= i < v.len() implies tree_key(rs, #[trigger] v@[i].tag@) && v@[i].size
                == tree_size(rs, v@[i].tag@) && v@[i].calls == tree_calls(rs, v@[i].tag@) by {
            lemma_entry_sums(v@, i);
            assert(has_entry(v@, v@[i].tag@));
        }
    }
    v
}

} // verus!
