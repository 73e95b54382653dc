//! Ranking of counted words.

use crate::freq::distinct_texts;
use crate::order::{lemma_str_lt_irreflexive, lemma_str_lt_transitive, str_less, str_lt};
use vstd::prelude::*;

verus! {

/// `a` goes before `b` in the ranked list: a higher count, or the same
/// count and a lexicographically smaller text.
pub open spec fn ranks_before(a: (String, u64), b: (String, u64)) -> bool {
    a.1 > b.1 || (a.1 == b.1 && str_lt(a.0@, b.0@))
}

/// No entry of `s` goes before an earlier one.
pub open spec fn ranked(s: Seq<(String, u64)>) -> bool {
    forall|a: int, b: int| 0 <= a < b < s.len() ==> !ranks_before(#[trigger] s[b], #[trigger] s[a])
}

proof fn lemma_ranks_before_transitive(a: (String, u64), b: (String, u64), c: (String, u64))
    requires
        ranks_before(a, b),
        ranks_before(b, c),
    ensures
        ranks_before(a, c),
{
    if a.1 == b.1 && b.1 == c.1 {
        lemma_str_lt_transitive(a.0@, b.0@, c.0@);
    }
}

/// Inserts `e` into the ranked `out` before the first entry it goes before.
fn insert_ranked(out: &mut Vec<(String, u64)>, e: (String, u64))
    requires
        ranked(old(out)@),
    ensures
        ranked(final(out)@),
        exists|j: int| 0 <= j <= old(out)@.len() && final(out)@ == old(out)@.insert(j, e),
{
    let mut j: usize = 0;
    while j < out.len()
        invariant
            j <= out@.len(),
            forall|k: int| 0 <= k < j ==> !ranks_before(e, #[trigger] out@[k]),
        ensures
            j <= out@.len(),
            j < out@.len() ==> ranks_before(e, out@[j as int]),
            forall|k: int| 0 <= k < j ==> !ranks_before(e, #[trigger] out@[k]),
        decreases out@.len() - j,
    {
        let o = &out[j];
        if e.1 > o.1 || (e.1 == o.1 && str_less(e.0.as_str(), o.0.as_str())) {
            break ;
        }
        j = j + 1;
    }
    let ghost old_out = out@;
    let ghost ev = e;
    out.insert(j, e);
    proof {
        let ji = j as int;
        assert forall|a: int, b: int| 0 <= a < b < out@.len() implies !ranks_before(#[trigger] out@[b], #[trigger] out@[a]) by {
            if b < ji {
                assert(out@[a] == old_out[a] && out@[b] == old_out[b]);
            } else if b == ji {
                assert(out@[a] == old_out[a]);
            } else if a > ji {
                assert(out@[a] == old_out[a - 1] && out@[b] == old_out[b - 1]);
            } else if a == ji {
                assert(out@[b] == old_out[b - 1]);
                if ranks_before(old_out[b - 1], ev) {
                    lemma_ranks_before_transitive(old_out[b - 1], ev, old_out[ji]);
                    if b - 1 == ji {
                        lemma_str_lt_irreflexive(old_out[ji].0@);
                    }
                }
            } else {
                assert(out@[a] == old_out[a] && out@[b] == old_out[b - 1]);
            }
        }
    }
}

/// The entries in ranked order.
fn sort_ranked(entries: &Vec<(String, u64)>) -> (r: Vec<(String, u64)>)
    ensures
        r@.len() == entries@.len(),
        ranked(r@),
        r@.to_multiset() == entries@.to_multiset(),
        (forall|i: int| 0 <= i < entries@.len() ==> #[trigger] entries@[i].1 > 0) ==> forall|k: int|
            0 <= k < r@.len() ==> #[trigger] r@[k].1 > 0,
        distinct_texts(entries@) ==> distinct_texts(r@),
{
    let mut out: Vec<(String, u64)> = Vec::new();
    let mut i: usize = 0;
    assert(entries@.subrange(0, 0) =~= out@);
    while i < entries.len()
        invariant
            i <= entries@.len(),
            out@.len() == i,
            ranked(out@),
            out@.to_multiset() == entries@.subrange(0, i as int).to_multiset(),
            (forall|ii: int| 0 <= ii < entries@.len() ==> #[trigger] entries@[ii].1 > 0) ==> forall|k: int|
                0 <= k < out@.len() ==> #[trigger] out@[k].1 > 0,
            distinct_texts(entries@) ==> distinct_texts(out@),
        decreases entries@.len() - i,
    {
        let e = (entries[i].0.clone(), entries[i].1);
        let ghost old_out = out@;
        insert_ranked(&mut out, e);
        proof {
            let j0 = choose|j: int| 0 <= j <= old_out.len() && out@ == old_out.insert(j, e);
            vstd::seq_lib::to_multiset_insert(old_out, j0, e);
            assert(entries@.subrange(0, i + 1) =~= entries@.subrange(0, i as int).push(entries@[i as int]));
            vstd::seq_lib::to_multiset_build(entries@.subrange(0, i as int), entries@[i as int]);
            assert(e == entries@[i as int]);
            if distinct_texts(entries@) {
                let pre = entries@.subrange(0, i as int);
                assert forall|k: int| 0 <= k < old_out.len() implies #[trigger] old_out[k].0@ != e.0@ by {
                    vstd::seq_lib::to_multiset_contains(old_out, old_out[k]);
                    vstd::seq_lib::to_multiset_contains(pre, old_out[k]);
                    assert(old_out.contains(old_out[k]));
                    let jj = choose|jj: int| 0 <= jj < pre.len() && pre[jj] == old_out[k];
                    assert(pre[jj] == entries@[jj]);
                    assert(entries@[jj].0@ != entries@[i as int].0@);
                }
                assert forall|a: int, b: int| 0 <= a < b < out@.len() implies #[trigger] out@[a].0@
                    != #[trigger] out@[b].0@ by {
                    if a < j0 && b < j0 {
                        assert(out@[a] == old_out[a] && out@[b] == old_out[b]);
                    } else if a < j0 && b == j0 {
                        assert(out@[a] == old_out[a]);
                    } else if a < j0 {
                        assert(out@[a] == old_out[a] && out@[b] == old_out[b - 1]);
                    } else if a == j0 {
                        assert(out@[b] == old_out[b - 1]);
                    } else {
                        assert(out@[a] == old_out[a - 1] && out@[b] == old_out[b - 1]);
                    }
                }
            }
            if forall|ii: int| 0 <= ii < entries@.len() ==> #[trigger] entries@[ii].1 > 0 {
                assert(e.1 == entries@[i as int].1);
                let j = choose|j: int| 0 <= j <= old_out.len() && out@ == old_out.insert(j, e);
                assert forall|k: int| 0 <= k < out@.len() implies #[trigger] out@[k].1 > 0 by {
                    if k < j {
                        assert(out@[k] == old_out[k]);
                    } else if k > j {
                        assert(out@[k] == old_out[k - 1]);
                    }
                }
            }
        }
        i = i + 1;
    }
    assert(entries@.subrange(0, entries@.len() as int) =~= entries@);
    out
}

/// Sorts the entries by count, highest first, equal counts in
/// lexicographic order of their texts, and keeps the first `max_words`
/// (all of them when `max_words` is 0).
pub fn rank_words(entries: &Vec<(String, u64)>, max_words: usize) -> (r: Vec<(String, u64)>)
    ensures
        r@.len() == if 0 < max_words < entries@.len() {
            max_words as int
        } else {
            entries@.len() as int
        },
        ranked(r@),
        exists|full: Seq<(String, u64)>|
            #![trigger full.to_multiset()]
            full.to_multiset() == entries@.to_multiset() && ranked(full) && r@ == full.subrange(0, r@.len() as int),
        r@.len() > 0 ==> forall|k: int| 0 <= k < r@.len() ==> #[trigger] r@[k].1 <= r@[0].1,
        (forall|i: int| 0 <= i < entries@.len() ==> #[trigger] entries@[i].1 > 0) ==> forall|k: int|
            0 <= k < r@.len() ==> #[trigger] r@[k].1 > 0,
        distinct_texts(entries@) ==> distinct_texts(r@),
{
    let mut out = sort_ranked(entries);
    let ghost full = out@;
    if max_words > 0 && max_words < out.len() {
        out.truncate(max_words);
    }
    proof {
        assert(ranked(out@)) by {
            assert forall|a: int, b: int| 0 <= a < b < out@.len() implies !ranks_before(#[trigger] out@[b], #[trigger] out@[a]) by {
                assert(out@[a] == full[a] && out@[b] == full[b]);
            }
        }
        assert forall|k: int| 0 <= k < out@.len() implies #[trigger] out@[k] == full[k] by {}
        assert(out@ =~= full.subrange(0, out@.len() as int));
        if distinct_texts(entries@) {
            assert forall|a: int, b: int| 0 <= a < b < out@.len() implies #[trigger] out@[a].0@ != #[trigger] out@[b].0@ by {
                assert(out@[a] == full[a] && out@[b] == full[b]);
            }
        }
        if out@.len() > 0 {
            assert forall|k: int| 0 <= k < out@.len() implies #[trigger] out@[k].1 <= out@[0].1 by {
                if k > 0 {
                    assert(!ranks_before(out@[k], out@[0]));
                }
            }
        }
    }
    out
}

} // verus!
