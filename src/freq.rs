//! Counting words, merging letter-case variants, and ranking.

use crate::order::{lemma_str_lt_irreflexive, lemma_str_lt_transitive, str_less, str_lt};
use vstd::prelude::*;

verus! {

/// How many of the first `n` tokens read `w`.
pub open spec fn occurrences(tokens: Seq<String>, w: Seq<char>, n: int) -> int
    decreases n,
{
    if n <= 0 {
        0
    } else {
        occurrences(tokens, w, n - 1) + if tokens[n - 1]@ == w {
            1int
        } else {
            0
        }
    }
}

/// Sum of the counts of the first `n` entries.
pub open spec fn total(s: Seq<(String, u64)>, n: int) -> int
    decreases n,
{
    if n <= 0 {
        0
    } else {
        total(s, n - 1) + s[n - 1].1
    }
}

/// The texts of the entries are pairwise different.
pub open spec fn distinct_texts(s: Seq<(String, u64)>) -> bool {
    forall|a: int, b: int| 0 <= a < b < s.len() ==> #[trigger] s[a].0@ != #[trigger] s[b].0@
}

proof fn lemma_occurrences_bound(tokens: Seq<String>, w: Seq<char>, n: int)
    requires
        n >= 0,
    ensures
        0 <= occurrences(tokens, w, n) <= n,
    decreases n,
{
    if n > 0 {
        lemma_occurrences_bound(tokens, w, n - 1);
    }
}

proof fn lemma_total_update(s: Seq<(String, u64)>, j: int, v: (String, u64), n: int)
    requires
        0 <= j < s.len(),
        0 <= n <= s.len(),
    ensures
        total(s.update(j, v), n) == total(s, n) + if j < n {
            v.1 - s[j].1
        } else {
            0
        },
    decreases n,
{
    if n > 0 {
        lemma_total_update(s, j, v, n - 1);
    }
}

proof fn lemma_total_push(s: Seq<(String, u64)>, v: (String, u64), n: int)
    requires
        0 <= n <= s.len(),
    ensures
        total(s.push(v), n) == total(s, n),
    decreases n,
{
    if n > 0 {
        lemma_total_push(s, v, n - 1);
    }
}

proof fn lemma_entry_le_total(s: Seq<(String, u64)>, j: int, n: int)
    requires
        0 <= j < n <= s.len(),
    ensures
        s[j].1 <= total(s, n),
    decreases n,
{
    if n - 1 > j {
        lemma_entry_le_total(s, j, n - 1);
    }
    lemma_total_nonneg(s, n - 1);
}

proof fn lemma_total_nonneg(s: Seq<(String, u64)>, n: int)
    ensures
        total(s, n) >= 0,
    decreases n,
{
    if n > 0 {
        lemma_total_nonneg(s, n - 1);
    }
}

proof fn lemma_total_monotone(s: Seq<(String, u64)>, m: int, n: int)
    requires
        m <= n,
    ensures
        total(s, m) <= total(s, n),
    decreases n - m,
{
    if m < n {
        lemma_total_monotone(s, m, n - 1);
    }
}

/// Counts the tokens by exact text: one entry per different token, in
/// order of first appearance, with its number of occurrences.
pub fn count_words(tokens: &Vec<String>) -> (r: Vec<(String, u64)>)
    ensures
        distinct_texts(r@),
        forall|k: int|
            0 <= k < r@.len() ==> #[trigger] r@[k].1 == occurrences(tokens@, r@[k].0@, tokens@.len() as int)
                && r@[k].1 > 0,
        forall|j: int| #![trigger tokens@[j]] 0 <= j < tokens@.len() ==> exists|k: int| 0 <= k < r@.len() && #[trigger] r@[k].0@ == #[trigger] tokens@[j]@,
        total(r@, r@.len() as int) == tokens@.len(),
{
    let mut out: Vec<(String, u64)> = Vec::new();
    let mut i: usize = 0;
    while i < tokens.len()
        invariant
            i <= tokens@.len(),
            distinct_texts(out@),
            forall|k: int|
                0 <= k < out@.len() ==> #[trigger] out@[k].1 == occurrences(tokens@, out@[k].0@, i as int) && out@[k].1 > 0,
            forall|j: int| #![trigger tokens@[j]] 0 <= j < i ==> exists|k: int| 0 <= k < out@.len() && #[trigger] out@[k].0@ == #[trigger] tokens@[j]@,
            total(out@, out@.len() as int) == i,
        decreases tokens@.len() - i,
    {
        let t = &tokens[i];
        let mut j: usize = 0;
        while j < out.len()
            invariant
                j <= out@.len(),
                forall|k: int| 0 <= k < j ==> #[trigger] out@[k].0@ != t@,
            ensures
                j <= out@.len(),
                j < out@.len() ==> out@[j as int].0@ == t@,
                forall|k: int| 0 <= k < j ==> #[trigger] out@[k].0@ != t@,
            decreases out@.len() - j,
        {
            if out[j].0 == *t {
                break ;
            }
            j = j + 1;
        }
        let ghost old_out = out@;
        if j < out.len() {
            let c = out[j].1;
            proof {
                lemma_occurrences_bound(tokens@, t@, i as int);
            }
            let key = out[j].0.clone();
            out.set(j, (key, c + 1));
            proof {
                lemma_total_update(old_out, j as int, (key, (c + 1) as u64), old_out.len() as int);
                assert forall|k: int| 0 <= k < out@.len() implies #[trigger] out@[k].0@ == old_out[k].0@ by {}
                assert(distinct_texts(out@)) by {
                    assert forall|a: int, b: int| 0 <= a < b < out@.len() implies #[trigger] out@[a].0@
                        != #[trigger] out@[b].0@ by {
                        assert(out@[a].0@ == old_out[a].0@);
                        assert(out@[b].0@ == old_out[b].0@);
                    }
                }
                assert forall|k: int| 0 <= k < out@.len() implies #[trigger] out@[k].1 == occurrences(
                    tokens@,
                    out@[k].0@,
                    i + 1,
                ) && out@[k].1 > 0 by {
                    if k != j {
                        assert(out@[k] == old_out[k]);
                    }
                }
                assert forall|jj: int| #![trigger tokens@[jj]] 0 <= jj < i + 1 implies exists|k: int|
                    0 <= k < out@.len() && #[trigger] out@[k].0@ == #[trigger] tokens@[jj]@ by {
                    if jj < i {
                        let k = choose|k: int| 0 <= k < old_out.len() && #[trigger] old_out[k].0@ == #[trigger] tokens@[jj]@;
                        assert(out@[k].0@ == old_out[k].0@);
                    } else {
                        assert(out@[j as int].0@ == tokens@[jj]@);
                    }
                }
            }
        } else {
            out.push((t.clone(), 1));
            proof {
                lemma_total_push(old_out, out@[old_out.len() as int], old_out.len() as int);
                assert(out@ == old_out.push(out@[old_out.len() as int]));
                assert(distinct_texts(out@)) by {
                    assert forall|a: int, b: int| 0 <= a < b < out@.len() implies #[trigger] out@[a].0@
                        != #[trigger] out@[b].0@ by {
                        assert(out@[a] == old_out[a]);
                        if b < old_out.len() {
                            assert(out@[b] == old_out[b]);
                        }
                    }
                }
                assert forall|k: int| 0 <= k < out@.len() implies #[trigger] out@[k].1 == occurrences(
                    tokens@,
                    out@[k].0@,
                    i + 1,
                ) && out@[k].1 > 0 by {
                    if k < old_out.len() {
                        assert(out@[k] == old_out[k]);
                    } else {
                        assert(occurrences(tokens@, t@, i as int) == 0) by {
                            assert forall|jj: int| 0 <= jj < i implies #[trigger] tokens@[jj]@ != t@ by {
                                let k = choose|k: int|
                                    0 <= k < old_out.len() && #[trigger] old_out[k].0@ == #[trigger] tokens@[jj]@;
                                assert(old_out[k].0@ != t@);
                            }
                            lemma_no_occurrence(tokens@, t@, i as int);
                        }
                    }
                }
                assert forall|jj: int| #![trigger tokens@[jj]] 0 <= jj < i + 1 implies exists|k: int|
                    0 <= k < out@.len() && #[trigger] out@[k].0@ == #[trigger] tokens@[jj]@ by {
                    if jj < i {
                        let k = choose|k: int| 0 <= k < old_out.len() && #[trigger] old_out[k].0@ == #[trigger] tokens@[jj]@;
                        assert(out@[k].0@ == old_out[k].0@);
                    } else {
                        assert(out@[old_out.len() as int].0@ == tokens@[jj]@);
                    }
                }
            }
        }
        i = i + 1;
    }
    out
}

proof fn lemma_no_occurrence(tokens: Seq<String>, w: Seq<char>, n: int)
    requires
        0 <= n <= tokens.len(),
        forall|j: int| 0 <= j < n ==> #[trigger] tokens[j]@ != w,
    ensures
        occurrences(tokens, w, n) == 0,
    decreases n,
{
    if n > 0 {
        lemma_no_occurrence(tokens, w, n - 1);
    }
}

/// What `str::to_lowercase` makes of a text.
pub uninterp spec fn lower_of(s: Seq<char>) -> Seq<char>;

/// Relies on `str::to_lowercase`: the lower-case form depends on the
/// characters of `s` alone.
#[verifier::external_body]
pub(crate) fn to_lower(s: &str) -> (r: String)
    ensures
        r@ == lower_of(s@),
{
    s.to_lowercase()
}

/// Sum of the counts of those of the first `n` entries whose lower-case
/// form is `l`.
pub open spec fn class_total(s: Seq<(String, u64)>, l: Seq<char>, n: int) -> int
    decreases n,
{
    if n <= 0 {
        0
    } else {
        class_total(s, l, n - 1) + if lower_of(s[n - 1].0@) == l {
            s[n - 1].1 as int
        } else {
            0
        }
    }
}

/// `a` ranks above `b`: a higher count, or the same count and a
/// lexicographically greater text.
pub open spec fn ranks_above(a: (String, u64), b: (String, u64)) -> bool {
    a.1 > b.1 || (a.1 == b.1 && str_lt(b.0@, a.0@))
}

/// No entry among the first `n` that shares the lower-case form of entry
/// `i` ranks above it.
pub open spec fn top_of_class(s: Seq<(String, u64)>, i: int, n: int) -> bool {
    forall|j: int| 0 <= j < n && #[trigger] lower_of(s[j].0@) == lower_of(s[i].0@) ==> !ranks_above(s[j], s[i])
}

proof fn lemma_ranks_above_transitive(a: (String, u64), b: (String, u64), c: (String, u64))
    requires
        ranks_above(a, b),
        ranks_above(b, c),
    ensures
        ranks_above(a, c),
{
    if a.1 == b.1 && b.1 == c.1 {
        lemma_str_lt_transitive(c.0@, b.0@, a.0@);
    }
}

proof fn lemma_class_total_le_total(s: Seq<(String, u64)>, l: Seq<char>, n: int)
    ensures
        0 <= class_total(s, l, n) <= total(s, n),
    decreases n,
{
    if n > 0 {
        lemma_class_total_le_total(s, l, n - 1);
    }
}

proof fn lemma_class_total_empty(s: Seq<(String, u64)>, l: Seq<char>, n: int)
    requires
        0 <= n <= s.len(),
        forall|j: int| 0 <= j < n ==> #[trigger] lower_of(s[j].0@) != l,
    ensures
        class_total(s, l, n) == 0,
    decreases n,
{
    if n > 0 {
        lemma_class_total_empty(s, l, n - 1);
    }
}

/// The state of a merge after the first `i` entries of `counts`: one group
/// per lower-case form met so far, with the index of its top-ranked entry
/// and the sum of its counts.
pub open spec fn groups_ok(groups: Seq<(String, usize, u64)>, counts: Seq<(String, u64)>, i: int) -> bool {
    &&& forall|a: int, b: int| 0 <= a < b < groups.len() ==> #[trigger] groups[a].0@ != #[trigger] groups[b].0@
    &&& forall|a: int|
        0 <= a < groups.len() ==> (#[trigger] groups[a]).1 < i && lower_of(counts[groups[a].1 as int].0@)
            == groups[a].0@ && top_of_class(counts, groups[a].1 as int, i) && groups[a].2 == class_total(
            counts,
            groups[a].0@,
            i,
        )
    &&& forall|j: int|
        #![trigger counts[j]]
        0 <= j < i ==> exists|a: int| 0 <= a < groups.len() && (#[trigger] groups[a]).0@ == lower_of(counts[j].0@)
}

/// Adds entry `i`, whose lower-case form `l` is new, as a group of its own.
fn open_group(groups: &mut Vec<(String, usize, u64)>, counts: &Vec<(String, u64)>, i: usize, l: String)
    requires
        i < counts@.len(),
        l@ == lower_of(counts@[i as int].0@),
        groups_ok(old(groups)@, counts@, i as int),
        forall|k: int| 0 <= k < old(groups)@.len() ==> (#[trigger] old(groups)@[k]).0@ != l@,
    ensures
        groups_ok(final(groups)@, counts@, i + 1),
{
    let ghost old_groups = groups@;
    proof {
        assert forall|jj: int| 0 <= jj < i implies #[trigger] lower_of(counts@[jj].0@) != l@ by {
            let a = choose|a: int| 0 <= a < old_groups.len() && (#[trigger] old_groups[a]).0@ == lower_of(counts@[jj].0@);
            assert(old_groups[a].0@ != l@);
        }
        lemma_class_total_empty(counts@, l@, i as int);
    }
    groups.push((l, i, counts[i].1));
    proof {
        let last = old_groups.len() as int;
        assert forall|a: int|
            0 <= a < groups@.len() implies (#[trigger] groups@[a]).1 < i + 1 && lower_of(counts@[groups@[a].1 as int].0@)
                == groups@[a].0@ && top_of_class(counts@, groups@[a].1 as int, i + 1) && groups@[a].2 == class_total(
                counts@,
                groups@[a].0@,
                i + 1,
            ) by {
            if a < last {
                assert(groups@[a] == old_groups[a]);
                let r = groups@[a].1 as int;
                assert forall|jj: int|
                    0 <= jj < i + 1 && #[trigger] lower_of(counts@[jj].0@) == lower_of(counts@[r].0@) implies !ranks_above(
                    counts@[jj],
                    counts@[r],
                ) by {
                    if jj == i {
                        assert(old_groups[a].0@ != l@);
                    }
                }
            } else {
                assert forall|jj: int|
                    0 <= jj < i + 1 && #[trigger] lower_of(counts@[jj].0@) == lower_of(counts@[i as int].0@) implies !ranks_above(
                    counts@[jj],
                    counts@[i as int],
                ) by {
                    lemma_str_lt_irreflexive(counts@[i as int].0@);
                }
            }
        }
        assert forall|jj: int| #![trigger counts@[jj]] 0 <= jj < i + 1 implies exists|a: int|
            0 <= a < groups@.len() && (#[trigger] groups@[a]).0@ == lower_of(counts@[jj].0@) by {
            if jj < i {
                let a = choose|a: int| 0 <= a < old_groups.len() && (#[trigger] old_groups[a]).0@ == lower_of(counts@[jj].0@);
                assert(groups@[a] == old_groups[a]);
            } else {
                assert(groups@[last].0@ == lower_of(counts@[jj].0@));
            }
        }
        assert forall|a: int, b: int| 0 <= a < b < groups@.len() implies #[trigger] groups@[a].0@
            != #[trigger] groups@[b].0@ by {
            assert(groups@[a] == old_groups[a]);
            if b < last {
                assert(groups@[b] == old_groups[b]);
            }
        }
    }
}

/// Adds entry `i` to group `j`, whose form it shares.
#[verifier::rlimit(30)]
fn join_group(groups: &mut Vec<(String, usize, u64)>, counts: &Vec<(String, u64)>, i: usize, j: usize)
    requires
        i < counts@.len(),
        j < old(groups)@.len(),
        old(groups)@[j as int].0@ == lower_of(counts@[i as int].0@),
        groups_ok(old(groups)@, counts@, i as int),
        total(counts@, counts@.len() as int) <= u64::MAX,
    ensures
        groups_ok(final(groups)@, counts@, i + 1),
{
    let ghost old_groups = groups@;
    let ghost l = old_groups[j as int].0@;
    proof {
        lemma_class_total_le_total(counts@, l, i + 1);
        lemma_total_monotone(counts@, i + 1, counts@.len() as int);
    }
    let c = counts[i].1;
    let rep = groups[j].1;
    let sum = groups[j].2;
    let rc = counts[rep].1;
    let above = c > rc || (c == rc && str_less(counts[rep].0.as_str(), counts[i].0.as_str()));
    let new_rep = if above {
        i
    } else {
        rep
    };
    let key = groups[j].0.clone();
    groups.set(j, (key, new_rep, sum + c));
    proof {
        assert(groups@[j as int].0@ == l);
        assert forall|a: int| 0 <= a < groups@.len() && a != j implies #[trigger] groups@[a] == old_groups[a] by {}
        assert forall|a: int|
            0 <= a < groups@.len() implies (#[trigger] groups@[a]).1 < i + 1 && lower_of(counts@[groups@[a].1 as int].0@)
                == groups@[a].0@ && top_of_class(counts@, groups@[a].1 as int, i + 1) && groups@[a].2 == class_total(
                counts@,
                groups@[a].0@,
                i + 1,
            ) by {
            if a != j {
                let r = groups@[a].1 as int;
                assert forall|jj: int|
                    0 <= jj < i + 1 && #[trigger] lower_of(counts@[jj].0@) == lower_of(counts@[r].0@) implies !ranks_above(
                    counts@[jj],
                    counts@[r],
                ) by {
                    if jj == i {
                        assert(old_groups[a].0@ != old_groups[j as int].0@);
                    }
                }
            } else {
                let r = new_rep as int;
                assert forall|jj: int|
                    0 <= jj < i + 1 && #[trigger] lower_of(counts@[jj].0@) == lower_of(counts@[r].0@) implies !ranks_above(
                    counts@[jj],
                    counts@[r],
                ) by {
                    if above {
                        if jj < i {
                            assert(!ranks_above(counts@[jj], counts@[rep as int]));
                            if ranks_above(counts@[jj], counts@[r]) {
                                lemma_ranks_above_transitive(counts@[jj], counts@[r], counts@[rep as int]);
                            }
                        } else {
                            lemma_str_lt_irreflexive(counts@[r].0@);
                        }
                    } else {
                        if jj < i {
                            assert(lower_of(counts@[jj].0@) == lower_of(counts@[rep as int].0@));
                        }
                    }
                }
            }
        }
        assert forall|jj: int| #![trigger counts@[jj]] 0 <= jj < i + 1 implies exists|a: int|
            0 <= a < groups@.len() && (#[trigger] groups@[a]).0@ == lower_of(counts@[jj].0@) by {
            if jj < i {
                let a = choose|a: int| 0 <= a < old_groups.len() && (#[trigger] old_groups[a]).0@ == lower_of(counts@[jj].0@);
                assert(groups@[a].0@ == old_groups[a].0@);
            } else {
                assert(groups@[j as int].0@ == lower_of(counts@[jj].0@));
            }
        }
        assert forall|a: int, b: int| 0 <= a < b < groups@.len() implies #[trigger] groups@[a].0@
            != #[trigger] groups@[b].0@ by {
            assert(groups@[a].0@ == old_groups[a].0@);
            assert(groups@[b].0@ == old_groups[b].0@);
        }
    }
}

/// Merges the entries whose texts have the same lower-case form: one entry
/// per form, shown with the text of its top-ranked entry (highest count,
/// then lexicographically greatest text) and carrying the sum of their
/// counts.
#[verifier::rlimit(30)]
pub fn keep_common_case(counts: &Vec<(String, u64)>) -> (r: Vec<(String, u64)>)
    requires
        total(counts@, counts@.len() as int) <= u64::MAX,
    ensures
        forall|a: int, b: int|
            0 <= a < b < r@.len() ==> lower_of(#[trigger] r@[a].0@) != lower_of(#[trigger] r@[b].0@),
        forall|k: int|
            #![trigger r@[k]]
            0 <= k < r@.len() ==> exists|i: int|
                0 <= i < counts@.len() && #[trigger] counts@[i].0@ == r@[k].0@ && top_of_class(
                    counts@,
                    i,
                    counts@.len() as int,
                ),
        forall|k: int|
            0 <= k < r@.len() ==> #[trigger] r@[k].1 == class_total(counts@, lower_of(r@[k].0@), counts@.len() as int),
        forall|i: int|
            #![trigger counts@[i]]
            0 <= i < counts@.len() ==> exists|k: int|
                0 <= k < r@.len() && lower_of(#[trigger] r@[k].0@) == lower_of(counts@[i].0@),
{
    let ghost n = counts@.len() as int;
    let mut groups: Vec<(String, usize, u64)> = Vec::new();
    let mut i: usize = 0;
    while i < counts.len()
        invariant
            n == counts@.len(),
            i <= n,
            total(counts@, n) <= u64::MAX,
            groups_ok(groups@, counts@, i as int),
        decreases n - i,
    {
        let l = to_lower(counts[i].0.as_str());
        let mut j: usize = 0;
        while j < groups.len()
            invariant
                j <= groups@.len(),
                forall|k: int| 0 <= k < j ==> (#[trigger] groups@[k]).0@ != l@,
            ensures
                j <= groups@.len(),
                j < groups@.len() ==> groups@[j as int].0@ == l@,
                forall|k: int| 0 <= k < j ==> (#[trigger] groups@[k]).0@ != l@,
            decreases groups@.len() - j,
        {
            if groups[j].0 == l {
                break ;
            }
            j = j + 1;
        }
        if j < groups.len() {
            join_group(&mut groups, counts, i, j);
        } else {
            open_group(&mut groups, counts, i, l);
        }
        i = i + 1;
    }
    let mut r: Vec<(String, u64)> = Vec::new();
    let mut k: usize = 0;
    while k < groups.len()
        invariant
            n == counts@.len(),
            k <= groups@.len(),
            r@.len() == k,
            groups_ok(groups@, counts@, n),
            forall|a: int|
                0 <= a < k ==> (#[trigger] r@[a]).0@ == counts@[groups@[a].1 as int].0@ && r@[a].1 == groups@[a].2,
        decreases groups@.len() - k,
    {
        let idx = groups[k].1;
        r.push((counts[idx].0.clone(), groups[k].2));
        k = k + 1;
    }
    proof {
        assert forall|a: int, b: int| 0 <= a < b < r@.len() implies lower_of(#[trigger] r@[a].0@) != lower_of(
            #[trigger] r@[b].0@,
        ) by {
            assert(groups@[a].0@ != groups@[b].0@);
            assert(lower_of(counts@[groups@[a].1 as int].0@) == groups@[a].0@);
            assert(lower_of(counts@[groups@[b].1 as int].0@) == groups@[b].0@);
        }
        assert forall|kk: int| #![trigger r@[kk]] 0 <= kk < r@.len() implies exists|ii: int|
            0 <= ii < counts@.len() && #[trigger] counts@[ii].0@ == r@[kk].0@ && top_of_class(counts@, ii, n) by {
            let ii = groups@[kk].1 as int;
            assert(groups@[kk].1 < n);
            assert(counts@[ii].0@ == r@[kk].0@);
        }
        assert forall|kk: int| 0 <= kk < r@.len() implies #[trigger] r@[kk].1 == class_total(
            counts@,
            lower_of(r@[kk].0@),
            n,
        ) by {
            assert(lower_of(counts@[groups@[kk].1 as int].0@) == groups@[kk].0@);
        }
        assert forall|ii: int| #![trigger counts@[ii]] 0 <= ii < counts@.len() implies exists|kk: int|
            0 <= kk < r@.len() && lower_of(#[trigger] r@[kk].0@) == lower_of(counts@[ii].0@) by {
            let a = choose|a: int| 0 <= a < groups@.len() && (#[trigger] groups@[a]).0@ == lower_of(counts@[ii].0@);
            assert(r@[a].0@ == counts@[groups@[a].1 as int].0@);
            assert(lower_of(counts@[groups@[a].1 as int].0@) == groups@[a].0@);
        }
    }
    r
}

} // verus!
