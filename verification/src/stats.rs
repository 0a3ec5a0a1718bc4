//! Aggregate reporting over the links table: the most frequent link
//! patterns, and how many links are founder-attributed.

use vstd::prelude::*;
use crate::model::LinkRow;
use crate::model::LinkRowV;
use crate::model::copy_bytes;
use crate::model::seq_view;
use crate::text::bytes_eq;

verus! {

/// Number of links attributed to a founder.
pub open spec fn founder_link_count(links: Seq<LinkRowV>) -> int
    decreases links.len(),
{
    if links.len() == 0 {
        0
    } else {
        founder_link_count(links.drop_last()) + if links.last().founder_id is Some {
            1int
        } else {
            0int
        }
    }
}

/// Number of links carrying the given pattern.
pub open spec fn pattern_count(links: Seq<LinkRowV>, p: Seq<u8>) -> int
    decreases links.len(),
{
    if links.len() == 0 {
        0
    } else {
        pattern_count(links.drop_last(), p) + if links.last().pattern == Some(p) {
            1int
        } else {
            0int
        }
    }
}

/// Founder-attributed and company-only link counts, in that order.
pub fn link_breakdown(links: &Vec<LinkRow>) -> (r: (usize, usize))
    ensures
        r.0 == founder_link_count(seq_view(links@)),
        r.0 + r.1 == links@.len(),
{
    let ghost lv = seq_view(links@);
    let mut fc: usize = 0;
    let mut i: usize = 0;
    while i < links.len()
        invariant
            i <= links@.len(),
            lv == seq_view(links@),
            fc == founder_link_count(lv.take(i as int)),
            fc <= i,
        decreases links@.len() - i,
    {
        proof {
            assert(lv.take(i + 1).drop_last() =~= lv.take(i as int));
            assert(lv.take(i + 1).last() == lv[i as int]);
            assert(lv[i as int] == links@[i as int]@);
        }
        if links[i].founder_id.is_some() {
            fc = fc + 1;
        }
        i = i + 1;
    }
    proof {
        assert(lv.take(lv.len() as int) =~= lv);
    }
    (fc, links.len() - fc)
}

/// The views of count entries.
pub open spec fn entries_view(v: Seq<(Vec<u8>, usize)>) -> Seq<(Seq<u8>, usize)> {
    Seq::new(v.len(), |i: int| (v[i].0@, v[i].1))
}

/// A pattern appears among the entries.
pub open spec fn entry_pat_in(es: Seq<(Seq<u8>, usize)>, p: Seq<u8>) -> bool {
    exists|i: int| 0 <= i < es.len() && es[i].0 == p
}

fn count_pattern(links: &Vec<LinkRow>, p: &[u8]) -> (c: usize)
    ensures
        c == pattern_count(seq_view(links@), p@),
{
    let ghost lv = seq_view(links@);
    let mut c: usize = 0;
    let mut i: usize = 0;
    while i < links.len()
        invariant
            i <= links@.len(),
            lv == seq_view(links@),
            c == pattern_count(lv.take(i as int), p@),
            c <= i,
        decreases links@.len() - i,
    {
        proof {
            assert(lv.take(i + 1).drop_last() =~= lv.take(i as int));
            assert(lv.take(i + 1).last() == lv[i as int]);
            assert(lv[i as int] == links@[i as int]@);
        }
        let hit = match &links[i].pattern {
            Some(q) => bytes_eq(q.as_slice(), p),
            None => false,
        };
        if hit {
            c = c + 1;
        }
        i = i + 1;
    }
    proof {
        assert(lv.take(lv.len() as int) =~= lv);
    }
    c
}

proof fn lemma_pattern_count_pos(links: Seq<LinkRowV>, p: Seq<u8>, j: int)
    requires
        0 <= j < links.len(),
        links[j].pattern == Some(p),
    ensures
        pattern_count(links, p) >= 1,
    decreases links.len(),
{
    lemma_pattern_count_nonneg(links.drop_last(), p);
    if j < links.len() - 1 {
        lemma_pattern_count_pos(links.drop_last(), p, j);
    }
}

proof fn lemma_pattern_count_nonneg(links: Seq<LinkRowV>, p: Seq<u8>)
    ensures
        pattern_count(links, p) >= 0,
    decreases links.len(),
{
    if links.len() > 0 {
        lemma_pattern_count_nonneg(links.drop_last(), p);
    }
}

fn pattern_in_entries(es: &Vec<(Vec<u8>, usize)>, p: &[u8]) -> (r: bool)
    ensures
        r == entry_pat_in(entries_view(es@), p@),
{
    let ghost ev = entries_view(es@);
    let mut i: usize = 0;
    while i < es.len()
        invariant
            i <= es@.len(),
            ev == entries_view(es@),
            forall|j: int| 0 <= j < i ==> ev[j].0 != p@,
        decreases es@.len() - i,
    {
        proof {
            assert(ev[i as int].0 == es@[i as int].0@);
        }
        if bytes_eq(es[i].0.as_slice(), p) {
            return true;
        }
        i = i + 1;
    }
    false
}

fn collect_counts(links: &Vec<LinkRow>) -> (es: Vec<(Vec<u8>, usize)>)
    ensures
        forall|k: int|
            0 <= k < entries_view(es@).len() ==> (#[trigger] entries_view(es@)[k]).1
                == pattern_count(seq_view(links@), entries_view(es@)[k].0) && entries_view(
                es@,
            )[k].1 >= 1,
        forall|k1: int, k2: int|
            0 <= k1 < k2 < entries_view(es@).len() ==> (#[trigger] entries_view(es@)[k1]).0 != (
            #[trigger] entries_view(es@)[k2]).0,
        forall|j: int|
            0 <= j < seq_view(links@).len() && (#[trigger] seq_view(links@)[j]).pattern is Some
                ==> entry_pat_in(entries_view(es@), seq_view(links@)[j].pattern.unwrap()),
{
    let ghost lv = seq_view(links@);
    let mut es: Vec<(Vec<u8>, usize)> = Vec::new();
    let mut i: usize = 0;
    while i < links.len()
        invariant
            i <= links@.len(),
            lv == seq_view(links@),
            forall|k: int|
                0 <= k < entries_view(es@).len() ==> (#[trigger] entries_view(es@)[k]).1
                    == pattern_count(lv, entries_view(es@)[k].0) && entries_view(es@)[k].1 >= 1,
            forall|k1: int, k2: int|
                0 <= k1 < k2 < entries_view(es@).len() ==> (#[trigger] entries_view(es@)[k1]).0
                    != (#[trigger] entries_view(es@)[k2]).0,
            forall|j: int|
                0 <= j < i && (#[trigger] lv[j]).pattern is Some ==> entry_pat_in(
                    entries_view(es@),
                    lv[j].pattern.unwrap(),
                ),
        decreases links@.len() - i,
    {
        proof {
            assert(lv[i as int] == links@[i as int]@);
        }
        let p_opt = &links[i].pattern;
        match p_opt {
            Some(p) => {
                let already = pattern_in_entries(&es, p.as_slice());
                if !already {
                    let c = count_pattern(links, p.as_slice());
                    proof {
                        lemma_pattern_count_pos(lv, p@, i as int);
                    }
                    let entry = (copy_bytes(p), c);
                    let ghost e0 = entries_view(es@);
                    let ghost entv = (entry.0@, entry.1);
                    es.push(entry);
                    proof {
                        assert(entries_view(es@) =~= e0.push(entv));
                        assert(entv.0 == lv[i as int].pattern.unwrap());
                        assert forall|j: int|
                            0 <= j < i + 1 && (#[trigger] lv[j]).pattern is Some implies
                            entry_pat_in(entries_view(es@), lv[j].pattern.unwrap()) by {
                            if j < i {
                                if lv[j].pattern is Some {
                                    let w = choose|w: int|
                                        0 <= w < e0.len() && e0[w].0 == lv[j].pattern.unwrap();
                                    assert(entries_view(es@)[w].0 == lv[j].pattern.unwrap());
                                }
                            } else {
                                assert(entries_view(es@)[e0.len() as int].0 == lv[
                                    j].pattern.unwrap());
                            }
                        }
                    }
                } else {
                    proof {
                        assert forall|j: int|
                            0 <= j < i + 1 && (#[trigger] lv[j]).pattern is Some implies
                            entry_pat_in(entries_view(es@), lv[j].pattern.unwrap()) by {}
                    }
                }
            },
            None => {},
        }
        i = i + 1;
    }
    es
}

/// The `n` most frequent link patterns, most frequent first: counts are
/// exact, patterns are distinct, the list is sorted by count descending,
/// and a pattern left out only loses to `n` listed patterns with counts at
/// least as large.
pub fn top_patterns(links: &Vec<LinkRow>, n: usize) -> (r: Vec<(Vec<u8>, usize)>)
    ensures
        r@.len() <= n,
        forall|k: int|
            0 <= k < entries_view(r@).len() ==> (#[trigger] entries_view(r@)[k]).1
                == pattern_count(seq_view(links@), entries_view(r@)[k].0) && entries_view(
                r@,
            )[k].1 >= 1,
        forall|k1: int, k2: int|
            0 <= k1 < k2 < entries_view(r@).len() ==> (#[trigger] entries_view(r@)[k1]).0 != (
            #[trigger] entries_view(r@)[k2]).0,
        forall|k1: int, k2: int|
            0 <= k1 < k2 < entries_view(r@).len() ==> (#[trigger] entries_view(r@)[k1]).1 >= (
            #[trigger] entries_view(r@)[k2]).1,
        forall|j: int|
            0 <= j < seq_view(links@).len() && (#[trigger] seq_view(links@)[j]).pattern is Some
                ==> entry_pat_in(entries_view(r@), seq_view(links@)[j].pattern.unwrap()) || (
            entries_view(r@).len() == n && (n == 0 || pattern_count(
                seq_view(links@),
                seq_view(links@)[j].pattern.unwrap(),
            ) <= entries_view(r@)[n - 1].1)),
{
    let ghost lv = seq_view(links@);
    let mut rem = collect_counts(links);
    let mut out: Vec<(Vec<u8>, usize)> = Vec::new();
    while out.len() < n && rem.len() > 0
        invariant
            lv == seq_view(links@),
            out@.len() <= n,
            // counts exact and positive, in both lists
            forall|k: int|
                0 <= k < entries_view(out@).len() ==> (#[trigger] entries_view(out@)[k]).1
                    == pattern_count(lv, entries_view(out@)[k].0) && entries_view(out@)[k].1 >= 1,
            forall|k: int|
                0 <= k < entries_view(rem@).len() ==> (#[trigger] entries_view(rem@)[k]).1
                    == pattern_count(lv, entries_view(rem@)[k].0) && entries_view(rem@)[k].1 >= 1,
            // distinctness inside each list and across the two lists
            forall|k1: int, k2: int|
                0 <= k1 < k2 < entries_view(out@).len() ==> (#[trigger] entries_view(out@)[k1]).0
                    != (#[trigger] entries_view(out@)[k2]).0,
            forall|k1: int, k2: int|
                0 <= k1 < k2 < entries_view(rem@).len() ==> (#[trigger] entries_view(rem@)[k1]).0
                    != (#[trigger] entries_view(rem@)[k2]).0,
            forall|k1: int, k2: int|
                0 <= k1 < entries_view(out@).len() && 0 <= k2 < entries_view(rem@).len() ==> (
                #[trigger] entries_view(out@)[k1]).0 != (#[trigger] entries_view(rem@)[k2]).0,
            // sorted descending, and everything remaining is no larger
            forall|k1: int, k2: int|
                0 <= k1 < k2 < entries_view(out@).len() ==> (#[trigger] entries_view(out@)[k1]).1
                    >= (#[trigger] entries_view(out@)[k2]).1,
            forall|k1: int, k2: int|
                0 <= k1 < entries_view(out@).len() && 0 <= k2 < entries_view(rem@).len() ==> (
                #[trigger] entries_view(out@)[k1]).1 >= (#[trigger] entries_view(rem@)[k2]).1,
            // every pattern of the links is in one of the two lists
            forall|j: int|
                0 <= j < lv.len() && (#[trigger] lv[j]).pattern is Some ==> entry_pat_in(
                    entries_view(out@),
                    lv[j].pattern.unwrap(),
                ) || entry_pat_in(entries_view(rem@), lv[j].pattern.unwrap()),
        decreases n - out@.len(),
    {
        let mut mi: usize = 0;
        let mut k: usize = 1;
        while k < rem.len()
            invariant
                rem@.len() > 0,
                mi < rem@.len(),
                k <= rem@.len(),
                forall|j: int|
                    0 <= j < k ==> (#[trigger] entries_view(rem@)[j]).1 <= entries_view(
                        rem@,
                    )[mi as int].1,
            decreases rem@.len() - k,
        {
            proof {
                assert(entries_view(rem@)[k as int].1 == rem@[k as int].1);
                assert(entries_view(rem@)[mi as int].1 == rem@[mi as int].1);
            }
            if rem[k].1 > rem[mi].1 {
                mi = k;
            }
            k = k + 1;
        }
        let ghost rem0 = entries_view(rem@);
        let ghost out0 = entries_view(out@);
        let e = rem.swap_remove(mi);
        let ghost ev = (e.0@, e.1);
        proof {
            assert(ev == rem0[mi as int]);
            assert(entries_view(rem@).len() == rem0.len() - 1);
            assert forall|j: int| 0 <= j < entries_view(rem@).len() implies #[trigger] entries_view(
                rem@,
            )[j] == (if j == mi {
                rem0[rem0.len() - 1]
            } else {
                rem0[j]
            }) by {
                assert(entries_view(rem@)[j] == (rem@[j].0@, rem@[j].1));
            }
        }
        out.push(e);
        proof {
            assert(entries_view(out@) =~= out0.push(ev));
            assert forall|j: int|
                0 <= j < lv.len() && (#[trigger] lv[j]).pattern is Some implies entry_pat_in(
                entries_view(out@),
                lv[j].pattern.unwrap(),
            ) || entry_pat_in(entries_view(rem@), lv[j].pattern.unwrap()) by {
                let p = lv[j].pattern.unwrap();
                if entry_pat_in(out0, p) {
                    let w = choose|w: int| 0 <= w < out0.len() && out0[w].0 == p;
                    assert(entries_view(out@)[w].0 == p);
                } else if entry_pat_in(rem0, p) {
                    let w = choose|w: int| 0 <= w < rem0.len() && rem0[w].0 == p;
                    if w == mi {
                        assert(entries_view(out@)[out0.len() as int].0 == p);
                    } else if w == rem0.len() - 1 {
                        if mi == rem0.len() - 1 {
                            assert(entries_view(out@)[out0.len() as int].0 == p);
                        } else {
                            assert(entries_view(rem@)[mi as int] == rem0[rem0.len() - 1]);
                            assert(entries_view(rem@)[mi as int].0 == p);
                        }
                    } else {
                        if w < rem0.len() - 1 {
                            assert(entries_view(rem@)[w] == rem0[w]);
                            assert(entries_view(rem@)[w].0 == p);
                        }
                    }
                }
            }
        }
    }
    proof {
        assert forall|j: int|
            0 <= j < lv.len() && (#[trigger] lv[j]).pattern is Some implies entry_pat_in(
            entries_view(out@),
            lv[j].pattern.unwrap(),
        ) || (entries_view(out@).len() == n && (n == 0 || pattern_count(
            lv,
            lv[j].pattern.unwrap(),
        ) <= entries_view(out@)[n - 1].1)) by {
            let p = lv[j].pattern.unwrap();
            if !entry_pat_in(entries_view(out@), p) {
                assert(entry_pat_in(entries_view(rem@), p));
                let w = choose|w: int|
                    0 <= w < entries_view(rem@).len() && entries_view(rem@)[w].0 == p;
                assert(entries_view(rem@)[w].1 == pattern_count(lv, p));
                assert(out@.len() == n);
                if n >= 1 {
                    assert(entries_view(out@)[n - 1].1 >= entries_view(rem@)[w].1);
                }
            }
        }
    }
    out
}

} // verus!
