//! Tag pass: collects topical tags written in the all-caps convention,
//! excluding the company's own location and a short denylist of boilerplate
//! words, with duplicates suppressed per company.
//!
//! This pass reads the location derived by the status/location pass, so it
//! must run after it.

use vstd::prelude::*;
use crate::identity::slug_of;
use crate::identity::slug_from_url;
use crate::model::Company;
use crate::model::CompanyV;
use crate::model::Page;
use crate::model::PageV;
use crate::model::TagRow;
use crate::model::TagRowV;
use crate::model::copy_bytes;
use crate::model::copy_opt_bytes;
use crate::model::seq_view;
use crate::text::bytes_eq;
use crate::text::eq_ci;
use crate::text::is_alpha;
use crate::text::is_upper_alpha;
use crate::text::join_seq;
use crate::text::join_with;
use crate::text::lit;
use crate::text::lit_bytes;
use crate::text::lower;
use crate::text::opt_view;
use crate::text::split_on;
use crate::text::split_seq;
use crate::text::tokens;
use crate::text::tokens_of;
use crate::text::views;

verus! {

pub open spec fn has_alpha(s: Seq<u8>) -> bool {
    exists|i: int| 0 <= i < s.len() && is_alpha(s[i])
}

/// A line in the all-caps convention: it has a letter and every letter in
/// it is upper-case.
pub open spec fn all_caps(s: Seq<u8>) -> bool {
    has_alpha(s) && forall|i: int| 0 <= i < s.len() && is_alpha(s[i]) ==> is_upper_alpha(s[i])
}

fn all_caps_line(s: &[u8]) -> (r: bool)
    ensures
        r == all_caps(s@),
{
    let mut has_a = false;
    let mut ok = true;
    let mut i: usize = 0;
    while i < s.len()
        invariant
            i <= s@.len(),
            has_a == has_alpha(s@.take(i as int)),
            ok == (forall|j: int| 0 <= j < i && is_alpha(s@[j]) ==> is_upper_alpha(s@[j])),
        decreases s@.len() - i,
    {
        let b = s[i];
        let alpha = (65 <= b && b <= 90) || (97 <= b && b <= 122);
        let ghost pre = s@.take(i as int);
        let ghost post = s@.take(i + 1);
        proof {
            assert(post.len() == i + 1);
            assert(forall|j: int| 0 <= j < i + 1 ==> post[j] == s@[j]);
            assert(forall|j: int| 0 <= j < i ==> pre[j] == s@[j]);
        }
        if alpha {
            has_a = true;
            proof {
                assert(is_alpha(post[i as int]));
                assert(has_alpha(post));
            }
            if !(65 <= b && b <= 90) {
                ok = false;
            }
        } else {
            proof {
                if has_alpha(pre) {
                    let w = choose|j: int| 0 <= j < pre.len() && is_alpha(pre[j]);
                    assert(is_alpha(post[w]));
                    assert(has_alpha(post));
                }
                if has_alpha(post) {
                    let w = choose|j: int| 0 <= j < post.len() && is_alpha(post[j]);
                    assert(w < i + 1);
                    assert(!is_alpha(s@[i as int]));
                    assert(w < i);
                    assert(is_alpha(pre[w]));
                    assert(has_alpha(pre));
                }
            }
        }
        i = i + 1;
    }
    proof {
        assert(s@.take(s@.len() as int) =~= s@);
    }
    has_a && ok
}

/// A boilerplate word that is never a topical tag.
pub open spec fn is_noise(t: Seq<u8>) -> bool {
    t == lit("COMPANY") || t == lit("FOUNDERS") || t == lit("NEWS") || t == lit("JOBS")
}

fn noise_word(t: &[u8]) -> (r: bool)
    ensures
        r == is_noise(t@),
{
    proof {
        reveal_strlit("COMPANY");
        reveal_strlit("FOUNDERS");
        reveal_strlit("NEWS");
        reveal_strlit("JOBS");
    }
    let l1 = lit_bytes("COMPANY");
    let l2 = lit_bytes("FOUNDERS");
    let l3 = lit_bytes("NEWS");
    let l4 = lit_bytes("JOBS");
    bytes_eq(t, l1.as_slice()) || bytes_eq(t, l2.as_slice()) || bytes_eq(t, l3.as_slice())
        || bytes_eq(t, l4.as_slice())
}

/// The candidate tag carried by one line: an all-caps line, whitespace
/// collapsed, that is non-empty and not noise.
pub open spec fn tag_candidate(line: Seq<u8>) -> Option<Seq<u8>> {
    if all_caps(line) {
        let t = join_seq(tokens_of(line), lit(" "));
        if t.len() > 0 && !is_noise(t) {
            Some(t)
        } else {
            None
        }
    } else {
        None
    }
}

fn tag_candidate_line(line: &[u8]) -> (r: Option<Vec<u8>>)
    ensures
        opt_view(r) == tag_candidate(line@),
{
    if !all_caps_line(line) {
        return None;
    }
    let parts = tokens(line);
    proof {
        reveal_strlit(" ");
    }
    let sep = lit_bytes(" ");
    let t = join_with(&parts, sep.as_slice());
    if t.len() > 0 && !noise_word(t.as_slice()) {
        Some(t)
    } else {
        None
    }
}

/// The candidate equals the company's location, compared without case.
pub open spec fn matches_location(t: Seq<u8>, loc: Option<Seq<u8>>) -> bool {
    match loc {
        None => false,
        Some(l) => lower(t) == lower(l),
    }
}

/// The surviving tag candidates among `lines`: all-caps lines that are not
/// noise and do not name the company's location.
pub open spec fn candidates_in(lines: Seq<Seq<u8>>, loc: Option<Seq<u8>>) -> Seq<Seq<u8>>
    decreases lines.len(),
{
    if lines.len() == 0 {
        Seq::empty()
    } else {
        let rest = candidates_in(lines.drop_first(), loc);
        match tag_candidate(lines[0]) {
            Some(t) => if !matches_location(t, loc) {
                seq![t] + rest
            } else {
                rest
            },
            None => rest,
        }
    }
}

fn collect_candidates(text: &[u8], loc: &Option<Vec<u8>>) -> (r: Vec<Vec<u8>>)
    ensures
        views(r@) == candidates_in(split_seq(text@, 10), opt_view(*loc)),
{
    let lines = split_on(text, 10);
    let ghost lv = views(lines@);
    let ghost locv = opt_view(*loc);
    let mut r: Vec<Vec<u8>> = Vec::new();
    proof {
        assert(lv.skip(0) =~= lv);
        assert(views(r@) + candidates_in(lv, locv) =~= candidates_in(lv, locv));
    }
    let mut i: usize = 0;
    while i < lines.len()
        invariant
            i <= lines@.len(),
            lv == views(lines@),
            locv == opt_view(*loc),
            candidates_in(lv, locv) == views(r@) + candidates_in(lv.skip(i as int), locv),
        decreases lines@.len() - i,
    {
        proof {
            assert(lv.skip(i as int)[0] == lines@[i as int]@);
            assert(lv.skip(i as int).drop_first() =~= lv.skip(i + 1));
        }
        match tag_candidate_line(lines[i].as_slice()) {
            Some(t) => {
                let excluded = match loc {
                    Some(l) => eq_ci(t.as_slice(), l.as_slice()),
                    None => false,
                };
                if !excluded {
                    let ghost tv = t@;
                    let ghost r0 = r@;
                    r.push(t);
                    proof {
                        assert(views(r@) =~= views(r0) + seq![tv]);
                        assert(candidates_in(lv.skip(i as int), locv) == seq![tv]
                            + candidates_in(lv.skip(i + 1), locv));
                        assert(views(r0) + candidates_in(lv.skip(i as int), locv) =~= views(r@)
                            + candidates_in(lv.skip(i + 1), locv));
                    }
                } else {
                    proof {
                        assert(candidates_in(lv.skip(i as int), locv) == candidates_in(
                            lv.skip(i + 1),
                            locv,
                        ));
                    }
                }
            },
            None => {
                proof {
                    assert(candidates_in(lv.skip(i as int), locv) == candidates_in(
                        lv.skip(i + 1),
                        locv,
                    ));
                }
            },
        }
        i = i + 1;
    }
    proof {
        assert(lv.skip(lv.len() as int) =~= Seq::<Seq<u8>>::empty());
    }
    r
}

/// A `(slug, tag)` pair is already present among the rows.
pub open spec fn tag_in(rows: Seq<TagRowV>, slug: Seq<u8>, t: Seq<u8>) -> bool {
    exists|i: int| 0 <= i < rows.len() && rows[i].company_slug == slug && rows[i].tag == t
}

fn tag_in_rows(rows: &Vec<TagRow>, slug: &[u8], t: &[u8]) -> (r: bool)
    ensures
        r == tag_in(seq_view(rows@), slug@, t@),
{
    let ghost rv = seq_view(rows@);
    let mut i: usize = 0;
    while i < rows.len()
        invariant
            i <= rows@.len(),
            rv == seq_view(rows@),
            forall|j: int| 0 <= j < i ==> !(rv[j].company_slug == slug@ && rv[j].tag == t@),
        decreases rows@.len() - i,
    {
        proof {
            assert(rv[i as int] == rows@[i as int]@);
        }
        if bytes_eq(rows[i].company_slug.as_slice(), slug) && bytes_eq(rows[i].tag.as_slice(), t) {
            return true;
        }
        i = i + 1;
    }
    false
}

/// Appends the candidates of one company, suppressing duplicates.
pub open spec fn add_tags(rows: Seq<TagRowV>, slug: Seq<u8>, cands: Seq<Seq<u8>>) -> Seq<TagRowV>
    decreases cands.len(),
{
    if cands.len() == 0 {
        rows
    } else {
        let rows2 = if tag_in(rows, slug, cands[0]) {
            rows
        } else {
            rows.push(TagRowV { company_slug: slug, tag: cands[0] })
        };
        add_tags(rows2, slug, cands.drop_first())
    }
}

/// The location of the company with the given slug, when it exists.
pub open spec fn company_location(cs: Seq<CompanyV>, slug: Seq<u8>) -> Option<Seq<u8>>
    decreases cs.len(),
{
    if cs.len() == 0 {
        None
    } else if cs[0].slug == slug {
        cs[0].location
    } else {
        company_location(cs.drop_first(), slug)
    }
}

fn lookup_location(companies: &Vec<Company>, slug: &[u8]) -> (r: Option<Vec<u8>>)
    ensures
        opt_view(r) == company_location(seq_view(companies@), slug@),
{
    let ghost cv = seq_view(companies@);
    proof {
        assert(cv.skip(0) =~= cv);
    }
    let mut i: usize = 0;
    while i < companies.len()
        invariant
            i <= companies@.len(),
            cv == seq_view(companies@),
            company_location(cv, slug@) == company_location(cv.skip(i as int), slug@),
        decreases companies@.len() - i,
    {
        proof {
            assert(cv.skip(i as int)[0] == companies@[i as int]@);
            assert(cv.skip(i as int).drop_first() =~= cv.skip(i + 1));
        }
        if bytes_eq(companies[i].slug.as_slice(), slug) {
            let loc = copy_opt_bytes(&companies[i].location);
            return loc;
        }
        i = i + 1;
    }
    proof {
        assert(cv.skip(cv.len() as int) =~= Seq::<CompanyV>::empty());
    }
    None
}

/// One page's contribution to the tags table.
pub open spec fn tags_step(rows: Seq<TagRowV>, page: PageV, companies: Seq<CompanyV>) -> Seq<
    TagRowV,
> {
    match slug_of(page.url) {
        None => rows,
        Some(slug) => match page.header_text {
            None => rows,
            Some(h) => add_tags(
                rows,
                slug,
                candidates_in(split_seq(h, 10), company_location(companies, slug)),
            ),
        },
    }
}

pub open spec fn tags_pass_from(
    rows: Seq<TagRowV>,
    pages: Seq<PageV>,
    companies: Seq<CompanyV>,
) -> Seq<TagRowV>
    decreases pages.len(),
{
    if pages.len() == 0 {
        rows
    } else {
        tags_pass_from(tags_step(rows, pages[0], companies), pages.drop_first(), companies)
    }
}

/// The whole tag pass over the page collection.
pub open spec fn tags_pass(pages: Seq<PageV>, companies: Seq<CompanyV>) -> Seq<TagRowV> {
    tags_pass_from(Seq::empty(), pages, companies)
}

/// Runs the tag pass, reading each company's location from the companies
/// table as the status/location pass left it.
pub fn run(pages: &Vec<Page>, companies: &Vec<Company>) -> (rows: Vec<TagRow>)
    ensures
        seq_view(rows@) == tags_pass(seq_view(pages@), seq_view(companies@)),
{
    let ghost pv = seq_view(pages@);
    let ghost cv = seq_view(companies@);
    let mut rows: Vec<TagRow> = Vec::new();
    proof {
        assert(pv.skip(0) =~= pv);
        assert(seq_view(rows@) =~= Seq::<TagRowV>::empty());
    }
    let mut i: usize = 0;
    while i < pages.len()
        invariant
            i <= pages@.len(),
            pv == seq_view(pages@),
            cv == seq_view(companies@),
            tags_pass(pv, cv) == tags_pass_from(seq_view(rows@), pv.skip(i as int), cv),
        decreases pages@.len() - i,
    {
        proof {
            assert(pv.skip(i as int)[0] == pages@[i as int]@);
            assert(pv.skip(i as int).drop_first() =~= pv.skip(i + 1));
        }
        let ghost page_v = pv[i as int];
        let ghost rows_start = seq_view(rows@);
        let slug_opt = slug_from_url(pages[i].url.as_slice());
        match slug_opt {
            None => {
                proof {
                    assert(tags_step(rows_start, page_v, cv) == rows_start);
                }
            },
            Some(slug) => {
                match &pages[i].header_text {
                    None => {
                        proof {
                            assert(tags_step(rows_start, page_v, cv) == rows_start);
                        }
                    },
                    Some(h) => {
                        let loc = lookup_location(companies, slug.as_slice());
                        let cands = collect_candidates(h.as_slice(), &loc);
                        let ghost candv = views(cands@);
                        proof {
                            assert(candv.skip(0) =~= candv);
                            assert(tags_step(rows_start, page_v, cv) == add_tags(
                                rows_start,
                                slug@,
                                candv,
                            ));
                        }
                        let mut j: usize = 0;
                        while j < cands.len()
                            invariant
                                j <= cands@.len(),
                                candv == views(cands@),
                                cv == seq_view(companies@),
                                tags_step(rows_start, page_v, cv) == add_tags(
                                    seq_view(rows@),
                                    slug@,
                                    candv.skip(j as int),
                                ),
                            decreases cands@.len() - j,
                        {
                            proof {
                                assert(candv.skip(j as int)[0] == cands@[j as int]@);
                                assert(candv.skip(j as int).drop_first() =~= candv.skip(j + 1));
                            }
                            let present = tag_in_rows(&rows, slug.as_slice(), cands[j].as_slice());
                            if !present {
                                let row = TagRow {
                                    company_slug: copy_bytes(&slug),
                                    tag: copy_bytes(&cands[j]),
                                };
                                let ghost rowv = row@;
                                let ghost r0 = seq_view(rows@);
                                rows.push(row);
                                proof {
                                    assert(seq_view(rows@) =~= r0.push(rowv));
                                    assert(rowv == TagRowV {
                                        company_slug: slug@,
                                        tag: candv.skip(j as int)[0],
                                    });
                                    assert(add_tags(r0, slug@, candv.skip(j as int)) == add_tags(
                                        seq_view(rows@),
                                        slug@,
                                        candv.skip(j + 1),
                                    ));
                                }
                            } else {
                                proof {
                                    assert(add_tags(seq_view(rows@), slug@, candv.skip(j as int))
                                        == add_tags(seq_view(rows@), slug@, candv.skip(j + 1)));
                                }
                            }
                            j = j + 1;
                        }
                        proof {
                            assert(candv.skip(candv.len() as int) =~= Seq::<Seq<u8>>::empty());
                            assert(add_tags(seq_view(rows@), slug@, candv.skip(candv.len() as int))
                                == seq_view(rows@));
                        }
                    },
                }
            },
        }
        i = i + 1;
    }
    proof {
        assert(pv.skip(pv.len() as int) =~= Seq::<PageV>::empty());
    }
    rows
}

/// Law: a tag equal to the company's location, compared without case, never
/// survives the candidate filter.
pub proof fn lemma_candidates_avoid_location(lines: Seq<Seq<u8>>, loc: Option<Seq<u8>>, k: int)
    requires
        0 <= k < candidates_in(lines, loc).len(),
    ensures
        !matches_location(candidates_in(lines, loc)[k], loc),
    decreases lines.len(),
{
    if lines.len() > 0 {
        let rest = candidates_in(lines.drop_first(), loc);
        match tag_candidate(lines[0]) {
            Some(t) => {
                if !matches_location(t, loc) {
                    if k > 0 {
                        lemma_candidates_avoid_location(lines.drop_first(), loc, k - 1);
                    }
                } else {
                    lemma_candidates_avoid_location(lines.drop_first(), loc, k);
                }
            },
            None => {
                lemma_candidates_avoid_location(lines.drop_first(), loc, k);
            },
        }
    }
}

/// Every row that `add_tags` appends beyond `rows` carries the given slug
/// and one of the candidates.
pub proof fn lemma_add_tags_from_candidates(
    rows: Seq<TagRowV>,
    slug: Seq<u8>,
    cands: Seq<Seq<u8>>,
    k: int,
)
    requires
        rows.len() <= k < add_tags(rows, slug, cands).len(),
    ensures
        add_tags(rows, slug, cands)[k].company_slug == slug,
        exists|j: int|
            0 <= j < cands.len() && add_tags(rows, slug, cands)[k].tag == cands[j],
    decreases cands.len(),
{
    if cands.len() > 0 {
        let rows2 = if tag_in(rows, slug, cands[0]) {
            rows
        } else {
            rows.push(TagRowV { company_slug: slug, tag: cands[0] })
        };
        if k < rows2.len() {
            assert(rows2[k].company_slug == slug);
            assert(rows2[k].tag == cands[0]);
            lemma_add_tags_prefix(rows2, slug, cands.drop_first(), k);
        } else {
            lemma_add_tags_from_candidates(rows2, slug, cands.drop_first(), k);
            let j = choose|j: int|
                0 <= j < cands.drop_first().len() && add_tags(rows2, slug, cands.drop_first())[k].tag
                    == cands.drop_first()[j];
            assert(cands.drop_first()[j] == cands[j + 1]);
        }
    }
}

/// `add_tags` leaves the rows it starts from unchanged.
pub proof fn lemma_add_tags_prefix(rows: Seq<TagRowV>, slug: Seq<u8>, cands: Seq<Seq<u8>>, k: int)
    requires
        0 <= k < rows.len(),
    ensures
        add_tags(rows, slug, cands).len() >= rows.len(),
        add_tags(rows, slug, cands)[k] == rows[k],
    decreases cands.len(),
{
    if cands.len() > 0 {
        let rows2 = if tag_in(rows, slug, cands[0]) {
            rows
        } else {
            rows.push(TagRowV { company_slug: slug, tag: cands[0] })
        };
        lemma_add_tags_prefix(rows2, slug, cands.drop_first(), k);
    }
}

} // verus!
