//! The companies table and the passes that write it.
//!
//! The identity pass creates one row per page with a derivable slug (two
//! pages with the same slug collapse, last write wins). The batch pass,
//! the status/location pass and the details pass then update the row of
//! each page's company in place.

use vstd::prelude::*;
use crate::header::batch_of;
use crate::header::hiring_of;
use crate::header::location_of;
use crate::header::parse_batch;
use crate::header::parse_hiring;
use crate::header::parse_location;
use crate::header::parse_sidebar;
use crate::header::parse_status;
use crate::header::parse_tagline;
use crate::header::sidebar_of;
use crate::header::status_of;
use crate::header::tagline_of;
use crate::identity::display_name;
use crate::identity::display_name_of;
use crate::identity::slug_of;
use crate::identity::slug_from_url;
use crate::model::Batch;
use crate::model::Company;
use crate::model::CompanyV;
use crate::model::Page;
use crate::model::PageV;
use crate::model::Status;
use crate::model::copy_bytes;
use crate::model::copy_opt_bytes;
use crate::model::pairs_view;
use crate::model::seq_view;
use crate::text::bytes_eq;
use crate::text::opt_view;

verus! {

fn copy_pairs(v: &Vec<(Vec<u8>, Vec<u8>)>) -> (r: Vec<(Vec<u8>, Vec<u8>)>)
    ensures
        pairs_view(r@) == pairs_view(v@),
{
    let mut r: Vec<(Vec<u8>, Vec<u8>)> = Vec::new();
    let mut i: usize = 0;
    while i < v.len()
        invariant
            i <= v@.len(),
            pairs_view(r@) == pairs_view(v@).take(i as int),
        decreases v@.len() - i,
    {
        let k = copy_bytes(&v[i].0);
        let val = copy_bytes(&v[i].1);
        let ghost kv = k@;
        let ghost vv = val@;
        let ghost r0 = r@;
        r.push((k, val));
        proof {
            assert(r@.len() == r0.len() + 1);
            assert(pairs_view(r0) == pairs_view(v@).take(i as int));
            assert(pairs_view(r0).len() == r0.len());
            assert(r0.len() == i);
            assert(pairs_view(r@).len() == i + 1);
            assert(forall|j: int| 0 <= j < i ==> r@[j] == r0[j]);
            assert(pairs_view(r@)[i as int] == (kv, vv));
            assert(kv == v@[i as int].0@);
            assert(vv == v@[i as int].1@);
            assert(pairs_view(r@) =~= pairs_view(v@).take(i + 1));
        }
        i = i + 1;
    }
    proof {
        assert(pairs_view(v@).take(v@.len() as int) =~= pairs_view(v@));
    }
    r
}

fn copy_company(c: &Company) -> (r: Company)
    ensures
        r@ == c@,
{
    Company {
        slug: copy_bytes(&c.slug),
        name: copy_bytes(&c.name),
        url: copy_bytes(&c.url),
        batch: c.batch,
        status: c.status,
        location: copy_opt_bytes(&c.location),
        tagline: copy_opt_bytes(&c.tagline),
        sidebar: copy_pairs(&c.sidebar),
        is_hiring: c.is_hiring,
    }
}

/// A company with that slug exists.
pub open spec fn slug_present(cs: Seq<CompanyV>, slug: Seq<u8>) -> bool {
    exists|i: int| 0 <= i < cs.len() && cs[i].slug == slug
}

/// Inserts a company, replacing the row with the same slug when one exists.
pub open spec fn upsert_company(cs: Seq<CompanyV>, c: CompanyV) -> Seq<CompanyV> {
    if slug_present(cs, c.slug) {
        Seq::new(
            cs.len(),
            |i: int|
                if cs[i].slug == c.slug {
                    c
                } else {
                    cs[i]
                },
        )
    } else {
        cs.push(c)
    }
}

/// The fresh company row of a page: later passes fill the derived fields.
pub open spec fn company_seed(page: PageV, slug: Seq<u8>) -> CompanyV {
    CompanyV {
        slug: slug,
        name: display_name_of(page.header_text, slug),
        url: page.url,
        batch: None,
        status: Status::Unknown,
        location: None,
        tagline: None,
        sidebar: Seq::empty(),
        is_hiring: None,
    }
}

/// One page's effect in the identity pass.
pub open spec fn identity_step(cs: Seq<CompanyV>, page: PageV) -> Seq<CompanyV> {
    match slug_of(page.url) {
        None => cs,
        Some(slug) => upsert_company(cs, company_seed(page, slug)),
    }
}

pub open spec fn identity_pass_from(cs: Seq<CompanyV>, pages: Seq<PageV>) -> Seq<CompanyV>
    decreases pages.len(),
{
    if pages.len() == 0 {
        cs
    } else {
        identity_pass_from(identity_step(cs, pages[0]), pages.drop_first())
    }
}

/// The whole identity pass: one company per derivable slug.
pub open spec fn identity_pass(pages: Seq<PageV>) -> Seq<CompanyV> {
    identity_pass_from(Seq::empty(), pages)
}

fn upsert_exec(cs: Vec<Company>, c: Company) -> (r: Vec<Company>)
    ensures
        seq_view(r@) == upsert_company(seq_view(cs@), c@),
{
    let ghost csv = seq_view(cs@);
    let mut fi: usize = 0;
    let mut found = false;
    while fi < cs.len() && !found
        invariant
            fi <= cs@.len(),
            csv == seq_view(cs@),
            found ==> fi < cs@.len() && csv[fi as int].slug == c@.slug,
            !found ==> forall|j: int| 0 <= j < fi ==> csv[j].slug != c@.slug,
        decreases cs@.len() - fi + if found {
            0int
        } else {
            1int
        },
    {
        proof {
            assert(csv[fi as int] == cs@[fi as int]@);
        }
        if bytes_eq(cs[fi].slug.as_slice(), c.slug.as_slice()) {
            found = true;
        } else {
            fi = fi + 1;
        }
    }
    if !found {
        proof {
            assert(!slug_present(csv, c@.slug));
        }
        let ghost cv = c@;
        let mut cs2 = cs;
        cs2.push(c);
        proof {
            assert(seq_view(cs2@) =~= csv.push(cv));
        }
        cs2
    } else {
        proof {
            assert(slug_present(csv, c@.slug));
        }
        let ghost m = upsert_company(csv, c@);
        let ghost cv = c@;
        let mut r: Vec<Company> = Vec::new();
        proof {
            assert(m.len() == csv.len());
            assert(seq_view(r@) =~= m.take(0));
        }
        let mut k: usize = 0;
        while k < cs.len()
            invariant
                k <= cs@.len(),
                csv == seq_view(cs@),
                cv == c@,
                slug_present(csv, cv.slug),
                m == upsert_company(csv, cv),
                m.len() == csv.len(),
                seq_view(r@) == m.take(k as int),
            decreases cs@.len() - k,
        {
            proof {
                assert(csv[k as int] == cs@[k as int]@);
            }
            let same = bytes_eq(cs[k].slug.as_slice(), c.slug.as_slice());
            let nc = if same {
                copy_company(&c)
            } else {
                copy_company(&cs[k])
            };
            let ghost ncv = nc@;
            let ghost r0 = seq_view(r@);
            r.push(nc);
            proof {
                assert(m[k as int] == if csv[k as int].slug == cv.slug {
                    cv
                } else {
                    csv[k as int]
                });
                assert(seq_view(r@) =~= r0.push(ncv));
                assert(seq_view(r@) =~= m.take(k + 1));
            }
            k = k + 1;
        }
        proof {
            assert(m.take(m.len() as int) =~= m);
        }
        r
    }
}

/// Runs the identity pass.
pub fn run_identity(pages: &Vec<Page>) -> (companies: Vec<Company>)
    ensures
        seq_view(companies@) == identity_pass(seq_view(pages@)),
{
    let ghost pv = seq_view(pages@);
    let mut companies: Vec<Company> = Vec::new();
    proof {
        assert(pv.skip(0) =~= pv);
        assert(seq_view(companies@) =~= Seq::<CompanyV>::empty());
    }
    let mut i: usize = 0;
    while i < pages.len()
        invariant
            i <= pages@.len(),
            pv == seq_view(pages@),
            identity_pass(pv) == identity_pass_from(seq_view(companies@), pv.skip(i as int)),
        decreases pages@.len() - i,
    {
        proof {
            assert(pv.skip(i as int)[0] == pages@[i as int]@);
            assert(pv.skip(i as int).drop_first() =~= pv.skip(i + 1));
        }
        let ghost page_v = pv[i as int];
        let ghost cs_start = seq_view(companies@);
        let slug_opt = slug_from_url(pages[i].url.as_slice());
        match slug_opt {
            None => {
                proof {
                    assert(identity_step(cs_start, page_v) == cs_start);
                }
            },
            Some(slug) => {
                let name = display_name(&pages[i].header_text, slug.as_slice());
                let url = copy_bytes(&pages[i].url);
                let seed = Company {
                    slug,
                    name,
                    url,
                    batch: None,
                    status: Status::Unknown,
                    location: None,
                    tagline: None,
                    sidebar: Vec::new(),
                    is_hiring: None,
                };
                proof {
                    assert(seed@.sidebar =~= Seq::<(Seq<u8>, Seq<u8>)>::empty());
                    assert(seed@ == company_seed(page_v, seed@.slug));
                    assert(identity_step(cs_start, page_v) == upsert_company(cs_start, seed@));
                }
                companies = upsert_exec(companies, seed);
                proof {
                    assert(seq_view(companies@) == identity_step(cs_start, page_v));
                }
            },
        }
        proof {
            assert(identity_pass_from(cs_start, pv.skip(i as int)) == identity_pass_from(
                identity_step(cs_start, page_v),
                pv.skip(i + 1),
            ));
        }
        i = i + 1;
    }
    proof {
        assert(pv.skip(pv.len() as int) =~= Seq::<PageV>::empty());
    }
    companies
}

/// The batch field updated on every row with the given slug.
pub open spec fn with_batch(c: CompanyV, b: Option<Batch>) -> CompanyV {
    CompanyV { batch: b, ..c }
}

pub open spec fn with_status_location(c: CompanyV, st: Status, loc: Option<Seq<u8>>) -> CompanyV {
    CompanyV { status: st, location: loc, ..c }
}

pub open spec fn with_details(
    c: CompanyV,
    tagline: Option<Seq<u8>>,
    sidebar: Seq<(Seq<u8>, Seq<u8>)>,
    hiring: Option<bool>,
) -> CompanyV {
    CompanyV { tagline: tagline, sidebar: sidebar, is_hiring: hiring, ..c }
}

/// One page's effect in the batch pass.
pub open spec fn batch_step(cs: Seq<CompanyV>, page: PageV) -> Seq<CompanyV> {
    match slug_of(page.url) {
        None => cs,
        Some(slug) => Seq::new(
            cs.len(),
            |i: int|
                if cs[i].slug == slug {
                    with_batch(cs[i], batch_of(page.header_text))
                } else {
                    cs[i]
                },
        ),
    }
}

pub open spec fn batch_pass_from(cs: Seq<CompanyV>, pages: Seq<PageV>) -> Seq<CompanyV>
    decreases pages.len(),
{
    if pages.len() == 0 {
        cs
    } else {
        batch_pass_from(batch_step(cs, pages[0]), pages.drop_first())
    }
}

/// One page's effect in the status/location pass.
pub open spec fn status_step(cs: Seq<CompanyV>, page: PageV) -> Seq<CompanyV> {
    match slug_of(page.url) {
        None => cs,
        Some(slug) => Seq::new(
            cs.len(),
            |i: int|
                if cs[i].slug == slug {
                    with_status_location(
                        cs[i],
                        status_of(page.header_text),
                        location_of(page.header_text),
                    )
                } else {
                    cs[i]
                },
        ),
    }
}

pub open spec fn status_pass_from(cs: Seq<CompanyV>, pages: Seq<PageV>) -> Seq<CompanyV>
    decreases pages.len(),
{
    if pages.len() == 0 {
        cs
    } else {
        status_pass_from(status_step(cs, pages[0]), pages.drop_first())
    }
}

/// One page's effect in the details pass.
pub open spec fn details_step(cs: Seq<CompanyV>, page: PageV) -> Seq<CompanyV> {
    match slug_of(page.url) {
        None => cs,
        Some(slug) => Seq::new(
            cs.len(),
            |i: int|
                if cs[i].slug == slug {
                    with_details(
                        cs[i],
                        tagline_of(page.header_text),
                        sidebar_of(page.header_text),
                        hiring_of(page.header_text),
                    )
                } else {
                    cs[i]
                },
        ),
    }
}

pub open spec fn details_pass_from(cs: Seq<CompanyV>, pages: Seq<PageV>) -> Seq<CompanyV>
    decreases pages.len(),
{
    if pages.len() == 0 {
        cs
    } else {
        details_pass_from(details_step(cs, pages[0]), pages.drop_first())
    }
}

fn update_page_exec(cs: Vec<Company>, page: &Page, which: u8) -> (r: Vec<Company>)
    requires
        which == 2 || which == 3 || which == 5,
    ensures
        which == 2 ==> seq_view(r@) == batch_step(seq_view(cs@), page@),
        which == 3 ==> seq_view(r@) == status_step(seq_view(cs@), page@),
        which == 5 ==> seq_view(r@) == details_step(seq_view(cs@), page@),
{
    let ghost csv = seq_view(cs@);
    let slug_opt = slug_from_url(page.url.as_slice());
    let ghost so = opt_view(slug_opt);
    let slug = match slug_opt {
        None => {
            proof {
                if which == 2 {
                    assert(batch_step(csv, page@) == csv);
                } else if which == 3 {
                    assert(status_step(csv, page@) == csv);
                } else {
                    assert(details_step(csv, page@) == csv);
                }
            }
            return cs;
        },
        Some(s) => s,
    };
    let ghost m: Seq<CompanyV> = if which == 2 {
        batch_step(csv, page@)
    } else if which == 3 {
        status_step(csv, page@)
    } else {
        details_step(csv, page@)
    };
    let mut r: Vec<Company> = Vec::new();
    proof {
        assert(m.len() == csv.len());
        assert(seq_view(r@) =~= m.take(0));
    }
    let mut k: usize = 0;
    while k < cs.len()
        invariant
            k <= cs@.len(),
            csv == seq_view(cs@),
            which == 2 || which == 3 || which == 5,
            slug_of(page@.url) == Some(slug@),
            m == if which == 2 {
                batch_step(csv, page@)
            } else if which == 3 {
                status_step(csv, page@)
            } else {
                details_step(csv, page@)
            },
            m.len() == csv.len(),
            seq_view(r@) == m.take(k as int),
        decreases cs@.len() - k,
    {
        proof {
            assert(csv[k as int] == cs@[k as int]@);
        }
        let same = bytes_eq(cs[k].slug.as_slice(), slug.as_slice());
        let nc = if same {
            if which == 2 {
                let b = parse_batch(&page.header_text);
                Company { batch: b, ..copy_company(&cs[k]) }
            } else if which == 3 {
                let st = parse_status(&page.header_text);
                let loc = parse_location(&page.header_text);
                Company { status: st, location: loc, ..copy_company(&cs[k]) }
            } else {
                let tl = parse_tagline(&page.header_text);
                let sb = parse_sidebar(&page.header_text);
                let hi = parse_hiring(&page.header_text);
                Company { tagline: tl, sidebar: sb, is_hiring: hi, ..copy_company(&cs[k]) }
            }
        } else {
            copy_company(&cs[k])
        };
        let ghost ncv = nc@;
        let ghost r0 = seq_view(r@);
        r.push(nc);
        proof {
            if csv[k as int].slug == slug@ {
                if which == 2 {
                    assert(ncv == with_batch(csv[k as int], batch_of(page@.header_text)));
                } else if which == 3 {
                    assert(ncv == with_status_location(
                        csv[k as int],
                        status_of(page@.header_text),
                        location_of(page@.header_text),
                    ));
                } else {
                    assert(ncv == with_details(
                        csv[k as int],
                        tagline_of(page@.header_text),
                        sidebar_of(page@.header_text),
                        hiring_of(page@.header_text),
                    ));
                }
            } else {
                assert(ncv == csv[k as int]);
            }
            assert(m[k as int] == ncv);
            assert(seq_view(r@) =~= r0.push(ncv));
            assert(seq_view(r@) =~= m.take(k + 1));
        }
        k = k + 1;
    }
    proof {
        assert(m.take(m.len() as int) =~= m);
    }
    r
}

/// Runs the batch pass over the companies table.
pub fn run_batch(companies: Vec<Company>, pages: &Vec<Page>) -> (r: Vec<Company>)
    ensures
        seq_view(r@) == batch_pass_from(seq_view(companies@), seq_view(pages@)),
{
    let ghost pv = seq_view(pages@);
    let ghost cs0 = seq_view(companies@);
    let mut cs = companies;
    proof {
        assert(pv.skip(0) =~= pv);
    }
    let mut i: usize = 0;
    while i < pages.len()
        invariant
            i <= pages@.len(),
            pv == seq_view(pages@),
            batch_pass_from(cs0, pv) == batch_pass_from(seq_view(cs@), pv.skip(i as int)),
        decreases pages@.len() - i,
    {
        proof {
            assert(pv.skip(i as int)[0] == pages@[i as int]@);
            assert(pv.skip(i as int).drop_first() =~= pv.skip(i + 1));
        }
        let ghost page_v = pv[i as int];
        let ghost prev = seq_view(cs@);
        cs = update_page_exec(cs, &pages[i], 2);
        proof {
            assert(seq_view(cs@) == batch_step(prev, page_v));
            assert(batch_pass_from(prev, pv.skip(i as int)) == batch_pass_from(
                batch_step(prev, page_v),
                pv.skip(i + 1),
            ));
        }
        i = i + 1;
    }
    proof {
        assert(pv.skip(pv.len() as int) =~= Seq::<PageV>::empty());
    }
    cs
}

/// Runs the status/location pass over the companies table.
pub fn run_status_location(companies: Vec<Company>, pages: &Vec<Page>) -> (r: Vec<Company>)
    ensures
        seq_view(r@) == status_pass_from(seq_view(companies@), seq_view(pages@)),
{
    let ghost pv = seq_view(pages@);
    let ghost cs0 = seq_view(companies@);
    let mut cs = companies;
    proof {
        assert(pv.skip(0) =~= pv);
    }
    let mut i: usize = 0;
    while i < pages.len()
        invariant
            i <= pages@.len(),
            pv == seq_view(pages@),
            status_pass_from(cs0, pv) == status_pass_from(seq_view(cs@), pv.skip(i as int)),
        decreases pages@.len() - i,
    {
        proof {
            assert(pv.skip(i as int)[0] == pages@[i as int]@);
            assert(pv.skip(i as int).drop_first() =~= pv.skip(i + 1));
        }
        let ghost page_v = pv[i as int];
        let ghost prev = seq_view(cs@);
        cs = update_page_exec(cs, &pages[i], 3);
        proof {
            assert(seq_view(cs@) == status_step(prev, page_v));
            assert(status_pass_from(prev, pv.skip(i as int)) == status_pass_from(
                status_step(prev, page_v),
                pv.skip(i + 1),
            ));
        }
        i = i + 1;
    }
    proof {
        assert(pv.skip(pv.len() as int) =~= Seq::<PageV>::empty());
    }
    cs
}

/// Runs the details pass over the companies table.
pub fn run_details(companies: Vec<Company>, pages: &Vec<Page>) -> (r: Vec<Company>)
    ensures
        seq_view(r@) == details_pass_from(seq_view(companies@), seq_view(pages@)),
{
    let ghost pv = seq_view(pages@);
    let ghost cs0 = seq_view(companies@);
    let mut cs = companies;
    proof {
        assert(pv.skip(0) =~= pv);
    }
    let mut i: usize = 0;
    while i < pages.len()
        invariant
            i <= pages@.len(),
            pv == seq_view(pages@),
            details_pass_from(cs0, pv) == details_pass_from(seq_view(cs@), pv.skip(i as int)),
        decreases pages@.len() - i,
    {
        proof {
            assert(pv.skip(i as int)[0] == pages@[i as int]@);
            assert(pv.skip(i as int).drop_first() =~= pv.skip(i + 1));
        }
        let ghost page_v = pv[i as int];
        let ghost prev = seq_view(cs@);
        cs = update_page_exec(cs, &pages[i], 5);
        proof {
            assert(seq_view(cs@) == details_step(prev, page_v));
            assert(details_pass_from(prev, pv.skip(i as int)) == details_pass_from(
                details_step(prev, page_v),
                pv.skip(i + 1),
            ));
        }
        i = i + 1;
    }
    proof {
        assert(pv.skip(pv.len() as int) =~= Seq::<PageV>::empty());
    }
    cs
}

} // verus!
