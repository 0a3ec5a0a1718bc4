//! Founders pass and news pass.
//!
//! Founders come from `Founder:` lines as `name - role`; names are
//! whitespace-collapsed here so that later matching runs on clean strings.
//! Each founder row gets its surrogate id: its index in the founders table.
//! News mentions come from `News:` lines as `title | url | date`, the last
//! two parts optional.

use vstd::prelude::*;
use vstd::slice::slice_subrange;
use crate::identity::slug_of;
use crate::identity::slug_from_url;
use crate::model::Founder;
use crate::model::FounderV;
use crate::model::NewsRow;
use crate::model::NewsRowV;
use crate::model::Page;
use crate::model::PageV;
use crate::model::copy_bytes;
use crate::model::seq_view;
use crate::text::field_values;
use crate::text::field_values_spec;
use crate::text::find_byte;
use crate::text::first_byte_idx;
use crate::text::join_seq;
use crate::text::join_with;
use crate::text::lit;
use crate::text::lit_bytes;
use crate::text::split_seq;
use crate::text::tokens;
use crate::text::tokens_of;
use crate::text::trim;
use crate::text::trim_bytes;
use crate::text::views;

verus! {

/// A name with its whitespace collapsed to single spaces.
pub open spec fn norm_name(s: Seq<u8>) -> Seq<u8> {
    join_seq(tokens_of(s), lit(" "))
}

/// Collapses whitespace in a name.
pub fn normalize_name(s: &[u8]) -> (r: Vec<u8>)
    ensures
        r@ == norm_name(s@),
{
    let parts = tokens(s);
    proof {
        reveal_strlit(" ");
    }
    let sep = lit_bytes(" ");
    join_with(&parts, sep.as_slice())
}

/// The `(name, role)` carried by one `Founder:` value: split at the first
/// `-`, the name whitespace-collapsed, the role trimmed (empty when the
/// separator is absent).
pub open spec fn founder_pair_of(v: Seq<u8>) -> (Seq<u8>, Seq<u8>) {
    let c = first_byte_idx(v, 45);
    if 0 <= c < v.len() {
        (norm_name(v.take(c)), trim(v.skip(c + 1)))
    } else {
        (norm_name(v), Seq::empty())
    }
}

fn founder_pair(v: &[u8]) -> (r: (Vec<u8>, Vec<u8>))
    ensures
        r.0@ == founder_pair_of(v@).0,
        r.1@ == founder_pair_of(v@).1,
{
    let c = find_byte(v, 45);
    if c < v.len() {
        let name = normalize_name(slice_subrange(v, 0, c));
        let role = trim_bytes(slice_subrange(v, c + 1, v.len()));
        proof {
            assert(v@.subrange(0, c as int) =~= v@.take(c as int));
            assert(v@.subrange(c + 1, v@.len() as int) =~= v@.skip(c + 1));
        }
        (name, role)
    } else {
        let name = normalize_name(v);
        let role: Vec<u8> = Vec::new();
        (name, role)
    }
}

/// Appends one founder row per value, ids continuing from `acc`.
pub open spec fn add_founders(acc: Seq<FounderV>, slug: Seq<u8>, vals: Seq<Seq<u8>>) -> Seq<
    FounderV,
>
    decreases vals.len(),
{
    if vals.len() == 0 {
        acc
    } else {
        let p = founder_pair_of(vals[0]);
        add_founders(
            acc.push(
                FounderV { id: acc.len() as usize, company_slug: slug, name: p.0, role: p.1 },
            ),
            slug,
            vals.drop_first(),
        )
    }
}

/// One page's contribution to the founders table.
pub open spec fn founders_step(acc: Seq<FounderV>, page: PageV) -> Seq<FounderV> {
    match slug_of(page.url) {
        None => acc,
        Some(slug) => match page.header_text {
            None => acc,
            Some(h) => add_founders(acc, slug, field_values_spec(h, lit("Founder"))),
        },
    }
}

pub open spec fn founders_pass_from(acc: Seq<FounderV>, pages: Seq<PageV>) -> Seq<FounderV>
    decreases pages.len(),
{
    if pages.len() == 0 {
        acc
    } else {
        founders_pass_from(founders_step(acc, pages[0]), pages.drop_first())
    }
}

/// The whole founders pass over the page collection.
pub open spec fn founders_pass(pages: Seq<PageV>) -> Seq<FounderV> {
    founders_pass_from(Seq::empty(), pages)
}

/// Runs the founders pass: one row per `Founder:` line of each page with a
/// slug, in page order, ids in insertion order.
pub fn run_founders(pages: &Vec<Page>) -> (rows: Vec<Founder>)
    ensures
        seq_view(rows@) == founders_pass(seq_view(pages@)),
{
    let ghost pv = seq_view(pages@);
    let mut rows: Vec<Founder> = Vec::new();
    proof {
        assert(pv.skip(0) =~= pv);
        assert(seq_view(rows@) =~= Seq::<FounderV>::empty());
    }
    let mut i: usize = 0;
    while i < pages.len()
        invariant
            i <= pages@.len(),
            pv == seq_view(pages@),
            founders_pass(pv) == founders_pass_from(seq_view(rows@), pv.skip(i as int)),
        decreases pages@.len() - i,
    {
        proof {
            assert(pv.skip(i as int)[0] == pages@[i as int]@);
            assert(pv.skip(i as int).drop_first() =~= pv.skip(i + 1));
        }
        let ghost page_v = pv[i as int];
        let ghost rows_start = seq_view(rows@);
        let slug_opt = slug_from_url(pages[i].url.as_slice());
        match slug_opt {
            None => {
                proof {
                    assert(founders_step(rows_start, page_v) == rows_start);
                }
            },
            Some(slug) => {
                match &pages[i].header_text {
                    None => {
                        proof {
                            assert(founders_step(rows_start, page_v) == rows_start);
                        }
                    },
                    Some(h) => {
                        proof {
                            reveal_strlit("Founder");
                        }
                        let label = lit_bytes("Founder");
                        let vals = field_values(h.as_slice(), label.as_slice());
                        let ghost vv = views(vals@);
                        proof {
                            assert(vv.skip(0) =~= vv);
                            assert(founders_step(rows_start, page_v) == add_founders(
                                rows_start,
                                slug@,
                                vv,
                            ));
                        }
                        let mut j: usize = 0;
                        while j < vals.len()
                            invariant
                                j <= vals@.len(),
                                vv == views(vals@),
                                founders_step(rows_start, page_v) == add_founders(
                                    seq_view(rows@),
                                    slug@,
                                    vv.skip(j as int),
                                ),
                            decreases vals@.len() - j,
                        {
                            proof {
                                assert(vv.skip(j as int)[0] == vals@[j as int]@);
                                assert(vv.skip(j as int).drop_first() =~= vv.skip(j + 1));
                            }
                            let p = founder_pair(vals[j].as_slice());
                            let row = Founder {
                                id: rows.len(),
                                company_slug: copy_bytes(&slug),
                                name: p.0,
                                role: p.1,
                            };
                            let ghost rowv = row@;
                            let ghost r0 = seq_view(rows@);
                            rows.push(row);
                            proof {
                                assert(seq_view(rows@) =~= r0.push(rowv));
                                assert(r0.len() == rows@.len() - 1);
                                assert(rowv == FounderV {
                                    id: r0.len() as usize,
                                    company_slug: slug@,
                                    name: founder_pair_of(vv.skip(j as int)[0]).0,
                                    role: founder_pair_of(vv.skip(j as int)[0]).1,
                                });
                                assert(add_founders(r0, slug@, vv.skip(j as int)) == add_founders(
                                    seq_view(rows@),
                                    slug@,
                                    vv.skip(j + 1),
                                ));
                            }
                            j = j + 1;
                        }
                        proof {
                            assert(vv.skip(vv.len() as int) =~= Seq::<Seq<u8>>::empty());
                        }
                    },
                }
            },
        }
        i = i + 1;
    }
    proof {
        assert(pv.skip(pv.len() as int) =~= Seq::<PageV>::empty());
    }
    rows
}

/// The news row carried by one `News:` value: `title | url | date`, the
/// last two optional and dropped when empty.
pub open spec fn news_item_of(slug: Seq<u8>, v: Seq<u8>) -> NewsRowV {
    let parts = split_seq(v, 124);
    NewsRowV {
        company_slug: slug,
        title: trim(parts[0]),
        url: if parts.len() >= 2 && trim(parts[1]).len() > 0 {
            Some(trim(parts[1]))
        } else {
            None
        },
        date: if parts.len() >= 3 && trim(parts[2]).len() > 0 {
            Some(trim(parts[2]))
        } else {
            None
        },
    }
}

fn news_item(slug: &[u8], v: &[u8]) -> (r: NewsRow)
    ensures
        r@ == news_item_of(slug@, v@),
{
    let parts = crate::text::split_on(v, 124);
    proof {
        assert(views(parts@)[0] == parts@[0]@);
    }
    let title = trim_bytes(parts[0].as_slice());
    let url = if parts.len() >= 2 {
        proof {
            assert(views(parts@)[1] == parts@[1]@);
        }
        let u = trim_bytes(parts[1].as_slice());
        if u.len() > 0 {
            Some(u)
        } else {
            None
        }
    } else {
        None
    };
    let date = if parts.len() >= 3 {
        proof {
            assert(views(parts@)[2] == parts@[2]@);
        }
        let d = trim_bytes(parts[2].as_slice());
        if d.len() > 0 {
            Some(d)
        } else {
            None
        }
    } else {
        None
    };
    NewsRow { company_slug: crate::model::copy_bytes_slice(slug), title, url, date }
}

/// Appends one news row per value.
pub open spec fn add_news(acc: Seq<NewsRowV>, slug: Seq<u8>, vals: Seq<Seq<u8>>) -> Seq<NewsRowV>
    decreases vals.len(),
{
    if vals.len() == 0 {
        acc
    } else {
        add_news(acc.push(news_item_of(slug, vals[0])), slug, vals.drop_first())
    }
}

/// One page's contribution to the news table.
pub open spec fn news_step(acc: Seq<NewsRowV>, page: PageV) -> Seq<NewsRowV> {
    match slug_of(page.url) {
        None => acc,
        Some(slug) => match page.header_text {
            None => acc,
            Some(h) => add_news(acc, slug, field_values_spec(h, lit("News"))),
        },
    }
}

pub open spec fn news_pass_from(acc: Seq<NewsRowV>, pages: Seq<PageV>) -> Seq<NewsRowV>
    decreases pages.len(),
{
    if pages.len() == 0 {
        acc
    } else {
        news_pass_from(news_step(acc, pages[0]), pages.drop_first())
    }
}

/// The whole news pass over the page collection.
pub open spec fn news_pass(pages: Seq<PageV>) -> Seq<NewsRowV> {
    news_pass_from(Seq::empty(), pages)
}

/// Runs the news pass: one row per `News:` line of each page with a slug,
/// in page order.
pub fn run_news(pages: &Vec<Page>) -> (rows: Vec<NewsRow>)
    ensures
        seq_view(rows@) == news_pass(seq_view(pages@)),
{
    let ghost pv = seq_view(pages@);
    let mut rows: Vec<NewsRow> = Vec::new();
    proof {
        assert(pv.skip(0) =~= pv);
        assert(seq_view(rows@) =~= Seq::<NewsRowV>::empty());
    }
    let mut i: usize = 0;
    while i < pages.len()
        invariant
            i <= pages@.len(),
            pv == seq_view(pages@),
            news_pass(pv) == news_pass_from(seq_view(rows@), pv.skip(i as int)),
        decreases pages@.len() - i,
    {
        proof {
            assert(pv.skip(i as int)[0] == pages@[i as int]@);
            assert(pv.skip(i as int).drop_first() =~= pv.skip(i + 1));
        }
        let ghost page_v = pv[i as int];
        let ghost rows_start = seq_view(rows@);
        let slug_opt = slug_from_url(pages[i].url.as_slice());
        match slug_opt {
            None => {
                proof {
                    assert(news_step(rows_start, page_v) == rows_start);
                }
            },
            Some(slug) => {
                match &pages[i].header_text {
                    None => {
                        proof {
                            assert(news_step(rows_start, page_v) == rows_start);
                        }
                    },
                    Some(h) => {
                        proof {
                            reveal_strlit("News");
                        }
                        let label = lit_bytes("News");
                        let vals = field_values(h.as_slice(), label.as_slice());
                        let ghost vv = views(vals@);
                        proof {
                            assert(vv.skip(0) =~= vv);
                            assert(news_step(rows_start, page_v) == add_news(
                                rows_start,
                                slug@,
                                vv,
                            ));
                        }
                        let mut j: usize = 0;
                        while j < vals.len()
                            invariant
                                j <= vals@.len(),
                                vv == views(vals@),
                                news_step(rows_start, page_v) == add_news(
                                    seq_view(rows@),
                                    slug@,
                                    vv.skip(j as int),
                                ),
                            decreases vals@.len() - j,
                        {
                            proof {
                                assert(vv.skip(j as int)[0] == vals@[j as int]@);
                                assert(vv.skip(j as int).drop_first() =~= vv.skip(j + 1));
                            }
                            let row = news_item(slug.as_slice(), vals[j].as_slice());
                            let ghost rowv = row@;
                            let ghost r0 = seq_view(rows@);
                            rows.push(row);
                            proof {
                                assert(seq_view(rows@) =~= r0.push(rowv));
                                assert(add_news(r0, slug@, vv.skip(j as int)) == add_news(
                                    seq_view(rows@),
                                    slug@,
                                    vv.skip(j + 1),
                                ));
                            }
                            j = j + 1;
                        }
                        proof {
                            assert(vv.skip(vv.len() as int) =~= Seq::<Seq<u8>>::empty());
                        }
                    },
                }
            },
        }
        i = i + 1;
    }
    proof {
        assert(pv.skip(pv.len() as int) =~= Seq::<PageV>::empty());
    }
    rows
}

} // verus!
