//! Links pass: extracts and classifies the external links of each company.
//!
//! Links come from the page's JSON side field (an array of url strings).
//! Internal urls are dropped, every surviving url is bucketed by its pattern
//! (host plus first path segment), and personal-profile urls are attributed
//! to a founder whose name occurs in the url.

use vstd::prelude::*;
use vstd::slice::slice_subrange;
use vstd::slice::slice_to_vec;
use crate::identity::slug_of;
use crate::identity::slug_from_url;
use crate::identity::strip_scheme;
use crate::identity::strip_scheme_spec;
use crate::model::Founder;
use crate::model::FounderV;
use crate::model::LinkRow;
use crate::model::LinkRowV;
use crate::model::Page;
use crate::model::PageV;
use crate::model::copy_bytes;
use crate::model::seq_view;
use crate::text::append_bytes;
use crate::text::contains_seq;
use crate::text::contains_sub;
use crate::text::first_byte_idx;
use crate::text::find_byte;
use crate::text::is_prefix;
use crate::text::join_seq;
use crate::text::join_with;
use crate::text::lit;
use crate::text::lit_bytes;
use crate::text::lower;
use crate::text::lower_bytes;
use crate::text::opt_view;
use crate::text::starts_with;
use crate::text::tokens;
use crate::text::tokens_of;
use crate::text::views;

verus! {

/// A url belonging to the source site itself or its tooling; such urls
/// never become link rows.
pub open spec fn is_internal(url: Seq<u8>) -> bool {
    contains_seq(url, lit("ycombinator.com")) || contains_seq(url, lit("startupschool.org"))
}

/// Tests whether a url is internal.
pub fn check_internal(url: &[u8]) -> (r: bool)
    ensures
        r == is_internal(url@),
{
    proof {
        reveal_strlit("ycombinator.com");
        reveal_strlit("startupschool.org");
    }
    let yc = lit_bytes("ycombinator.com");
    let ss = lit_bytes("startupschool.org");
    let a = contains_sub(url, yc.as_slice());
    let b = contains_sub(url, ss.as_slice());
    a || b
}

/// The reporting pattern of a url: scheme and leading `www.` stripped, host
/// concatenated with the first path segment when one is present.
pub open spec fn pattern_of(url: Seq<u8>) -> Option<Seq<u8>> {
    match strip_scheme_spec(url) {
        None => None,
        Some(rest) => {
            let d = first_byte_idx(rest, 47);
            let domain = rest.take(d);
            let dom = if is_prefix(lit("www."), domain) {
                domain.skip(4)
            } else {
                domain
            };
            if d < rest.len() {
                let after = rest.skip(d + 1);
                let e = first_byte_idx(after, 47);
                let seg = after.take(e);
                if seg.len() > 0 {
                    Some(dom + lit("/") + seg)
                } else {
                    Some(dom)
                }
            } else {
                Some(dom)
            }
        },
    }
}

/// Derives the reporting pattern of a url; `None` when the url carries no
/// `http(s)://` scheme.
pub fn url_pattern(url: &[u8]) -> (r: Option<Vec<u8>>)
    ensures
        opt_view(r) == pattern_of(url@),
{
    match strip_scheme(url) {
        None => None,
        Some(rest) => {
            let d = find_byte(rest, 47);
            let domain = slice_subrange(rest, 0, d);
            proof {
                assert(domain@ =~= rest@.take(d as int));
                reveal_strlit("www.");
            }
            let www = lit_bytes("www.");
            let use_www = starts_with(domain, www.as_slice());
            let dom = if use_www {
                let dd = slice_subrange(domain, 4, domain.len());
                proof {
                    assert(dd@ =~= domain@.skip(4));
                }
                dd
            } else {
                domain
            };
            if d < rest.len() {
                let after = slice_subrange(rest, d + 1, rest.len());
                proof {
                    assert(after@ =~= rest@.skip(d + 1));
                }
                let e = find_byte(after, 47);
                let seg = slice_subrange(after, 0, e);
                proof {
                    assert(seg@ =~= after@.take(e as int));
                }
                if seg.len() > 0 {
                    let mut out = slice_to_vec(dom);
                    out.push(47);
                    append_bytes(&mut out, seg);
                    proof {
                        reveal_strlit("/");
                        assert(out@ =~= dom@ + lit("/") + seg@);
                    }
                    Some(out)
                } else {
                    Some(slice_to_vec(dom))
                }
            } else {
                Some(slice_to_vec(dom))
            }
        },
    }
}

/// A url shaped like a personal profile on a professional network or a
/// social microblog; only these are candidates for founder attribution.
pub open spec fn is_profile_url(url_lower: Seq<u8>) -> bool {
    contains_seq(url_lower, lit("linkedin.com/in/")) || contains_seq(url_lower, lit("twitter.com/"))
        || contains_seq(url_lower, lit("x.com/"))
}

/// A name variant matches when it is at least four bytes long and occurs in
/// the lower-cased url; shorter variants risk false positives.
pub open spec fn variant_hits(url_lower: Seq<u8>, v: Seq<u8>) -> bool {
    v.len() >= 4 && contains_seq(url_lower, v)
}

/// A founder name matches a lower-cased url: by last name alone, or by the
/// full name joined with `-`, with nothing, or with `_`.
pub open spec fn name_matches(url_lower: Seq<u8>, name: Seq<u8>) -> bool {
    let parts = tokens_of(lower(name));
    (parts.len() > 0 && variant_hits(url_lower, parts.last())) || variant_hits(
        url_lower,
        join_seq(parts, lit("-")),
    ) || variant_hits(url_lower, join_seq(parts, lit(""))) || variant_hits(
        url_lower,
        join_seq(parts, lit("_")),
    )
}

/// The id of the first founder whose name matches the lower-cased url.
pub open spec fn first_match(url_lower: Seq<u8>, founders: Seq<FounderV>) -> Option<usize>
    decreases founders.len(),
{
    if founders.len() == 0 {
        None
    } else if name_matches(url_lower, founders[0].name) {
        Some(founders[0].id)
    } else {
        first_match(url_lower, founders.drop_first())
    }
}

/// Founder attribution: `None` for urls that are not personal profiles,
/// else the first founder (in table order) whose name matches.
pub open spec fn match_founder_spec(url: Seq<u8>, founders: Seq<FounderV>) -> Option<usize> {
    if !is_profile_url(lower(url)) {
        None
    } else {
        first_match(lower(url), founders)
    }
}

fn name_hits(url_lower: &[u8], name: &[u8]) -> (r: bool)
    ensures
        r == name_matches(url_lower@, name@),
{
    let nl = lower_bytes(name);
    let parts = tokens(nl.as_slice());
    if parts.len() > 0 {
        let last = parts[parts.len() - 1].as_slice();
        proof {
            assert(views(parts@)[parts@.len() - 1] == parts@[parts@.len() - 1]@);
        }
        if last.len() >= 4 {
            if contains_sub(url_lower, last) {
                return true;
            }
        }
    }
    proof {
        reveal_strlit("-");
        reveal_strlit("");
        reveal_strlit("_");
    }
    let hy = lit_bytes("-");
    let em = lit_bytes("");
    let us = lit_bytes("_");
    let v1 = join_with(&parts, hy.as_slice());
    if v1.len() >= 4 {
        if contains_sub(url_lower, v1.as_slice()) {
            return true;
        }
    }
    let v2 = join_with(&parts, em.as_slice());
    if v2.len() >= 4 {
        if contains_sub(url_lower, v2.as_slice()) {
            return true;
        }
    }
    let v3 = join_with(&parts, us.as_slice());
    if v3.len() >= 4 {
        if contains_sub(url_lower, v3.as_slice()) {
            return true;
        }
    }
    false
}

/// Matches a url against the founders of one company, returning the first
/// matching founder's id.
pub fn match_founder(url: &[u8], founders: &Vec<Founder>) -> (r: Option<usize>)
    ensures
        r == match_founder_spec(url@, seq_view(founders@)),
{
    let url_lower = lower_bytes(url);
    proof {
        reveal_strlit("linkedin.com/in/");
        reveal_strlit("twitter.com/");
        reveal_strlit("x.com/");
    }
    let li = lit_bytes("linkedin.com/in/");
    let tw = lit_bytes("twitter.com/");
    let xc = lit_bytes("x.com/");
    let has_li = contains_sub(url_lower.as_slice(), li.as_slice());
    let has_tw = contains_sub(url_lower.as_slice(), tw.as_slice());
    let has_x = contains_sub(url_lower.as_slice(), xc.as_slice());
    if !has_li && !has_tw && !has_x {
        return None;
    }
    let ghost fsv = seq_view(founders@);
    proof {
        assert(fsv.skip(0) =~= fsv);
    }
    let mut i: usize = 0;
    while i < founders.len()
        invariant
            i <= founders@.len(),
            fsv == seq_view(founders@),
            is_profile_url(lower(url@)),
            url_lower@ == lower(url@),
            first_match(lower(url@), fsv) == first_match(lower(url@), fsv.skip(i as int)),
        decreases founders@.len() - i,
    {
        proof {
            assert(fsv.skip(i as int)[0] == founders@[i as int]@);
            assert(fsv.skip(i as int).drop_first() =~= fsv.skip(i + 1));
        }
        let hit = name_hits(url_lower.as_slice(), founders[i].name.as_slice());
        if hit {
            return Some(founders[i].id);
        }
        i = i + 1;
    }
    proof {
        assert(fsv.skip(fsv.len() as int) =~= Seq::<FounderV>::empty());
    }
    None
}

/// The founders of one company, in table order.
pub open spec fn founders_for(fs: Seq<FounderV>, slug: Seq<u8>) -> Seq<FounderV>
    decreases fs.len(),
{
    if fs.len() == 0 {
        Seq::empty()
    } else if fs[0].company_slug == slug {
        seq![fs[0]] + founders_for(fs.drop_first(), slug)
    } else {
        founders_for(fs.drop_first(), slug)
    }
}

fn copy_founder(f: &Founder) -> (r: Founder)
    ensures
        r@ == f@,
{
    Founder {
        id: f.id,
        company_slug: copy_bytes(&f.company_slug),
        name: copy_bytes(&f.name),
        role: copy_bytes(&f.role),
    }
}

/// Looks up the founder rows of one company.
pub fn get_founders(founders: &Vec<Founder>, company_slug: &[u8]) -> (r: Vec<Founder>)
    ensures
        seq_view(r@) == founders_for(seq_view(founders@), company_slug@),
{
    let ghost fsv = seq_view(founders@);
    let mut r: Vec<Founder> = Vec::new();
    proof {
        assert(fsv.skip(0) =~= fsv);
        assert(seq_view(r@) + founders_for(fsv, company_slug@) =~= founders_for(
            fsv,
            company_slug@,
        ));
    }
    let mut i: usize = 0;
    while i < founders.len()
        invariant
            i <= founders@.len(),
            fsv == seq_view(founders@),
            founders_for(fsv, company_slug@) == seq_view(r@) + founders_for(
                fsv.skip(i as int),
                company_slug@,
            ),
        decreases founders@.len() - i,
    {
        proof {
            assert(fsv.skip(i as int)[0] == founders@[i as int]@);
            assert(fsv.skip(i as int).drop_first() =~= fsv.skip(i + 1));
        }
        let same = crate::text::bytes_eq(founders[i].company_slug.as_slice(), company_slug);
        if same {
            let f = copy_founder(&founders[i]);
            let ghost fv = f@;
            let ghost r0 = r@;
            r.push(f);
            proof {
                assert(seq_view(r@) =~= seq_view(r0) + seq![fv]);
                assert(founders_for(fsv.skip(i as int), company_slug@) == seq![fsv.skip(
                    i as int,
                )[0]] + founders_for(fsv.skip(i + 1), company_slug@));
                assert(seq_view(r0) + founders_for(fsv.skip(i as int), company_slug@) =~= seq_view(
                    r@,
                ) + founders_for(fsv.skip(i + 1), company_slug@));
            }
        } else {
            proof {
                assert(founders_for(fsv.skip(i as int), company_slug@) == founders_for(
                    fsv.skip(i + 1),
                    company_slug@,
                ));
            }
        }
        i = i + 1;
    }
    proof {
        assert(fsv.skip(fsv.len() as int) =~= Seq::<FounderV>::empty());
    }
    r
}

/// What `serde_json` reads out of a links side field: `Some` exactly when
/// the bytes are a JSON array of strings, and then the decoded elements in
/// order. A function of the bytes alone.
pub uninterp spec fn json_string_array(s: Seq<u8>) -> Option<Seq<Seq<u8>>>;

/// Relies on serde_json::from_slice::<Vec<String>>: deserialization succeeds
/// exactly on JSON arrays of strings and its result depends on the input
/// bytes alone.
#[verifier::external_body]
fn parse_links_json(s: &[u8]) -> (r: Option<Vec<Vec<u8>>>)
    ensures
        r is Some <==> json_string_array(s@) is Some,
        r matches Some(v) ==> json_string_array(s@) == Some(views(v@)),
{
    match serde_json::from_slice::<Vec<String>>(s) {
        Ok(v) => Some(v.into_iter().map(|x| x.into_bytes()).collect()),
        Err(_) => None,
    }
}

/// The link rows derived from one company's url list.
pub open spec fn links_for_urls(slug: Seq<u8>, urls: Seq<Seq<u8>>, founders: Seq<FounderV>) -> Seq<
    LinkRowV,
>
    decreases urls.len(),
{
    if urls.len() == 0 {
        Seq::empty()
    } else {
        let rest = links_for_urls(slug, urls.drop_first(), founders);
        if is_internal(urls[0]) {
            rest
        } else {
            seq![
                LinkRowV {
                    company_slug: slug,
                    founder_id: match_founder_spec(urls[0], founders),
                    url: urls[0],
                    pattern: pattern_of(urls[0]),
                },
            ] + rest
        }
    }
}

/// The link rows derived from one page, given the founders table.
pub open spec fn links_for_page(page: PageV, founders: Seq<FounderV>) -> Seq<LinkRowV> {
    match slug_of(page.url) {
        None => Seq::empty(),
        Some(slug) => match page.external_links_json {
            None => Seq::empty(),
            Some(j) => match json_string_array(j) {
                None => Seq::empty(),
                Some(urls) => links_for_urls(slug, urls, founders_for(founders, slug)),
            },
        },
    }
}

/// The whole links pass over the page collection.
pub open spec fn links_pass(pages: Seq<PageV>, founders: Seq<FounderV>) -> Seq<LinkRowV>
    decreases pages.len(),
{
    if pages.len() == 0 {
        Seq::empty()
    } else {
        links_for_page(pages[0], founders) + links_pass(pages.drop_first(), founders)
    }
}

/// Runs the links pass: one row per surviving url of each page, in page
/// order, with pattern and best-effort founder attribution.
pub fn run(pages: &Vec<Page>, founders: &Vec<Founder>) -> (links: Vec<LinkRow>)
    ensures
        seq_view(links@) == links_pass(seq_view(pages@), seq_view(founders@)),
{
    let ghost pv = seq_view(pages@);
    let ghost fsv = seq_view(founders@);
    let mut links: Vec<LinkRow> = Vec::new();
    proof {
        assert(pv.skip(0) =~= pv);
        assert(seq_view(links@) + links_pass(pv, fsv) =~= links_pass(pv, fsv));
    }
    let mut i: usize = 0;
    while i < pages.len()
        invariant
            i <= pages@.len(),
            pv == seq_view(pages@),
            fsv == seq_view(founders@),
            links_pass(pv, fsv) == seq_view(links@) + links_pass(pv.skip(i as int), fsv),
        decreases pages@.len() - i,
    {
        proof {
            assert(pv.skip(i as int)[0] == pages@[i as int]@);
            assert(pv.skip(i as int).drop_first() =~= pv.skip(i + 1));
            assert(links_pass(pv.skip(i as int), fsv) == links_for_page(pv[i as int], fsv)
                + links_pass(pv.skip(i + 1), fsv));
        }
        let ghost page_v = pv[i as int];
        let slug_opt = slug_from_url(pages[i].url.as_slice());
        match slug_opt {
            None => {
                proof {
                    assert(links_for_page(page_v, fsv) =~= Seq::<LinkRowV>::empty());
                }
            },
            Some(slug) => {
                match &pages[i].external_links_json {
                    None => {
                        proof {
                            assert(links_for_page(page_v, fsv) =~= Seq::<LinkRowV>::empty());
                        }
                    },
                    Some(j) => {
                        let parsed = parse_links_json(j.as_slice());
                        match parsed {
                            None => {
                                proof {
                                    assert(links_for_page(page_v, fsv) =~= Seq::<
                                        LinkRowV,
                                    >::empty());
                                }
                            },
                            Some(urls) => {
                                let fs = get_founders(founders, slug.as_slice());
                                let ghost uv = views(urls@);
                                let ghost ffor = founders_for(fsv, slug@);
                                proof {
                                    assert(links_for_page(page_v, fsv) == links_for_urls(
                                        slug@,
                                        uv,
                                        ffor,
                                    ));
                                    assert(uv.skip(0) =~= uv);
                                }
                                let mut j2: usize = 0;
                                while j2 < urls.len()
                                    invariant
                                        j2 <= urls@.len(),
                                        uv == views(urls@),
                                        fsv == seq_view(founders@),
                                        ffor == founders_for(fsv, slug@),
                                        seq_view(fs@) == ffor,
                                        links_pass(pv, fsv) == seq_view(links@) + links_for_urls(
                                            slug@,
                                            uv.skip(j2 as int),
                                            ffor,
                                        ) + links_pass(pv.skip(i + 1), fsv),
                                    decreases urls@.len() - j2,
                                {
                                    proof {
                                        assert(uv.skip(j2 as int)[0] == urls@[j2 as int]@);
                                        assert(uv.skip(j2 as int).drop_first() =~= uv.skip(j2 + 1));
                                    }
                                    let u = urls[j2].as_slice();
                                    let internal = check_internal(u);
                                    if !internal {
                                        let row = LinkRow {
                                            company_slug: copy_bytes(&slug),
                                            founder_id: match_founder(u, &fs),
                                            url: copy_bytes(&urls[j2]),
                                            pattern: url_pattern(u),
                                        };
                                        let ghost rv = row@;
                                        let ghost l0 = links@;
                                        links.push(row);
                                        proof {
                                            assert(seq_view(links@) =~= seq_view(l0) + seq![rv]);
                                            assert(links_for_urls(uv.skip(j2 as int)[0], uv, ffor)
                                                == links_for_urls(
                                                uv.skip(j2 as int)[0],
                                                uv,
                                                ffor,
                                            ));
                                            assert(links_for_urls(slug@, uv.skip(j2 as int), ffor)
                                                == seq![rv] + links_for_urls(
                                                slug@,
                                                uv.skip(j2 + 1),
                                                ffor,
                                            ));
                                            assert(seq_view(l0) + links_for_urls(
                                                slug@,
                                                uv.skip(j2 as int),
                                                ffor,
                                            ) =~= seq_view(links@) + links_for_urls(
                                                slug@,
                                                uv.skip(j2 + 1),
                                                ffor,
                                            ));
                                        }
                                    } else {
                                        proof {
                                            assert(links_for_urls(slug@, uv.skip(j2 as int), ffor)
                                                == links_for_urls(slug@, uv.skip(j2 + 1), ffor));
                                        }
                                    }
                                    j2 = j2 + 1;
                                }
                                proof {
                                    assert(uv.skip(uv.len() as int) =~= Seq::<Seq<u8>>::empty());
                                    assert(links_for_urls(slug@, uv.skip(uv.len() as int), ffor)
                                        =~= Seq::<LinkRowV>::empty());
                                }
                            },
                        }
                    },
                }
            },
        }
        i = i + 1;
    }
    proof {
        assert(pv.skip(pv.len() as int) =~= Seq::<PageV>::empty());
        assert(links_pass(pv.skip(pv.len() as int), fsv) =~= Seq::<LinkRowV>::empty());
    }
    links
}

/// Law: an internal url never yields a link row — every row of the links
/// pass has a non-internal url.
pub proof fn lemma_internal_links_filtered(
    slug: Seq<u8>,
    urls: Seq<Seq<u8>>,
    founders: Seq<FounderV>,
    k: int,
)
    requires
        0 <= k < links_for_urls(slug, urls, founders).len(),
    ensures
        !is_internal(links_for_urls(slug, urls, founders)[k].url),
    decreases urls.len(),
{
    if urls.len() > 0 {
        if is_internal(urls[0]) {
            lemma_internal_links_filtered(slug, urls.drop_first(), founders, k);
        } else {
            if k > 0 {
                lemma_internal_links_filtered(slug, urls.drop_first(), founders, k - 1);
            }
        }
    }
}

/// Law: no row of the whole links pass carries an internal url.
pub proof fn lemma_links_pass_no_internal(pages: Seq<PageV>, founders: Seq<FounderV>, k: int)
    requires
        0 <= k < links_pass(pages, founders).len(),
    ensures
        !is_internal(links_pass(pages, founders)[k].url),
    decreases pages.len(),
{
    if pages.len() > 0 {
        let head = links_for_page(pages[0], founders);
        if k < head.len() {
            match slug_of(pages[0].url) {
                None => {},
                Some(slug) => match pages[0].external_links_json {
                    None => {},
                    Some(j) => match json_string_array(j) {
                        None => {},
                        Some(urls) => {
                            lemma_internal_links_filtered(
                                slug,
                                urls,
                                founders_for(founders, slug),
                                k,
                            );
                        },
                    },
                },
            }
        } else {
            lemma_links_pass_no_internal(pages.drop_first(), founders, k - head.len());
        }
    }
}

/// Law: a url that is not shaped like a personal profile is never
/// attributed to a founder, whatever the founder table holds.
pub proof fn lemma_non_profile_never_attributed(url: Seq<u8>, founders: Seq<FounderV>)
    requires
        !is_profile_url(lower(url)),
    ensures
        match_founder_spec(url, founders) is None,
{
}

proof fn lemma_first_match_member(url_lower: Seq<u8>, fs: Seq<FounderV>)
    requires
        first_match(url_lower, fs) is Some,
    ensures
        exists|k: int| 0 <= k < fs.len() && fs[k].id == first_match(url_lower, fs).unwrap(),
    decreases fs.len(),
{
    if fs.len() > 0 {
        if name_matches(url_lower, fs[0].name) {
            assert(fs[0].id == first_match(url_lower, fs).unwrap());
        } else {
            lemma_first_match_member(url_lower, fs.drop_first());
            let k = choose|k: int|
                0 <= k < fs.drop_first().len() && fs.drop_first()[k].id == first_match(
                    url_lower,
                    fs.drop_first(),
                ).unwrap();
            assert(fs[k + 1].id == first_match(url_lower, fs).unwrap());
        }
    }
}

proof fn lemma_founders_for_members(fs: Seq<FounderV>, slug: Seq<u8>)
    ensures
        forall|k: int|
            0 <= k < founders_for(fs, slug).len() ==> (#[trigger] founders_for(fs, slug)[
                k]).company_slug == slug && exists|k0: int|
                0 <= k0 < fs.len() && fs[k0] == founders_for(fs, slug)[k],
    decreases fs.len(),
{
    if fs.len() > 0 {
        let rest = fs.drop_first();
        lemma_founders_for_members(rest, slug);
        assert forall|k: int| 0 <= k < founders_for(fs, slug).len() implies (
        #[trigger] founders_for(fs, slug)[k]).company_slug == slug && exists|k0: int|
            0 <= k0 < fs.len() && fs[k0] == founders_for(fs, slug)[k] by {
            if fs[0].company_slug == slug && k == 0 {
                assert(fs[0] == founders_for(fs, slug)[0]);
            } else {
                let kr = if fs[0].company_slug == slug {
                    k - 1
                } else {
                    k
                };
                assert(founders_for(fs, slug)[k] == founders_for(rest, slug)[kr]);
                let k0 = choose|k0: int|
                    0 <= k0 < rest.len() && rest[k0] == founders_for(rest, slug)[kr];
                assert(fs[k0 + 1] == founders_for(fs, slug)[k]);
            }
        }
    }
}

/// Law: attribution never crosses companies — a link row whose founder id
/// is set refers to a founder row of the same company.
pub proof fn lemma_attribution_stays_in_company(
    slug: Seq<u8>,
    urls: Seq<Seq<u8>>,
    fs: Seq<FounderV>,
    k: int,
)
    requires
        0 <= k < links_for_urls(slug, urls, founders_for(fs, slug)).len(),
        links_for_urls(slug, urls, founders_for(fs, slug))[k].founder_id is Some,
    ensures
        exists|k0: int|
            0 <= k0 < fs.len() && (#[trigger] fs[k0]).id == links_for_urls(
                slug,
                urls,
                founders_for(fs, slug),
            )[k].founder_id.unwrap() && fs[k0].company_slug == links_for_urls(
                slug,
                urls,
                founders_for(fs, slug),
            )[k].company_slug,
    decreases urls.len(),
{
    let ffor = founders_for(fs, slug);
    let out = links_for_urls(slug, urls, ffor);
    if urls.len() > 0 {
        if is_internal(urls[0]) {
            lemma_attribution_stays_in_company(slug, urls.drop_first(), fs, k);
        } else if k > 0 {
            lemma_attribution_stays_in_company(slug, urls.drop_first(), fs, k - 1);
        } else {
            assert(out[0].founder_id == match_founder_spec(urls[0], ffor));
            assert(first_match(lower(urls[0]), ffor) is Some);
            lemma_first_match_member(lower(urls[0]), ffor);
            lemma_founders_for_members(fs, slug);
            let kf = choose|kf: int|
                0 <= kf < ffor.len() && ffor[kf].id == first_match(lower(urls[0]), ffor).unwrap();
            assert(ffor[kf].company_slug == slug);
            let k0 = choose|k0: int| 0 <= k0 < fs.len() && fs[k0] == ffor[kf];
            assert(fs[k0].id == out[0].founder_id.unwrap() && fs[k0].company_slug
                == out[0].company_slug);
        }
    }
}

} // verus!
