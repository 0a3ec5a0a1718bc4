//! The pipeline: eight passes in a fixed, hard dependency order, one
//! atomic unit of work against the store.
//!
//! The tag pass reads the location written by the status/location pass, and
//! the links pass reads the founders table written by the founders pass, so
//! the order is a visible contract here, not accidental call order.

use vstd::prelude::*;
use crate::companies::batch_pass_from;
use crate::companies::batch_step;
use crate::companies::details_pass_from;
use crate::companies::details_step;
use crate::companies::identity_pass;
use crate::companies::identity_step;
use crate::companies::run_batch;
use crate::companies::run_details;
use crate::companies::run_identity;
use crate::companies::run_status_location;
use crate::companies::status_pass_from;
use crate::companies::status_step;
use crate::identity::slug_of;
use crate::links::links_for_page;
use crate::links::links_pass;
use crate::model::Company;
use crate::model::CompanyV;
use crate::model::Founder;
use crate::model::FounderV;
use crate::model::LinkRow;
use crate::model::LinkRowV;
use crate::model::NewsRow;
use crate::model::NewsRowV;
use crate::model::Page;
use crate::model::PageV;
use crate::model::TagRow;
use crate::model::TagRowV;
use crate::model::seq_view;
use crate::people::founders_pass;
use crate::people::founders_step;
use crate::people::news_pass;
use crate::people::news_step;
use crate::tags::add_tags;
use crate::tags::candidates_in;
use crate::tags::company_location;
use crate::tags::lemma_add_tags_from_candidates;
use crate::tags::lemma_add_tags_prefix;
use crate::tags::lemma_candidates_avoid_location;
use crate::tags::matches_location;
use crate::tags::tags_pass;
use crate::tags::tags_pass_from;
use crate::tags::tags_step;
use crate::text::split_seq;

verus! {

/// The five output tables of one run.
pub struct Database {
    pub companies: Vec<Company>,
    pub tags: Vec<TagRow>,
    pub founders: Vec<Founder>,
    pub news: Vec<NewsRow>,
    pub links: Vec<LinkRow>,
}

pub struct DatabaseV {
    pub companies: Seq<CompanyV>,
    pub tags: Seq<TagRowV>,
    pub founders: Seq<FounderV>,
    pub news: Seq<NewsRowV>,
    pub links: Seq<LinkRowV>,
}

impl View for Database {
    type V = DatabaseV;

    open spec fn view(&self) -> DatabaseV {
        DatabaseV {
            companies: seq_view(self.companies@),
            tags: seq_view(self.tags@),
            founders: seq_view(self.founders@),
            news: seq_view(self.news@),
            links: seq_view(self.links@),
        }
    }
}

/// The eight passes, named in their hard dependency order.
#[derive(Clone, Copy, PartialEq, Eq, Structural, Debug)]
pub enum Pass {
    Identity,
    Batch,
    StatusLocation,
    Tags,
    Details,
    Founders,
    News,
    Links,
}

/// The fixed execution order of the pipeline, as data: the tag pass stands
/// after the status/location pass whose location it reads, and the links
/// pass stands after the founders pass whose rows it reads.
pub fn pass_order() -> (r: Vec<Pass>)
    ensures
        r@ == seq![
            Pass::Identity,
            Pass::Batch,
            Pass::StatusLocation,
            Pass::Tags,
            Pass::Details,
            Pass::Founders,
            Pass::News,
            Pass::Links,
        ],
{
    let mut r: Vec<Pass> = Vec::new();
    r.push(Pass::Identity);
    r.push(Pass::Batch);
    r.push(Pass::StatusLocation);
    r.push(Pass::Tags);
    r.push(Pass::Details);
    r.push(Pass::Founders);
    r.push(Pass::News);
    r.push(Pass::Links);
    proof {
        assert(r@ =~= seq![
            Pass::Identity,
            Pass::Batch,
            Pass::StatusLocation,
            Pass::Tags,
            Pass::Details,
            Pass::Founders,
            Pass::News,
            Pass::Links,
        ]);
    }
    r
}

/// The whole pipeline as a pure function of the page collection.
pub open spec fn pipeline_spec(pages: Seq<PageV>) -> DatabaseV {
    let c1 = identity_pass(pages);
    let c2 = batch_pass_from(c1, pages);
    let c3 = status_pass_from(c2, pages);
    let tags = tags_pass(pages, c3);
    let c5 = details_pass_from(c3, pages);
    let founders = founders_pass(pages);
    let news = news_pass(pages);
    let links = links_pass(pages, founders);
    DatabaseV { companies: c5, tags, founders, news, links }
}

/// Runs the eight passes in order and returns every derived row of the run
/// as one value.
pub fn run_pipeline(pages: &Vec<Page>) -> (db: Database)
    ensures
        db@ == pipeline_spec(seq_view(pages@)),
{
    let companies = run_identity(pages);
    let companies = run_batch(companies, pages);
    let companies = run_status_location(companies, pages);
    let tags = crate::tags::run(pages, &companies);
    let companies = run_details(companies, pages);
    let founders = crate::people::run_founders(pages);
    let news = crate::people::run_news(pages);
    let links = crate::links::run(pages, &founders);
    let db = Database { companies, tags, founders, news, links };
    proof {
        assert(db@ == pipeline_spec(seq_view(pages@)));
    }
    db
}

/// A fatal error of the persistent layer while writing a run.
#[derive(Clone, Copy, PartialEq, Eq, Structural, Debug)]
pub enum StoreError {
    Write,
    Transaction,
}

/// The committed state of the persistent store.
pub struct Store {
    pub db: Database,
}

/// Applies the outcome of one run to the store, all or nothing: a run whose
/// writes all succeeded replaces the derived tables; a run in which the
/// persistent layer reported any fatal error leaves the store exactly as it
/// was — the transaction rolls back and no row of any pass survives.
pub fn commit_run(store: &mut Store, outcome: Result<Database, StoreError>) -> (r: Result<
    (),
    StoreError,
>)
    ensures
        outcome matches Ok(db) ==> r is Ok && final(store).db@ == db@,
        outcome matches Err(e) ==> r == Err::<(), StoreError>(e) && final(store).db@ == old(
            store,
        ).db@,
{
    match outcome {
        Ok(db) => {
            store.db = db;
            Ok(())
        },
        Err(e) => Err(e),
    }
}

/// Law: a page without a derivable slug produces no row anywhere: every
/// pass leaves its accumulated output unchanged on such a page.
pub proof fn lemma_no_slug_page_inert(
    page: PageV,
    cs: Seq<CompanyV>,
    rows: Seq<TagRowV>,
    fs: Seq<FounderV>,
    ns: Seq<NewsRowV>,
    companies: Seq<CompanyV>,
    founders: Seq<FounderV>,
)
    requires
        slug_of(page.url) is None,
    ensures
        identity_step(cs, page) == cs,
        batch_step(cs, page) == cs,
        status_step(cs, page) == cs,
        details_step(cs, page) == cs,
        tags_step(rows, page, companies) == rows,
        founders_step(fs, page) == fs,
        news_step(ns, page) == ns,
        links_for_page(page, founders) == Seq::<LinkRowV>::empty(),
{
}

/// No tag row names its company's location (compared without case) under
/// the given companies table.
pub open spec fn tag_rows_ok(rows: Seq<TagRowV>, cs: Seq<CompanyV>) -> bool {
    forall|k: int|
        0 <= k < rows.len() ==> !matches_location(
            #[trigger] rows[k].tag,
            company_location(cs, rows[k].company_slug),
        )
}

proof fn lemma_add_tags_ok(rows: Seq<TagRowV>, slug: Seq<u8>, cands: Seq<Seq<u8>>, cs: Seq<CompanyV>)
    requires
        tag_rows_ok(rows, cs),
        forall|j: int|
            0 <= j < cands.len() ==> !matches_location(
                #[trigger] cands[j],
                company_location(cs, slug),
            ),
    ensures
        tag_rows_ok(add_tags(rows, slug, cands), cs),
{
    let out = add_tags(rows, slug, cands);
    assert forall|k: int| 0 <= k < out.len() implies !matches_location(
        #[trigger] out[k].tag,
        company_location(cs, out[k].company_slug),
    ) by {
        if k < rows.len() {
            lemma_add_tags_prefix(rows, slug, cands, k);
        } else {
            lemma_add_tags_from_candidates(rows, slug, cands, k);
            let j = choose|j: int| 0 <= j < cands.len() && out[k].tag == cands[j];
            assert(!matches_location(cands[j], company_location(cs, slug)));
        }
    }
}

proof fn lemma_candidates_ok(lines: Seq<Seq<u8>>, loc: Option<Seq<u8>>)
    ensures
        forall|j: int|
            0 <= j < candidates_in(lines, loc).len() ==> !matches_location(
                #[trigger] candidates_in(lines, loc)[j],
                loc,
            ),
{
    assert forall|j: int| 0 <= j < candidates_in(lines, loc).len() implies !matches_location(
        #[trigger] candidates_in(lines, loc)[j],
        loc,
    ) by {
        lemma_candidates_avoid_location(lines, loc, j);
    }
}

proof fn lemma_tags_step_ok(rows: Seq<TagRowV>, page: PageV, cs: Seq<CompanyV>)
    requires
        tag_rows_ok(rows, cs),
    ensures
        tag_rows_ok(tags_step(rows, page, cs), cs),
{
    match slug_of(page.url) {
        None => {},
        Some(slug) => match page.header_text {
            None => {},
            Some(h) => {
                let loc = company_location(cs, slug);
                let cands = candidates_in(split_seq(h, 10), loc);
                lemma_candidates_ok(split_seq(h, 10), loc);
                lemma_add_tags_ok(rows, slug, cands, cs);
            },
        },
    }
}

proof fn lemma_tags_pass_from_ok(rows: Seq<TagRowV>, pages: Seq<PageV>, cs: Seq<CompanyV>)
    requires
        tag_rows_ok(rows, cs),
    ensures
        tag_rows_ok(tags_pass_from(rows, pages, cs), cs),
    decreases pages.len(),
{
    if pages.len() > 0 {
        lemma_tags_step_ok(rows, pages[0], cs);
        lemma_tags_pass_from_ok(tags_step(rows, pages[0], cs), pages.drop_first(), cs);
    }
}

/// The two company tables agree on slug and location, row by row.
pub open spec fn same_slug_loc(a: Seq<CompanyV>, b: Seq<CompanyV>) -> bool {
    a.len() == b.len() && forall|i: int|
        #![trigger a[i], b[i]]
        0 <= i < a.len() ==> a[i].slug == b[i].slug && a[i].location == b[i].location
}

proof fn lemma_details_step_preserves(cs: Seq<CompanyV>, page: PageV)
    ensures
        same_slug_loc(cs, details_step(cs, page)),
{
}

proof fn lemma_details_pass_preserves(cs: Seq<CompanyV>, pages: Seq<PageV>)
    ensures
        same_slug_loc(cs, details_pass_from(cs, pages)),
    decreases pages.len(),
{
    if pages.len() > 0 {
        let mid = details_step(cs, pages[0]);
        let fin = details_pass_from(mid, pages.drop_first());
        lemma_details_step_preserves(cs, pages[0]);
        lemma_details_pass_preserves(mid, pages.drop_first());
        assert forall|i: int|
            #![trigger cs[i], fin[i]]
            0 <= i < cs.len() implies cs[i].slug == fin[i].slug && cs[i].location
            == fin[i].location by {
            assert(cs[i].slug == mid[i].slug && cs[i].location == mid[i].location);
            assert(mid[i].slug == fin[i].slug && mid[i].location == fin[i].location);
        }
    }
}

proof fn lemma_location_lookup_agrees(a: Seq<CompanyV>, b: Seq<CompanyV>, slug: Seq<u8>)
    requires
        same_slug_loc(a, b),
    ensures
        company_location(a, slug) == company_location(b, slug),
    decreases a.len(),
{
    if a.len() > 0 {
        assert(a.drop_first().len() == b.drop_first().len());
        assert forall|i: int|
            #![trigger a.drop_first()[i], b.drop_first()[i]]
            0 <= i < a.drop_first().len() implies a.drop_first()[i].slug == b.drop_first()[i].slug
            && a.drop_first()[i].location == b.drop_first()[i].location by {
            assert(a.drop_first()[i] == a[i + 1]);
            assert(b.drop_first()[i] == b[i + 1]);
            assert(a[i + 1].slug == b[i + 1].slug && a[i + 1].location == b[i + 1].location);
        }
        lemma_location_lookup_agrees(a.drop_first(), b.drop_first(), slug);
    }
}

/// Law: a tag equal to its company's location, compared without case, never
/// appears in the pipeline's tags output.
pub proof fn lemma_tag_never_names_location(pages: Seq<PageV>, k: int)
    requires
        0 <= k < pipeline_spec(pages).tags.len(),
    ensures
        !matches_location(
            pipeline_spec(pages).tags[k].tag,
            company_location(
                pipeline_spec(pages).companies,
                pipeline_spec(pages).tags[k].company_slug,
            ),
        ),
{
    let c1 = identity_pass(pages);
    let c2 = batch_pass_from(c1, pages);
    let c3 = status_pass_from(c2, pages);
    let c5 = details_pass_from(c3, pages);
    assert(tag_rows_ok(Seq::<TagRowV>::empty(), c3));
    lemma_tags_pass_from_ok(Seq::<TagRowV>::empty(), pages, c3);
    lemma_details_pass_preserves(c3, pages);
    let row = pipeline_spec(pages).tags[k];
    lemma_location_lookup_agrees(c3, c5, row.company_slug);
}

} // verus!
