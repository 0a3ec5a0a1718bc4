//! The entities of the pipeline: raw pages in, relational rows out.
//!
//! Each executable type has a ghost view (`...V`) over `Seq<u8>`, and every
//! contract in the crate speaks about those views.

use vstd::prelude::*;
use crate::text::opt_view;

verus! {

/// One scraped page: the raw input unit, immutable for a run.
pub struct Page {
    pub url: Vec<u8>,
    pub header_text: Option<Vec<u8>>,
    pub external_links_json: Option<Vec<u8>>,
}

pub struct PageV {
    pub url: Seq<u8>,
    pub header_text: Option<Seq<u8>>,
    pub external_links_json: Option<Seq<u8>>,
}

impl View for Page {
    type V = PageV;

    open spec fn view(&self) -> PageV {
        PageV {
            url: self.url@,
            header_text: opt_view(self.header_text),
            external_links_json: opt_view(self.external_links_json),
        }
    }
}

/// A batch season token.
#[derive(Clone, Copy, PartialEq, Eq, Structural, Debug)]
pub enum Season {
    Winter,
    Spring,
    Summer,
    Fall,
}

/// A company batch: season plus four-digit year.
#[derive(Clone, Copy, PartialEq, Eq, Structural, Debug)]
pub struct Batch {
    pub season: Season,
    pub year: u32,
}

/// Operating status, from a constrained badge vocabulary.
#[derive(Clone, Copy, PartialEq, Eq, Structural, Debug)]
pub enum Status {
    Active,
    Inactive,
    Acquired,
    Unknown,
}

/// One company row; `slug` is the primary key for joins.
#[derive(Debug, PartialEq, Eq)]
pub struct Company {
    pub slug: Vec<u8>,
    pub name: Vec<u8>,
    pub url: Vec<u8>,
    pub batch: Option<Batch>,
    pub status: Status,
    pub location: Option<Vec<u8>>,
    pub tagline: Option<Vec<u8>>,
    pub sidebar: Vec<(Vec<u8>, Vec<u8>)>,
    pub is_hiring: Option<bool>,
}

pub struct CompanyV {
    pub slug: Seq<u8>,
    pub name: Seq<u8>,
    pub url: Seq<u8>,
    pub batch: Option<Batch>,
    pub status: Status,
    pub location: Option<Seq<u8>>,
    pub tagline: Option<Seq<u8>>,
    pub sidebar: Seq<(Seq<u8>, Seq<u8>)>,
    pub is_hiring: Option<bool>,
}

/// The views of a sequence of byte-vector pairs.
pub open spec fn pairs_view(v: Seq<(Vec<u8>, Vec<u8>)>) -> Seq<(Seq<u8>, Seq<u8>)> {
    Seq::new(v.len(), |i: int| (v[i].0@, v[i].1@))
}

impl View for Company {
    type V = CompanyV;

    open spec fn view(&self) -> CompanyV {
        CompanyV {
            slug: self.slug@,
            name: self.name@,
            url: self.url@,
            batch: self.batch,
            status: self.status,
            location: opt_view(self.location),
            tagline: opt_view(self.tagline),
            sidebar: pairs_view(self.sidebar@),
            is_hiring: self.is_hiring,
        }
    }
}

/// One topical tag for a company.
#[derive(Debug, PartialEq, Eq)]
pub struct TagRow {
    pub company_slug: Vec<u8>,
    pub tag: Vec<u8>,
}

pub struct TagRowV {
    pub company_slug: Seq<u8>,
    pub tag: Seq<u8>,
}

impl View for TagRow {
    type V = TagRowV;

    open spec fn view(&self) -> TagRowV {
        TagRowV { company_slug: self.company_slug@, tag: self.tag@ }
    }
}

/// One founder row. `id` is the surrogate key: the row's index in the
/// founders table, assigned in insertion order.
#[derive(Debug, PartialEq, Eq)]
pub struct Founder {
    pub id: usize,
    pub company_slug: Vec<u8>,
    pub name: Vec<u8>,
    pub role: Vec<u8>,
}

pub struct FounderV {
    pub id: usize,
    pub company_slug: Seq<u8>,
    pub name: Seq<u8>,
    pub role: Seq<u8>,
}

impl View for Founder {
    type V = FounderV;

    open spec fn view(&self) -> FounderV {
        FounderV {
            id: self.id,
            company_slug: self.company_slug@,
            name: self.name@,
            role: self.role@,
        }
    }
}

/// One news mention for a company.
#[derive(Debug, PartialEq, Eq)]
pub struct NewsRow {
    pub company_slug: Vec<u8>,
    pub title: Vec<u8>,
    pub url: Option<Vec<u8>>,
    pub date: Option<Vec<u8>>,
}

pub struct NewsRowV {
    pub company_slug: Seq<u8>,
    pub title: Seq<u8>,
    pub url: Option<Seq<u8>>,
    pub date: Option<Seq<u8>>,
}

impl View for NewsRow {
    type V = NewsRowV;

    open spec fn view(&self) -> NewsRowV {
        NewsRowV {
            company_slug: self.company_slug@,
            title: self.title@,
            url: opt_view(self.url),
            date: opt_view(self.date),
        }
    }
}

/// One classified external link. `founder_id`, when set, refers to the
/// `Founder` with that surrogate id.
#[derive(Debug, PartialEq, Eq)]
pub struct LinkRow {
    pub company_slug: Vec<u8>,
    pub founder_id: Option<usize>,
    pub url: Vec<u8>,
    pub pattern: Option<Vec<u8>>,
}

pub struct LinkRowV {
    pub company_slug: Seq<u8>,
    pub founder_id: Option<usize>,
    pub url: Seq<u8>,
    pub pattern: Option<Seq<u8>>,
}

impl View for LinkRow {
    type V = LinkRowV;

    open spec fn view(&self) -> LinkRowV {
        LinkRowV {
            company_slug: self.company_slug@,
            founder_id: self.founder_id,
            url: self.url@,
            pattern: opt_view(self.pattern),
        }
    }
}

/// The views of a sequence of viewable values.
pub open spec fn seq_view<T: View>(v: Seq<T>) -> Seq<T::V> {
    Seq::new(v.len(), |i: int| v[i]@)
}

/// Copies a byte vector.
pub fn copy_bytes(v: &Vec<u8>) -> (r: Vec<u8>)
    ensures
        r@ == v@,
{
    vstd::slice::slice_to_vec(v.as_slice())
}

/// Copies a byte slice into a vector.
pub fn copy_bytes_slice(v: &[u8]) -> (r: Vec<u8>)
    ensures
        r@ == v@,
{
    vstd::slice::slice_to_vec(v)
}

/// Copies an optional byte vector.
pub fn copy_opt_bytes(v: &Option<Vec<u8>>) -> (r: Option<Vec<u8>>)
    ensures
        opt_view(r) == opt_view(*v),
{
    match v {
        Some(b) => Some(copy_bytes(b)),
        None => None,
    }
}

} // verus!
