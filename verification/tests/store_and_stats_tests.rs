use processing_tech::model::LinkRow;
use processing_tech::model::Page;
use processing_tech::pipeline::commit_run;
use processing_tech::pipeline::pass_order;
use processing_tech::pipeline::run_pipeline;
use processing_tech::pipeline::Database;
use processing_tech::pipeline::Pass;
use processing_tech::pipeline::Store;
use processing_tech::pipeline::StoreError;
use processing_tech::stats::link_breakdown;
use processing_tech::stats::top_patterns;

fn link(pattern: Option<&str>, founder_id: Option<usize>) -> LinkRow {
    LinkRow {
        company_slug: b"x".to_vec(),
        founder_id,
        url: b"https://example.com".to_vec(),
        pattern: pattern.map(|p| p.as_bytes().to_vec()),
    }
}

#[test]
fn breakdown_counts_founder_and_company_links() {
    let links = vec![
        link(Some("a.com"), Some(0)),
        link(Some("a.com"), None),
        link(None, None),
        link(Some("b.com"), Some(1)),
    ];
    let (founder_links, company_links) = link_breakdown(&links);
    assert_eq!(founder_links, 2);
    assert_eq!(company_links, 2);
}

#[test]
fn top_patterns_orders_by_frequency() {
    let links = vec![
        link(Some("a.com"), None),
        link(Some("b.com/in"), None),
        link(Some("a.com"), None),
        link(Some("c.com"), None),
        link(Some("a.com"), None),
        link(Some("b.com/in"), None),
        link(None, None),
    ];
    let top = top_patterns(&links, 15);
    assert_eq!(top.len(), 3);
    assert_eq!(top[0], (b"a.com".to_vec(), 3));
    assert_eq!(top[1], (b"b.com/in".to_vec(), 2));
    assert_eq!(top[2], (b"c.com".to_vec(), 1));
}

#[test]
fn top_patterns_truncates_to_n() {
    let links = vec![
        link(Some("a.com"), None),
        link(Some("a.com"), None),
        link(Some("b.com"), None),
        link(Some("c.com"), None),
    ];
    let top = top_patterns(&links, 1);
    assert_eq!(top.len(), 1);
    assert_eq!(top[0], (b"a.com".to_vec(), 2));
}

fn empty_db() -> Database {
    Database {
        companies: Vec::new(),
        tags: Vec::new(),
        founders: Vec::new(),
        news: Vec::new(),
        links: Vec::new(),
    }
}

#[test]
fn failed_run_leaves_store_untouched() {
    let pages = vec![Page {
        url: b"https://ycombinator.com/companies/x".to_vec(),
        header_text: Some(b"Status: Active\nFounder: Jane Doe - CEO".to_vec()),
        external_links_json: Some(b"[\"https://example.com\"]".to_vec()),
    }];
    let mut store = Store { db: empty_db() };

    // a fatal store error during the run: everything rolls back
    let r = commit_run(&mut store, Err(StoreError::Write));
    assert_eq!(r, Err(StoreError::Write));
    assert_eq!(store.db.companies.len(), 0);
    assert_eq!(store.db.tags.len(), 0);
    assert_eq!(store.db.founders.len(), 0);
    assert_eq!(store.db.news.len(), 0);
    assert_eq!(store.db.links.len(), 0);

    // the same run without a store error commits every table at once
    let db = run_pipeline(&pages);
    let r = commit_run(&mut store, Ok(db));
    assert_eq!(r, Ok(()));
    assert_eq!(store.db.companies.len(), 1);
    assert_eq!(store.db.founders.len(), 1);
    assert_eq!(store.db.links.len(), 1);
}

#[test]
fn pass_order_is_fixed() {
    let order = pass_order();
    assert_eq!(
        order,
        vec![
            Pass::Identity,
            Pass::Batch,
            Pass::StatusLocation,
            Pass::Tags,
            Pass::Details,
            Pass::Founders,
            Pass::News,
            Pass::Links,
        ]
    );
    // the two hard dependencies: tags after status/location, links after founders
    let pos = |p: Pass| order.iter().position(|q| *q == p).unwrap();
    assert!(pos(Pass::StatusLocation) < pos(Pass::Tags));
    assert!(pos(Pass::Founders) < pos(Pass::Links));
}
