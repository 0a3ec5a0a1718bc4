use processing_tech::header::parse_batch;
use processing_tech::header::parse_hiring;
use processing_tech::header::parse_sidebar;
use processing_tech::header::parse_status;
use processing_tech::identity::normalize_slug_bytes;
use processing_tech::identity::slug_from_url;
use processing_tech::identity::title_case_bytes;
use processing_tech::links::match_founder;
use processing_tech::links::url_pattern;
use processing_tech::model::Batch;
use processing_tech::model::Founder;
use processing_tech::model::Page;
use processing_tech::model::Season;
use processing_tech::model::Status;
use processing_tech::pipeline::run_pipeline;

fn page(url: &str, header: Option<&str>, links: Option<&str>) -> Page {
    Page {
        url: url.as_bytes().to_vec(),
        header_text: header.map(|h| h.as_bytes().to_vec()),
        external_links_json: links.map(|l| l.as_bytes().to_vec()),
    }
}

#[test]
fn slug_derivation_is_deterministic_and_normalized() {
    let url = b"https://www.ycombinator.com/companies/Air-Bnb";
    let a = slug_from_url(url);
    let b = slug_from_url(url);
    assert_eq!(a, b);
    assert_eq!(a, Some(b"air-bnb".to_vec()));
}

#[test]
fn slug_collapses_nonalnum_runs() {
    let s = slug_from_url(b"https://ycombinator.com/companies/--Big__Data!!Co--");
    assert_eq!(s, Some(b"big-data-co".to_vec()));
}

#[test]
fn slug_normal_form_is_a_fixed_point() {
    let once = normalize_slug_bytes(b"  Foo -- Bar!! 99 ");
    let twice = normalize_slug_bytes(&once);
    assert_eq!(once, twice);
    assert_eq!(once, b"foo-bar-99".to_vec());
}

#[test]
fn slug_requires_profile_shape() {
    assert_eq!(slug_from_url(b"https://ycombinator.com/about"), None);
    assert_eq!(slug_from_url(b"ftp://ycombinator.com/companies/x"), None);
    assert_eq!(slug_from_url(b"https://ycombinator.com/companies/"), None);
    assert_eq!(slug_from_url(b"https://ycombinator.com/companies/!!!"), None);
}

#[test]
fn title_case_restores_words() {
    assert_eq!(title_case_bytes(b"air-bnb"), b"Air Bnb".to_vec());
}

#[test]
fn batch_parses_season_and_year() {
    let h = Some(b"Winter 2020".to_vec());
    assert_eq!(parse_batch(&h), Some(Batch { season: Season::Winter, year: 2020 }));
    let h2 = Some(b"joined in fall 21".to_vec());
    assert_eq!(parse_batch(&h2), Some(Batch { season: Season::Fall, year: 2021 }));
    let h3 = Some(b"no batch here".to_vec());
    assert_eq!(parse_batch(&h3), None);
    assert_eq!(parse_batch(&None), None);
}

#[test]
fn status_vocabulary_is_constrained() {
    let h = Some(b"Status: Active".to_vec());
    assert_eq!(parse_status(&h), Status::Active);
    let h2 = Some(b"Status: ACQUIRED".to_vec());
    assert_eq!(parse_status(&h2), Status::Acquired);
    let h3 = Some(b"Status: thriving".to_vec());
    assert_eq!(parse_status(&h3), Status::Unknown);
    assert_eq!(parse_status(&None), Status::Unknown);
}

#[test]
fn hiring_flag_is_tri_state() {
    assert_eq!(parse_hiring(&Some(b"Hiring: yes".to_vec())), Some(true));
    assert_eq!(parse_hiring(&Some(b"Hiring: 0".to_vec())), Some(false));
    assert_eq!(parse_hiring(&Some(b"Hiring: 3".to_vec())), Some(true));
    assert_eq!(parse_hiring(&Some(b"Hiring: maybe".to_vec())), None);
    assert_eq!(parse_hiring(&None), None);
}

#[test]
fn sidebar_collects_open_attributes() {
    let h = Some(b"Status: Active\nIndustry: Fintech\nTeam Size: 12".to_vec());
    let sb = parse_sidebar(&h);
    assert_eq!(sb.len(), 2);
    assert_eq!(sb[0], (b"Industry".to_vec(), b"Fintech".to_vec()));
    assert_eq!(sb[1], (b"Team Size".to_vec(), b"12".to_vec()));
}

#[test]
fn pattern_keeps_host_and_first_segment() {
    assert_eq!(
        url_pattern(b"https://www.linkedin.com/in/jane-doe/"),
        Some(b"linkedin.com/in".to_vec())
    );
    assert_eq!(url_pattern(b"https://example.com"), Some(b"example.com".to_vec()));
    assert_eq!(url_pattern(b"https://example.com/"), Some(b"example.com".to_vec()));
    assert_eq!(url_pattern(b"mailto:someone"), None);
}

fn founder(id: usize, slug: &str, name: &str) -> Founder {
    Founder {
        id,
        company_slug: slug.as_bytes().to_vec(),
        name: name.as_bytes().to_vec(),
        role: b"CEO".to_vec(),
    }
}

#[test]
fn founder_matching_uses_safe_variants() {
    let founders = vec![founder(0, "x", "Jane Doe")];
    assert_eq!(match_founder(b"https://www.linkedin.com/in/jane-doe-123", &founders), Some(0));
    assert_eq!(match_founder(b"https://linkedin.com/in/jdoe", &founders), None);
    // a company-site url never attempts attribution, even holding the name
    assert_eq!(match_founder(b"https://janedoe.com", &founders), None);
}

#[test]
fn founder_matching_takes_first_in_table_order() {
    let founders = vec![founder(4, "x", "Ann Lee-Park"), founder(7, "x", "Jane Doe")];
    assert_eq!(match_founder(b"https://twitter.com/jane_doe", &founders), Some(7));
    // last name of at least four characters matches alone
    assert_eq!(match_founder(b"https://x.com/lee-park", &founders), Some(4));
}

#[test]
fn internal_links_are_never_emitted() {
    let pages = vec![page(
        "https://ycombinator.com/companies/x",
        Some("Winter 2020"),
        Some("[\"https://ycombinator.com/companies/y\", \"https://www.startupschool.org/a\"]"),
    )];
    let db = run_pipeline(&pages);
    assert_eq!(db.links.len(), 0);
}

#[test]
fn malformed_links_json_is_skipped_silently() {
    let pages = vec![page(
        "https://ycombinator.com/companies/x",
        Some("Winter 2020"),
        Some("[\"unterminated"),
    )];
    let db = run_pipeline(&pages);
    assert_eq!(db.companies.len(), 1);
    assert_eq!(db.links.len(), 0);
}

#[test]
fn page_without_slug_yields_no_rows_at_all() {
    let pages = vec![page(
        "https://ycombinator.com/about",
        Some("Winter 2020\nStatus: Active\nFounder: Jane Doe - CEO\nNews: Launch | https://a.com"),
        Some("[\"https://example.com\"]"),
    )];
    let db = run_pipeline(&pages);
    assert_eq!(db.companies.len(), 0);
    assert_eq!(db.tags.len(), 0);
    assert_eq!(db.founders.len(), 0);
    assert_eq!(db.news.len(), 0);
    assert_eq!(db.links.len(), 0);
}

#[test]
fn location_is_never_a_tag() {
    let pages = vec![page(
        "https://ycombinator.com/companies/x",
        Some("Location: SAN FRANCISCO\nSAN FRANCISCO\nFINTECH"),
        None,
    )];
    let db = run_pipeline(&pages);
    let tags: Vec<&[u8]> = db.tags.iter().map(|t| t.tag.as_slice()).collect();
    assert!(tags.contains(&b"FINTECH".as_slice()));
    assert!(!tags.contains(&b"SAN FRANCISCO".as_slice()));
}

#[test]
fn duplicate_tags_are_suppressed() {
    let pages = vec![page(
        "https://ycombinator.com/companies/x",
        Some("FINTECH\nFINTECH\nAI"),
        None,
    )];
    let db = run_pipeline(&pages);
    assert_eq!(db.tags.len(), 2);
    assert_eq!(db.tags[0].tag, b"FINTECH".to_vec());
    assert_eq!(db.tags[1].tag, b"AI".to_vec());
}

#[test]
fn noise_words_are_not_tags() {
    let pages = vec![page(
        "https://ycombinator.com/companies/x",
        Some("FOUNDERS\nNEWS\nJOBS\nCOMPANY\nROBOTICS"),
        None,
    )];
    let db = run_pipeline(&pages);
    assert_eq!(db.tags.len(), 1);
    assert_eq!(db.tags[0].tag, b"ROBOTICS".to_vec());
}

#[test]
fn founder_names_are_whitespace_collapsed() {
    let pages = vec![page(
        "https://ycombinator.com/companies/x",
        Some("Founder:   Jane \t  Doe   - CEO"),
        None,
    )];
    let db = run_pipeline(&pages);
    assert_eq!(db.founders.len(), 1);
    assert_eq!(db.founders[0].name, b"Jane Doe".to_vec());
    assert_eq!(db.founders[0].role, b"CEO".to_vec());
    assert_eq!(db.founders[0].id, 0);
}

#[test]
fn news_lines_become_news_rows() {
    let pages = vec![page(
        "https://ycombinator.com/companies/x",
        Some("News: Big launch | https://news.example.com/a | 2020-01-02\nNews: Short note"),
        None,
    )];
    let db = run_pipeline(&pages);
    assert_eq!(db.news.len(), 2);
    assert_eq!(db.news[0].title, b"Big launch".to_vec());
    assert_eq!(db.news[0].url, Some(b"https://news.example.com/a".to_vec()));
    assert_eq!(db.news[0].date, Some(b"2020-01-02".to_vec()));
    assert_eq!(db.news[1].title, b"Short note".to_vec());
    assert_eq!(db.news[1].url, None);
    assert_eq!(db.news[1].date, None);
}

#[test]
fn same_slug_pages_collapse_to_one_company() {
    let pages = vec![
        page("https://ycombinator.com/companies/x", Some("Name: First"), None),
        page("http://ycombinator.com/companies/x", Some("Name: Second"), None),
    ];
    let db = run_pipeline(&pages);
    assert_eq!(db.companies.len(), 1);
    assert_eq!(db.companies[0].name, b"Second".to_vec());
}

#[test]
fn empty_page_set_yields_empty_tables() {
    let pages: Vec<Page> = Vec::new();
    let db = run_pipeline(&pages);
    assert_eq!(db.companies.len(), 0);
    assert_eq!(db.tags.len(), 0);
    assert_eq!(db.founders.len(), 0);
    assert_eq!(db.news.len(), 0);
    assert_eq!(db.links.len(), 0);
}

#[test]
fn end_to_end_single_page() {
    let pages = vec![page(
        "https://www.ycombinator.com/companies/x",
        Some(
            "Winter 2020\nStatus: Active\nLocation: New York\nTagline: We build X\nFounder: Jane Doe - CEO\n",
        ),
        Some("[\"https://linkedin.com/in/jane-doe\", \"https://ycombinator.com/companies/x\"]"),
    )];
    let db = run_pipeline(&pages);

    assert_eq!(db.companies.len(), 1);
    let c = &db.companies[0];
    assert_eq!(c.slug, b"x".to_vec());
    assert_eq!(c.batch, Some(Batch { season: Season::Winter, year: 2020 }));
    assert_eq!(c.status, Status::Active);
    assert_eq!(c.location, Some(b"New York".to_vec()));
    assert_eq!(c.tagline, Some(b"We build X".to_vec()));

    assert_eq!(db.founders.len(), 1);
    assert_eq!(db.founders[0].name, b"Jane Doe".to_vec());

    assert_eq!(db.links.len(), 1);
    assert_eq!(db.links[0].url, b"https://linkedin.com/in/jane-doe".to_vec());
    assert_eq!(db.links[0].founder_id, Some(db.founders[0].id));
    assert_eq!(db.links[0].pattern, Some(b"linkedin.com/in".to_vec()));
}
