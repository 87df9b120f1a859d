use epiclist_scraper::awesome_links::{AwesomeLink, AwesomeLinkType, Breadcrumbs, LinkUrl};
use epiclist_scraper::crawl::CrawlArgs;

fn entry(domain: &str, path: &str, link_type: AwesomeLinkType) -> AwesomeLink {
    AwesomeLink {
        url: LinkUrl {
            url: format!("https://{}{}", domain, path),
            domain: Some(domain.to_string()),
            path: path.to_string(),
        },
        title: "t".to_string(),
        breadcrumbs: Breadcrumbs::from_vec(vec![]),
        description: None,
        link_type,
        source_lines: 0..1,
    }
}

fn pair(a: &str, b: &str) -> (String, String) {
    (a.to_string(), b.to_string())
}

#[test]
fn follow_ups_skip_processed_and_respect_limit() {
    let links = vec![
        entry("github.com", "/a/one", AwesomeLinkType::Repo),
        entry("github.com", "/b/two/tree/main", AwesomeLinkType::Repo),
        entry("example.com", "/c/three", AwesomeLinkType::Other),
        entry("github.com", "/a/one", AwesomeLinkType::Repo),
        entry("github.com", "/d/four", AwesomeLinkType::Repo),
        entry("github.com", "/solo", AwesomeLinkType::Repo),
    ];
    let args = CrawlArgs { output_path: "out".to_string(), max_repos: Some(2), github_token: "t".to_string() };
    let mut processed = vec![pair("b", "two")];
    let next = args.follow_ups(&links, &mut processed);
    assert_eq!(next, vec![pair("a", "one"), pair("d", "four")]);
    assert_eq!(processed, vec![pair("b", "two"), pair("a", "one"), pair("d", "four")]);

    let unlimited = CrawlArgs { output_path: "out".to_string(), max_repos: None, github_token: "t".to_string() };
    let mut seen = vec![];
    assert_eq!(unlimited.follow_ups(&links, &mut seen).len(), 3);
}

#[test]
fn repository_coordinates_skip_empty_segments() {
    assert_eq!(
        entry("github.com", "//o//r/", AwesomeLinkType::Repo).as_github_repo(),
        Some(pair("o", "r"))
    );
    assert_eq!(entry("github.com", "/o/", AwesomeLinkType::Repo).as_github_repo(), None);
    assert_eq!(entry("github.com", "/o/r", AwesomeLinkType::Other).as_github_repo(), None);
    assert_eq!(entry("gitlab.com", "/o/r", AwesomeLinkType::Repo).as_github_repo(), None);
}
