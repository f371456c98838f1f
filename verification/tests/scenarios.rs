//! End-to-end scenarios over the event streams the document parser contract
//! describes: every scanned file yields one Defines event for its own path,
//! and each outbound reference in a markup file yields one Uses event.

use hyperlink::collector::{BrokenLinkCollector, LinkCollector};
use hyperlink::model::{DefinedLink, Href, Link, UsedLink};
use hyperlink::paragraphs::FingerprintIndex;
use hyperlink::report::{exit_code, group_findings};

fn href(path: &str, anchor: Option<&str>) -> Href {
    Href {
        path: path.as_bytes().to_vec(),
        anchor: anchor.map(|a| a.as_bytes().to_vec()),
    }
}

fn defines(path: &str) -> Link {
    Link::Defines(DefinedLink { href: href(path, None), paragraph: None })
}

fn uses(target: &str, anchor: Option<&str>, from: &str) -> Link {
    Link::Uses(UsedLink {
        href: href(target, anchor),
        path: from.as_bytes().to_vec(),
        paragraph: None,
    })
}

#[test]
fn tree_with_all_links_resolving_is_clean() {
    // index.html defines itself and uses /about.html; about.html defines itself
    let mut c = BrokenLinkCollector::new();
    c.ingest(defines("/index.html"));
    c.ingest(uses("/about.html", None, "/index.html"));
    c.ingest(defines("/about.html"));

    let findings = c.get_broken_links(false);
    assert_eq!(findings.len(), 0);
    let (hard, soft) = c.broken_counts(false);
    assert_eq!((hard, soft), (0, 0));
    assert_eq!(exit_code(hard, soft), 0);
}

#[test]
fn missing_page_is_one_hard_finding_attributed_to_the_using_file() {
    // the tree holds only index.html, which uses /missing.html
    let mut c = BrokenLinkCollector::new();
    c.ingest(defines("/index.html"));
    c.ingest(uses("/missing.html", None, "/index.html"));

    let findings = c.get_broken_links(false);
    assert_eq!(findings.len(), 1);
    assert!(findings[0].hard_404);

    let idx = FingerprintIndex::new();
    let groups = group_findings(&findings, &idx);
    assert_eq!(groups.len(), 1);
    assert!(groups[0].fallback);
    assert_eq!(groups[0].path, b"/index.html".to_vec());
    assert_eq!(groups[0].bad_links.len(), 1);
    assert_eq!(groups[0].bad_links[0].path, b"/missing.html".to_vec());
    assert!(groups[0].bad_anchors.is_empty());

    let (hard, soft) = c.broken_counts(false);
    assert_eq!((hard, soft), (1, 0));
    assert_eq!(exit_code(hard, soft), 1);
}

#[test]
fn missing_anchor_on_an_existing_page_is_one_soft_finding() {
    // page.html exists; something links to /page.html#section, which is not recorded
    let mut c = BrokenLinkCollector::new();
    c.ingest(defines("/page.html"));
    c.ingest(uses("/page.html", Some("section"), "/index.html"));

    let findings = c.get_broken_links(true);
    assert_eq!(findings.len(), 1);
    assert!(!findings[0].hard_404);
    assert_eq!(findings[0].used_link.href.anchor, Some(b"section".to_vec()));

    let (hard, soft) = c.broken_counts(true);
    assert_eq!((hard, soft), (0, 1));
    assert_eq!(exit_code(hard, soft), 2);
}
