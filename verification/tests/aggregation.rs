use hyperlink::bytes::bytes_lt;
use hyperlink::collector::{BrokenLinkCollector, LinkCollector, UsedLinkCollector};
use hyperlink::model::{DefinedLink, Href, Link, UsedLink};

fn href(path: &str, anchor: Option<&str>) -> Href {
    Href {
        path: path.as_bytes().to_vec(),
        anchor: anchor.map(|a| a.as_bytes().to_vec()),
    }
}

fn defines(path: &str) -> Link {
    Link::Defines(DefinedLink { href: href(path, None), paragraph: None })
}

fn uses(target: &str, anchor: Option<&str>, from: &str, paragraph: Option<u64>) -> Link {
    Link::Uses(UsedLink {
        href: href(target, anchor),
        path: from.as_bytes().to_vec(),
        paragraph,
    })
}

fn finding_names(c: &BrokenLinkCollector, check_anchors: bool) -> Vec<(Vec<u8>, bool)> {
    let mut v: Vec<(Vec<u8>, bool)> = c
        .get_broken_links(check_anchors)
        .into_iter()
        .map(|b| (b.used_link.href.path.clone(), b.hard_404))
        .collect();
    v.sort();
    v
}

#[test]
fn merge_yields_same_result_as_direct_ingestion() {
    let events = || {
        vec![
            defines("/a.html"),
            uses("/missing.html", None, "/a.html", None),
            uses("/missing.html", None, "/b.html", None),
            defines("/c.html"),
            uses("/c.html", None, "/a.html", None),
        ]
    };

    let mut direct = BrokenLinkCollector::new();
    for l in events() {
        direct.ingest(l);
    }

    let mut left = BrokenLinkCollector::new();
    let mut right = BrokenLinkCollector::new();
    for (i, l) in events().into_iter().enumerate() {
        if i % 2 == 0 {
            left.ingest(l);
        } else {
            right.ingest(l);
        }
    }
    let mut merged_lr = BrokenLinkCollector::new();
    merged_lr.merge(left);
    merged_lr.merge(right);

    let mut left2 = BrokenLinkCollector::new();
    let mut right2 = BrokenLinkCollector::new();
    for (i, l) in events().into_iter().enumerate() {
        if i % 2 == 0 {
            left2.ingest(l);
        } else {
            right2.ingest(l);
        }
    }
    let mut merged_rl = BrokenLinkCollector::new();
    merged_rl.merge(right2);
    merged_rl.merge(left2);

    assert_eq!(finding_names(&direct, false), finding_names(&merged_lr, false));
    assert_eq!(finding_names(&direct, false), finding_names(&merged_rl, false));
    assert_eq!(direct.used_links_count(), 3);
    assert_eq!(merged_lr.used_links_count(), 3);
    assert_eq!(merged_rl.used_links_count(), 3);
}

#[test]
fn defined_target_never_reported_regardless_of_order() {
    // uses first, defines later
    let mut c1 = BrokenLinkCollector::new();
    c1.ingest(uses("/page.html", None, "/index.html", None));
    c1.ingest(defines("/page.html"));
    assert_eq!(c1.get_broken_links(false).len(), 0);

    // defines first
    let mut c2 = BrokenLinkCollector::new();
    c2.ingest(defines("/page.html"));
    c2.ingest(uses("/page.html", None, "/index.html", None));
    assert_eq!(c2.get_broken_links(false).len(), 0);

    // defines and uses seen by different workers
    let mut user = BrokenLinkCollector::new();
    user.ingest(uses("/page.html", None, "/index.html", None));
    let mut definer = BrokenLinkCollector::new();
    definer.ingest(defines("/page.html"));
    let mut total = BrokenLinkCollector::new();
    total.merge(user);
    total.merge(definer);
    assert_eq!(total.get_broken_links(false).len(), 0);
}

#[test]
fn each_usage_of_a_broken_target_yields_one_finding() {
    let mut c = BrokenLinkCollector::new();
    c.ingest(uses("/gone.html", None, "/a.html", None));
    c.ingest(uses("/gone.html", None, "/b.html", None));
    c.ingest(uses("/gone.html", None, "/c.html", None));
    let findings = c.get_broken_links(false);
    assert_eq!(findings.len(), 3);
    for f in &findings {
        assert!(f.hard_404);
        assert_eq!(f.used_link.href.path, b"/gone.html".to_vec());
    }
}

#[test]
fn anchor_classification_soft_when_page_defined() {
    let mut c = BrokenLinkCollector::new();
    c.ingest(defines("/a"));
    c.ingest(uses("/a", Some("x"), "/index.html", None));

    // with anchor checking on: the page exists, only the anchor is missing
    let soft = c.get_broken_links(true);
    assert_eq!(soft.len(), 1);
    assert!(!soft[0].hard_404);

    // with anchor checking off: every undefined target is hard
    let hard = c.get_broken_links(false);
    assert_eq!(hard.len(), 1);
    assert!(hard[0].hard_404);
}

#[test]
fn anchor_classification_hard_when_page_missing_too() {
    let mut c = BrokenLinkCollector::new();
    c.ingest(uses("/b", Some("y"), "/index.html", None));
    let findings = c.get_broken_links(true);
    assert_eq!(findings.len(), 1);
    assert!(findings[0].hard_404);
}

#[test]
fn broken_counts_split_hard_and_soft() {
    let mut c = BrokenLinkCollector::new();
    c.ingest(defines("/a"));
    c.ingest(uses("/a", Some("x"), "/p.html", None));
    c.ingest(uses("/gone", None, "/p.html", None));
    c.ingest(uses("/gone", None, "/q.html", None));
    let (hard, soft) = c.broken_counts(true);
    // two uses of one hard target count once; the bad anchor counts once
    assert_eq!(hard, 1);
    assert_eq!(soft, 1);

    let (hard_off, soft_off) = c.broken_counts(false);
    assert_eq!(hard_off, 2);
    assert_eq!(soft_off, 0);
}

#[test]
fn used_link_collector_keeps_only_uses() {
    let mut c = UsedLinkCollector::new();
    c.ingest(defines("/a.html"));
    c.ingest(uses("/b.html", None, "/a.html", Some(9)));
    c.ingest(uses("/c.html", None, "/a.html", None));
    assert_eq!(c.used_links.len(), 2);
    assert_eq!(c.used_links[0].href.path, b"/b.html".to_vec());
    assert_eq!(c.used_links[0].paragraph, Some(9));

    let mut d = UsedLinkCollector::new();
    d.ingest(uses("/d.html", None, "/a.html", None));
    c.merge(d);
    assert_eq!(c.used_links.len(), 3);
}

#[test]
fn without_anchor_projects_to_path_only() {
    let h = href("/a", Some("frag"));
    let p = h.without_anchor();
    assert_eq!(p.path, b"/a".to_vec());
    assert!(p.anchor.is_none());
}

#[test]
fn href_order_is_path_then_anchor() {
    let a = href("/a", None);
    let ax = href("/a", Some("x"));
    let ay = href("/a", Some("y"));
    let b = href("/ab", None);

    // no anchor sorts before any anchor on the same path
    assert!(a.before(&ax));
    assert!(!ax.before(&a));
    // anchors compare lexicographically
    assert!(ax.before(&ay));
    // a proper prefix precedes the longer path, whatever the anchors
    assert!(ay.before(&b));
    // the order is irreflexive and equality is by contents
    assert!(!a.before(&a));
    assert!(a.same_as(&href("/a", None)));
    assert!(!a.same_as(&ax));
}

#[test]
fn byte_order_is_lexicographic() {
    assert!(bytes_lt(&b"abc".to_vec(), &b"abd".to_vec()));
    assert!(bytes_lt(&b"ab".to_vec(), &b"abc".to_vec()));
    assert!(!bytes_lt(&b"abc".to_vec(), &b"abc".to_vec()));
    assert!(!bytes_lt(&b"b".to_vec(), &b"abc".to_vec()));
    assert!(bytes_lt(&b"".to_vec(), &b"a".to_vec()));
}
