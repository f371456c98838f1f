use hyperlink::collector::{BrokenLinkCollector, LinkCollector};
use hyperlink::model::{DefinedLink, Href, Link, UsedLink};
use hyperlink::paragraphs::FingerprintIndex;
use hyperlink::report::{exit_code, group_findings, GroupEntry};

fn href(path: &str, anchor: Option<&str>) -> Href {
    Href {
        path: path.as_bytes().to_vec(),
        anchor: anchor.map(|a| a.as_bytes().to_vec()),
    }
}

fn defines(path: &str) -> Link {
    Link::Defines(DefinedLink { href: href(path, None), paragraph: None })
}

fn uses(target: &str, from: &str, paragraph: Option<u64>) -> Link {
    Link::Uses(UsedLink {
        href: href(target, None),
        path: from.as_bytes().to_vec(),
        paragraph,
    })
}

fn keys(groups: &[GroupEntry]) -> Vec<(bool, Vec<u8>)> {
    groups.iter().map(|g| (g.fallback, g.path.clone())).collect()
}

#[test]
fn index_insert_and_lookup() {
    let mut idx = FingerprintIndex::new();
    idx.insert(5, b"docs/a.md".to_vec());
    idx.insert(5, b"docs/b.md".to_vec());
    idx.insert(7, b"docs/c.md".to_vec());

    let five = idx.lookup(5).expect("fingerprint 5 is known");
    assert_eq!(five.len(), 2);
    assert_eq!(five[0], b"docs/a.md".to_vec());
    assert_eq!(five[1], b"docs/b.md".to_vec());

    let seven = idx.lookup(7).expect("fingerprint 7 is known");
    assert_eq!(seven.len(), 1);
    assert!(idx.lookup(9).is_none());
}

#[test]
fn matching_fingerprint_attributes_to_every_source_never_the_raw_file() {
    let mut idx = FingerprintIndex::new();
    idx.insert(42, b"src/shared.md".to_vec());
    idx.insert(42, b"src/other.md".to_vec());

    let mut c = BrokenLinkCollector::new();
    c.ingest(uses("/dead.html", "/out/page.html", Some(42)));
    let findings = c.get_broken_links(false);
    assert_eq!(findings.len(), 1);

    let groups = group_findings(&findings, &idx);
    assert_eq!(
        keys(&groups),
        vec![
            (false, b"src/other.md".to_vec()),
            (false, b"src/shared.md".to_vec()),
        ]
    );
    for g in &groups {
        assert_eq!(g.bad_links.len(), 1);
        assert_eq!(g.bad_links[0].path, b"/dead.html".to_vec());
        assert!(g.bad_anchors.is_empty());
    }
}

#[test]
fn unmatched_fingerprint_falls_back_to_raw_file() {
    let mut idx = FingerprintIndex::new();
    idx.insert(1, b"src/known.md".to_vec());

    let mut c = BrokenLinkCollector::new();
    // a fingerprint the index does not know, and a usage with none at all
    c.ingest(uses("/dead.html", "/out/a.html", Some(99)));
    c.ingest(uses("/dead.html", "/out/b.html", None));
    let findings = c.get_broken_links(false);
    assert_eq!(findings.len(), 2);

    let groups = group_findings(&findings, &idx);
    assert_eq!(
        keys(&groups),
        vec![(true, b"/out/a.html".to_vec()), (true, b"/out/b.html".to_vec())]
    );
}

#[test]
fn source_attributed_entries_sort_before_fallback_entries() {
    let mut idx = FingerprintIndex::new();
    idx.insert(3, b"zz/last.md".to_vec());

    let mut c = BrokenLinkCollector::new();
    c.ingest(uses("/dead.html", "/aa/first.html", None));
    c.ingest(uses("/dead.html", "/out.html", Some(3)));
    let findings = c.get_broken_links(false);

    let groups = group_findings(&findings, &idx);
    assert_eq!(
        keys(&groups),
        vec![(false, b"zz/last.md".to_vec()), (true, b"/aa/first.html".to_vec())]
    );
}

#[test]
fn repeated_targets_deduplicate_within_a_group() {
    let idx = FingerprintIndex::new();
    let mut c = BrokenLinkCollector::new();
    c.ingest(uses("/dead.html", "/page.html", None));
    c.ingest(uses("/dead.html", "/page.html", None));
    c.ingest(uses("/gone.html", "/page.html", None));
    let findings = c.get_broken_links(false);
    assert_eq!(findings.len(), 3);

    let groups = group_findings(&findings, &idx);
    assert_eq!(groups.len(), 1);
    assert_eq!(groups[0].bad_links.len(), 2);
    assert_eq!(groups[0].bad_links[0].path, b"/dead.html".to_vec());
    assert_eq!(groups[0].bad_links[1].path, b"/gone.html".to_vec());
}

#[test]
fn grouping_is_identical_whatever_order_workers_produced() {
    let mut idx = FingerprintIndex::new();
    idx.insert(8, b"src/a.md".to_vec());

    let events = || {
        vec![
            uses("/x.html", "/p.html", Some(8)),
            uses("/y.html", "/q.html", None),
            defines("/ok.html"),
            uses("/ok.html", "/p.html", None),
            uses("/x.html", "/r.html", None),
        ]
    };

    // one worker, events in order
    let mut c1 = BrokenLinkCollector::new();
    for l in events() {
        c1.ingest(l);
    }

    // two workers, events split and merged in the opposite order
    let mut w1 = BrokenLinkCollector::new();
    let mut w2 = BrokenLinkCollector::new();
    for (i, l) in events().into_iter().rev().enumerate() {
        if i % 2 == 0 {
            w1.ingest(l);
        } else {
            w2.ingest(l);
        }
    }
    let mut c2 = BrokenLinkCollector::new();
    c2.merge(w2);
    c2.merge(w1);

    let g1 = group_findings(&c1.get_broken_links(true), &idx);
    let g2 = group_findings(&c2.get_broken_links(true), &idx);

    assert_eq!(g1.len(), g2.len());
    for (a, b) in g1.iter().zip(g2.iter()) {
        assert_eq!(a.fallback, b.fallback);
        assert_eq!(a.path, b.path);
        let pa: Vec<&Vec<u8>> = a.bad_links.iter().map(|h| &h.path).collect();
        let pb: Vec<&Vec<u8>> = b.bad_links.iter().map(|h| &h.path).collect();
        assert_eq!(pa, pb);
        let aa: Vec<&Vec<u8>> = a.bad_anchors.iter().map(|h| &h.path).collect();
        let ab: Vec<&Vec<u8>> = b.bad_anchors.iter().map(|h| &h.path).collect();
        assert_eq!(aa, ab);
    }
}

#[test]
fn exit_codes_distinguish_hard_soft_and_clean() {
    assert_eq!(exit_code(0, 0), 0);
    assert_eq!(exit_code(2, 0), 1);
    assert_eq!(exit_code(0, 3), 2);
    // hard failures dominate
    assert_eq!(exit_code(1, 5), 1);
}
