//! Source attribution and deterministic grouping of findings.
//!
//! Every finding is attributed either to the source documents whose
//! paragraphs share its fingerprint, or — when no source matches — to the
//! raw output file that used the link.  Attributions are grouped per
//! (is-fallback, path) key with deduplicated, ordered target sets, so the
//! report depends only on which attributions exist, never on the order in
//! which workers produced the findings.

use vstd::prelude::*;

use crate::bytes::bytes_lt;
use crate::bytes::clone_bytes;
use crate::bytes::lemma_lex_lt_connex;
use crate::bytes::lemma_lex_lt_irrefl;
use crate::bytes::lemma_lex_lt_trans;
use crate::bytes::lex_lt;
use crate::collector::BrokenLink;
use crate::collector::BrokenLinkV;
use crate::model::href_lt;
use crate::model::lemma_href_lt_connex;
use crate::model::lemma_href_lt_irrefl;
use crate::model::lemma_href_lt_trans;
use crate::model::Fingerprint;
use crate::model::Href;
use crate::model::HrefV;
use crate::paragraphs::fp_in;
use crate::paragraphs::pair_in;
use crate::paragraphs::FingerprintIndex;

verus! {

/// One block of the grouped report: all broken targets attributed to one
/// file, split into hard failures (`bad_links`) and soft failures
/// (`bad_anchors`), each set ordered and deduplicated.
pub struct GroupEntry {
    /// True when attribution fell back to the raw output file because no
    /// source document matched; such entries sort after source entries.
    pub fallback: bool,
    /// The file the report block is about.
    pub path: Vec<u8>,
    pub bad_links: Vec<Href>,
    pub bad_anchors: Vec<Href>,
}

/// Mathematical image of a [`GroupEntry`].
pub struct GroupEntryV {
    pub fallback: bool,
    pub path: Seq<u8>,
    pub bad_links: Seq<HrefV>,
    pub bad_anchors: Seq<HrefV>,
}

impl View for GroupEntry {
    type V = GroupEntryV;

    open spec fn view(&self) -> GroupEntryV {
        GroupEntryV {
            fallback: self.fallback,
            path: self.path@,
            bad_links: self.bad_links@.map_values(|h: Href| h@),
            bad_anchors: self.bad_anchors@.map_values(|h: Href| h@),
        }
    }
}

/// Presentation order on report blocks: source-attributed entries first,
/// then by path.
pub open spec fn group_key_lt(fb1: bool, p1: Seq<u8>, fb2: bool, p2: Seq<u8>) -> bool {
    (!fb1 && fb2) || (fb1 == fb2 && lex_lt(p1, p2))
}

pub open spec fn groups_sorted(gs: Seq<GroupEntry>) -> bool {
    forall|i: int, j: int|
        0 <= i < j < gs.len() ==> group_key_lt(
            (#[trigger] gs[i])@.fallback,
            gs[i]@.path,
            (#[trigger] gs[j])@.fallback,
            gs[j]@.path,
        )
}

pub open spec fn href_in(s: Seq<Href>, h: HrefV) -> bool {
    exists|j: int| 0 <= j < s.len() && (#[trigger] s[j])@ == h
}

pub open spec fn hrefs_sorted(s: Seq<Href>) -> bool {
    forall|i: int, j: int| 0 <= i < j < s.len() ==> href_lt((#[trigger] s[i])@, (#[trigger] s[j])@)
}

/// Each report block is internally ordered and deduplicated and reports at
/// least one target.
pub open spec fn groups_wf(gs: Seq<GroupEntry>) -> bool {
    &&& groups_sorted(gs)
    &&& forall|i: int|
        0 <= i < gs.len() ==> hrefs_sorted((#[trigger] gs[i]).bad_links@) && hrefs_sorted(
            gs[i].bad_anchors@,
        )
    &&& forall|i: int|
        0 <= i < gs.len() ==> (#[trigger] gs[i]).bad_links@.len() + gs[i].bad_anchors@.len() > 0
}

/// Does the grouped report contain target `h` with severity `hard` in the
/// block keyed (`fb`, `p`)?
pub open spec fn group_has(gs: Seq<GroupEntry>, fb: bool, p: Seq<u8>, hard: bool, h: HrefV) -> bool {
    exists|i: int|
        0 <= i < gs.len() && (#[trigger] gs[i]).fallback == fb && gs[i].path@ == p && href_in(
            if hard {
                gs[i].bad_links@
            } else {
                gs[i].bad_anchors@
            },
            h,
        )
}

/// Does finding `f` match at least one source document in the index?
pub open spec fn has_sources(f: BrokenLinkV, idx: Seq<(Fingerprint, Vec<Vec<u8>>)>) -> bool {
    f.used_link.paragraph matches Option::Some(p) && fp_in(idx, p)
}

/// Attribution rule: a finding whose fingerprint matches source documents is
/// attributed to exactly those documents; otherwise to the raw output file
/// that used the link.
pub open spec fn attributes(
    f: BrokenLinkV,
    idx: Seq<(Fingerprint, Vec<Vec<u8>>)>,
    fb: bool,
    p: Seq<u8>,
) -> bool {
    if has_sources(f, idx) {
        !fb && pair_in(idx, f.used_link.paragraph->Some_0, p)
    } else {
        fb && p == f.used_link.path
    }
}

/// Does some finding among the first `n` attribute target `h` with severity
/// `hard` to the block keyed (`fb`, `p`)?
pub open spec fn attributed_upto(
    fs: Seq<BrokenLink>,
    n: int,
    idx: Seq<(Fingerprint, Vec<Vec<u8>>)>,
    fb: bool,
    p: Seq<u8>,
    hard: bool,
    h: HrefV,
) -> bool {
    exists|k: int|
        0 <= k < n && (#[trigger] fs[k])@.used_link.href == h && fs[k]@.hard_404 == hard
            && attributes(fs[k]@, idx, fb, p)
}

pub open spec fn attributed(
    fs: Seq<BrokenLink>,
    idx: Seq<(Fingerprint, Vec<Vec<u8>>)>,
    fb: bool,
    p: Seq<u8>,
    hard: bool,
    h: HrefV,
) -> bool {
    attributed_upto(fs, fs.len() as int, idx, fb, p, hard, h)
}

/// Inserts a target into an ordered deduplicated set of targets.
fn insert_href_sorted(v: &mut Vec<Href>, href: &Href)
    requires
        hrefs_sorted(old(v)@),
    ensures
        hrefs_sorted(final(v)@),
        final(v)@.len() > 0,
        forall|h: HrefV| href_in(final(v)@, h) == (href_in(old(v)@, h) || h == href@),
{
    let ghost v0 = v@;
    let mut i: usize = 0;
    while i < v.len() && v[i].before(href)
        invariant
            v0 == v@,
            hrefs_sorted(v0),
            i <= v0.len(),
            forall|j: int| 0 <= j < i ==> href_lt((#[trigger] v0[j])@, href@),
        decreases v0.len() - i,
    {
        i += 1;
    }
    if i < v.len() {
        let e = &v[i];
        if e.same_as(href) {
            proof {
                assert forall|h: HrefV| href_in(v@, h) == (href_in(v0, h) || h == href@) by {
                    if h == href@ {
                        assert(v0[i as int]@ == h);
                    }
                }
            }
            return ;
        }
        proof {
            lemma_href_lt_connex(v0[i as int]@, href@);
            assert(href_lt(href@, v0[i as int]@));
        }
    }
    v.insert(i, href.duplicate());
    proof {
        let v1 = v@;
        assert(v1 == v0.insert(i as int, v1[i as int]));
        assert(v1[i as int]@ == href@);
        assert(v1.len() == v0.len() + 1);
        assert forall|a: int| 0 <= a < i implies v1[a] == v0[a] by {}
        assert forall|a: int| i < a < v1.len() implies v1[a] == v0[a - 1] by {}
        assert forall|a: int, b: int| 0 <= a < b < v1.len() implies href_lt(
            v1[a]@,
            v1[b]@,
        ) by {
            if a < i && b < i {
            } else if a < i && b == i {
                assert(href_lt(v0[a]@, href@));
            } else if a == i && b > i {
                assert(href_lt(href@, v0[b - 1]@)) by {
                    assert(href_lt(href@, v0[i as int]@));
                    if b - 1 > i {
                        lemma_href_lt_trans(href@, v0[i as int]@, v0[b - 1]@);
                    }
                }
            } else if a < i && b > i {
                assert(href_lt(v0[a]@, v0[b - 1]@));
            } else {
                assert(href_lt(v0[a - 1]@, v0[b - 1]@));
            }
        }
        assert forall|h: HrefV| href_in(v1, h) == (href_in(v0, h) || h == href@) by {
            if href_in(v1, h) {
                let w = choose|w: int| 0 <= w < v1.len() && v1[w]@ == h;
                if w < i {
                    assert(v0[w]@ == h);
                } else if w == i {
                } else {
                    assert(v0[w - 1]@ == h);
                }
            }
            if href_in(v0, h) {
                let w = choose|w: int| 0 <= w < v0.len() && v0[w]@ == h;
                if w < i {
                    assert(v1[w]@ == h);
                } else {
                    assert(v1[w + 1]@ == h);
                }
            }
            if h == href@ {
                assert(v1[i as int]@ == h);
            }
        }
    }
}

fn key_equal(fb1: bool, p1: &Vec<u8>, e: &GroupEntry) -> (r: bool)
    ensures
        r == (fb1 == e@.fallback && p1@ == e@.path),
{
    if fb1 != e.fallback {
        return false;
    }
    let eq = p1 == &e.path;
    proof {
        if p1@ =~= e.path@ {
            assert(p1@ == e.path@);
        }
    }
    eq
}

pub proof fn lemma_group_key_lt_irrefl(fb: bool, p: Seq<u8>)
    ensures
        !group_key_lt(fb, p, fb, p),
{
    lemma_lex_lt_irrefl(p);
}

pub proof fn lemma_group_key_lt_trans(
    fb1: bool,
    p1: Seq<u8>,
    fb2: bool,
    p2: Seq<u8>,
    fb3: bool,
    p3: Seq<u8>,
)
    requires
        group_key_lt(fb1, p1, fb2, p2),
        group_key_lt(fb2, p2, fb3, p3),
    ensures
        group_key_lt(fb1, p1, fb3, p3),
{
    if fb1 == fb2 && fb2 == fb3 {
        lemma_lex_lt_trans(p1, p2, p3);
    }
}

pub proof fn lemma_group_key_lt_connex(fb1: bool, p1: Seq<u8>, fb2: bool, p2: Seq<u8>)
    ensures
        group_key_lt(fb1, p1, fb2, p2) || group_key_lt(fb2, p2, fb1, p1) || (fb1 == fb2 && p1
            == p2),
{
    lemma_lex_lt_connex(p1, p2);
}

/// Decides whether an existing block sorts before the key (`fb`, `p`).
fn entry_key_before(e: &GroupEntry, fb: bool, p: &Vec<u8>) -> (r: bool)
    ensures
        r == group_key_lt(e@.fallback, e@.path, fb, p@),
{
    if e.fallback && !fb {
        false
    } else if e.fallback == fb {
        bytes_lt(&e.path, p)
    } else {
        true
    }
}

/// Records one attribution: target `href` with severity `hard` charged to
/// the block keyed (`fallback`, `path`), creating the block if needed.  The
/// report gains exactly this one association and keeps its ordering, so the
/// outcome does not depend on the order attributions arrive in.
#[verifier::rlimit(100)]
fn add_attribution(
    groups: &mut Vec<GroupEntry>,
    fallback: bool,
    path: &Vec<u8>,
    hard: bool,
    href: &Href,
)
    requires
        groups_wf(old(groups)@),
    ensures
        groups_wf(final(groups)@),
        forall|fb: bool, p: Seq<u8>, hd: bool, h: HrefV|
            group_has(final(groups)@, fb, p, hd, h) == (group_has(old(groups)@, fb, p, hd, h) || (
            fb == fallback && p == path@ && hd == hard && h == href@)),
{
    let ghost g0 = groups@;
    let mut i: usize = 0;
    while i < groups.len() && entry_key_before(&groups[i], fallback, path)
        invariant
            g0 == groups@,
            groups_wf(g0),
            i <= g0.len(),
            forall|j: int|
                0 <= j < i ==> group_key_lt(
                    (#[trigger] g0[j])@.fallback,
                    g0[j]@.path,
                    fallback,
                    path@,
                ),
        decreases g0.len() - i,
    {
        i += 1;
    }
    if i < groups.len() {
        let hit = key_equal(fallback, path, &groups[i]);
        if hit {
            let ghost e0 = g0[i as int];
            if hard {
                insert_href_sorted(&mut groups[i].bad_links, href);
            } else {
                insert_href_sorted(&mut groups[i].bad_anchors, href);
            }
            proof {
                let g = groups@;
                assert(g == g0.update(i as int, g[i as int]));
                assert(g[i as int].fallback == fallback && g[i as int].path@ == path@);
                assert(groups_wf(g)) by {
                    assert forall|a: int, b: int| 0 <= a < b < g.len() implies group_key_lt(
                        g[a]@.fallback,
                        g[a]@.path,
                        g[b]@.fallback,
                        g[b]@.path,
                    ) by {
                        assert(g0[a]@.fallback == g[a]@.fallback && g0[a]@.path == g[a]@.path);
                        assert(g0[b]@.fallback == g[b]@.fallback && g0[b]@.path == g[b]@.path);
                    }
                    assert forall|a: int|
                        0 <= a < g.len() implies hrefs_sorted((#[trigger] g[a]).bad_links@)
                        && hrefs_sorted(g[a].bad_anchors@) && g[a].bad_links@.len()
                        + g[a].bad_anchors@.len() > 0 by {
                        if a != i {
                            assert(g[a] == g0[a]);
                        }
                    }
                }
                assert forall|fb: bool, p: Seq<u8>, hd: bool, h: HrefV|
                    group_has(g, fb, p, hd, h) == (group_has(g0, fb, p, hd, h) || (fb == fallback
                        && p == path@ && hd == hard && h == href@)) by {
                    if group_has(g, fb, p, hd, h) {
                        let w = choose|w: int|
                            0 <= w < g.len() && (#[trigger] g[w]).fallback == fb && g[w].path@ == p
                                && href_in(
                                if hd {
                                    g[w].bad_links@
                                } else {
                                    g[w].bad_anchors@
                                },
                                h,
                            );
                        if w != i {
                            assert(g0[w] == g[w]);
                            assert(group_has(g0, fb, p, hd, h));
                        } else {
                            if hd == hard {
                                if href_in(if hd { e0.bad_links@ } else { e0.bad_anchors@ }, h) {
                                    assert(group_has(g0, fb, p, hd, h));
                                } else {
                                    assert(h == href@);
                                }
                            } else {
                                assert(if hd { g[w].bad_links@ } else { g[w].bad_anchors@ } == if
                                    hd { e0.bad_links@ } else { e0.bad_anchors@ });
                                assert(group_has(g0, fb, p, hd, h));
                            }
                        }
                    }
                    if group_has(g0, fb, p, hd, h) {
                        let w = choose|w: int|
                            0 <= w < g0.len() && (#[trigger] g0[w]).fallback == fb && g0[w].path@
                                == p && href_in(
                                if hd {
                                    g0[w].bad_links@
                                } else {
                                    g0[w].bad_anchors@
                                },
                                h,
                            );
                        if w != i {
                            assert(g[w] == g0[w]);
                            assert(group_has(g, fb, p, hd, h));
                        } else {
                            assert(g[w].fallback == fb && g[w].path@ == p);
                            assert(href_in(if hd { g[w].bad_links@ } else { g[w].bad_anchors@ }, h));
                            assert(group_has(g, fb, p, hd, h));
                        }
                    }
                    if fb == fallback && p == path@ && hd == hard && h == href@ {
                        assert(href_in(if hd { g[i as int].bad_links@ } else { g[i as int].bad_anchors@ }, h));
                        assert(group_has(g, fb, p, hd, h));
                    }
                }
            }
            return ;
        }
        proof {
            lemma_group_key_lt_connex(g0[i as int]@.fallback, g0[i as int]@.path, fallback, path@);
            assert(group_key_lt(fallback, path@, g0[i as int]@.fallback, g0[i as int]@.path));
        }
    }
    let mut bad_links: Vec<Href> = Vec::new();
    let mut bad_anchors: Vec<Href> = Vec::new();
    if hard {
        bad_links.push(href.duplicate());
    } else {
        bad_anchors.push(href.duplicate());
    }
    let entry = GroupEntry { fallback, path: clone_bytes(path), bad_links, bad_anchors };
    groups.insert(i, entry);
    proof {
        let g = groups@;
        assert(g == g0.insert(i as int, g[i as int]));
        assert(g[i as int].fallback == fallback && g[i as int].path@ == path@);
        assert(g.len() == g0.len() + 1);
        assert forall|a: int| 0 <= a < i implies g[a] == g0[a] by {}
        assert forall|a: int| i < a < g.len() implies g[a] == g0[a - 1] by {}
        assert(groups_wf(g)) by {
            assert forall|a: int, b: int| 0 <= a < b < g.len() implies group_key_lt(
                g[a]@.fallback,
                g[a]@.path,
                g[b]@.fallback,
                g[b]@.path,
            ) by {
                if a < i && b < i {
                } else if a < i && b == i {
                } else if a == i && b > i {
                    assert(group_key_lt(fallback, path@, g0[i as int]@.fallback, g0[i as int]@.path));
                    if b - 1 > i {
                        lemma_group_key_lt_trans(
                            fallback,
                            path@,
                            g0[i as int]@.fallback,
                            g0[i as int]@.path,
                            g0[b - 1]@.fallback,
                            g0[b - 1]@.path,
                        );
                    }
                } else if a < i && b > i {
                } else {
                }
            }
            assert forall|a: int|
                0 <= a < g.len() implies hrefs_sorted((#[trigger] g[a]).bad_links@) && hrefs_sorted(
                g[a].bad_anchors@,
            ) && g[a].bad_links@.len() + g[a].bad_anchors@.len() > 0 by {
                if a < i {
                    assert(g[a] == g0[a]);
                } else if a > i {
                    assert(g[a] == g0[a - 1]);
                }
            }
        }
        assert forall|fb: bool, p: Seq<u8>, hd: bool, h: HrefV|
            group_has(g, fb, p, hd, h) == (group_has(g0, fb, p, hd, h) || (fb == fallback && p
                == path@ && hd == hard && h == href@)) by {
            if group_has(g, fb, p, hd, h) {
                let w = choose|w: int|
                    0 <= w < g.len() && (#[trigger] g[w]).fallback == fb && g[w].path@ == p
                        && href_in(
                        if hd {
                            g[w].bad_links@
                        } else {
                            g[w].bad_anchors@
                        },
                        h,
                    );
                if w < i {
                    assert(g0[w] == g[w]);
                    assert(group_has(g0, fb, p, hd, h));
                } else if w > i {
                    assert(g0[w - 1] == g[w]);
                    assert(group_has(g0, fb, p, hd, h));
                } else {
                    assert(fb == fallback && p == path@);
                    if hd {
                        let j = choose|j: int|
                            0 <= j < g[w].bad_links@.len() && (#[trigger] g[w].bad_links@[j])@
                                == h;
                        assert(hd == hard && h == href@);
                    } else {
                        let j = choose|j: int|
                            0 <= j < g[w].bad_anchors@.len() && (#[trigger] g[w].bad_anchors@[j])@
                                == h;
                        assert(hd == hard && h == href@);
                    }
                }
            }
            if group_has(g0, fb, p, hd, h) {
                let w = choose|w: int|
                    0 <= w < g0.len() && (#[trigger] g0[w]).fallback == fb && g0[w].path@ == p
                        && href_in(
                        if hd {
                            g0[w].bad_links@
                        } else {
                            g0[w].bad_anchors@
                        },
                        h,
                    );
                if w < i {
                    assert(g[w] == g0[w]);
                    assert(group_has(g, fb, p, hd, h));
                } else {
                    assert(g[w + 1] == g0[w]);
                    assert(group_has(g, fb, p, hd, h));
                }
            }
            if fb == fallback && p == path@ && hd == hard && h == href@ {
                if hd {
                    assert(g[i as int].bad_links@[0]@ == href@);
                } else {
                    assert(g[i as int].bad_anchors@[0]@ == href@);
                }
                assert(href_in(if hd { g[i as int].bad_links@ } else { g[i as int].bad_anchors@ }, h));
                assert(group_has(g, fb, p, hd, h));
            }
        }
    }
}

/// Attributes every finding and builds the grouped report: one ordered block
/// per (is-fallback, path) key, holding exactly the broken targets charged
/// to that file.  A finding whose fingerprint matches k source documents is
/// charged to exactly those k documents and never to the raw file; a finding
/// with no matching source is charged to the raw file that used the link.
#[verifier::loop_isolation(false)]
pub fn group_findings(findings: &Vec<BrokenLink>, index: &FingerprintIndex) -> (groups: Vec<
    GroupEntry,
>)
    requires
        index.wf(),
    ensures
        groups_wf(groups@),
        forall|fb: bool, p: Seq<u8>, hd: bool, h: HrefV|
            group_has(groups@, fb, p, hd, h) == attributed(findings@, index.entries@, fb, p, hd, h),
{
    let ghost fs = findings@;
    let ghost idx = index.entries@;
    let mut groups: Vec<GroupEntry> = Vec::new();
    let mut k: usize = 0;
    while k < findings.len()
        invariant
            fs == findings@,
            idx == index.entries@,
            index.wf(),
            k <= fs.len(),
            groups_wf(groups@),
            forall|fb: bool, p: Seq<u8>, hd: bool, h: HrefV|
                group_has(groups@, fb, p, hd, h) == attributed_upto(fs, k as int, idx, fb, p, hd, h),
        decreases fs.len() - k,
    {
        let f = &findings[k];
        let ghost fv = fs[k as int]@;
        let mut raw = true;
        match &f.used_link.paragraph {
            Option::Some(pf) => {
                match index.lookup(*pf) {
                    Option::Some(sources) => {
                        raw = false;
                        proof {
                            assert(has_sources(fv, idx));
                        }
                        let ghost g_in = groups@;
                        let mut j: usize = 0;
                        while j < sources.len()
                            invariant
                                fs == findings@,
                                idx == index.entries@,
                                index.wf(),
                                k < fs.len(),
                                fv == fs[k as int]@,
                                has_sources(fv, idx),
                                fv.used_link.paragraph matches Option::Some(q) && (forall|
                                    path: Seq<u8>,
                                |
                                    pair_in(idx, q, path) == exists|t: int|
                                        0 <= t < sources@.len() && (#[trigger] sources@[t])@
                                            == path),
                                j <= sources@.len(),
                                groups_wf(groups@),
                                forall|fb: bool, p: Seq<u8>, hd: bool, h: HrefV|
                                    group_has(groups@, fb, p, hd, h) == (attributed_upto(
                                        fs,
                                        k as int,
                                        idx,
                                        fb,
                                        p,
                                        hd,
                                        h,
                                    ) || (h == fv.used_link.href && hd == fv.hard_404 && !fb
                                        && exists|t: int|
                                        0 <= t < j && (#[trigger] sources@[t])@ == p)),
                            decreases sources@.len() - j,
                        {
                            let ghost g_before = groups@;
                            add_attribution(
                                &mut groups,
                                false,
                                &sources[j],
                                f.hard_404,
                                &f.used_link.href,
                            );
                            proof {
                                assert forall|fb: bool, p: Seq<u8>, hd: bool, h: HrefV|
                                    group_has(groups@, fb, p, hd, h) == (attributed_upto(
                                        fs,
                                        k as int,
                                        idx,
                                        fb,
                                        p,
                                        hd,
                                        h,
                                    ) || (h == fv.used_link.href && hd == fv.hard_404 && !fb
                                        && exists|t: int|
                                        0 <= t < j + 1 && (#[trigger] sources@[t])@ == p)) by {
                                    assert(group_has(groups@, fb, p, hd, h) == (group_has(
                                        g_before,
                                        fb,
                                        p,
                                        hd,
                                        h,
                                    ) || (fb == false && p == sources@[j as int]@ && hd
                                        == fv.hard_404 && h == fv.used_link.href)));
                                    assert(group_has(g_before, fb, p, hd, h) == (attributed_upto(
                                        fs,
                                        k as int,
                                        idx,
                                        fb,
                                        p,
                                        hd,
                                        h,
                                    ) || (h == fv.used_link.href && hd == fv.hard_404 && !fb
                                        && exists|t: int|
                                        0 <= t < j && (#[trigger] sources@[t])@ == p)));
                                    if h == fv.used_link.href && hd == fv.hard_404 && !fb
                                        && exists|t: int|
                                        0 <= t < j + 1 && (#[trigger] sources@[t])@ == p {
                                        let t = choose|t: int|
                                            0 <= t < j + 1 && (#[trigger] sources@[t])@ == p;
                                        if t < j {
                                            assert(exists|t2: int|
                                                0 <= t2 < j && (#[trigger] sources@[t2])@ == p);
                                        } else {
                                            assert(sources@[j as int]@ == p);
                                        }
                                    }
                                    if h == fv.used_link.href && hd == fv.hard_404 && !fb
                                        && exists|t: int|
                                        0 <= t < j && (#[trigger] sources@[t])@ == p {
                                        let t = choose|t: int|
                                            0 <= t < j && (#[trigger] sources@[t])@ == p;
                                        assert(0 <= t < j + 1 && sources@[t]@ == p);
                                    }
                                    if fb == false && p == sources@[j as int]@ && hd
                                        == fv.hard_404 && h == fv.used_link.href {
                                        assert(0 <= j < j + 1 && sources@[j as int]@ == p);
                                    }
                                }
                            }
                            j += 1;
                        }
                        proof {
                            assert forall|fb: bool, p: Seq<u8>, hd: bool, h: HrefV|
                                group_has(groups@, fb, p, hd, h) == attributed_upto(
                                fs,
                                k + 1,
                                idx,
                                fb,
                                p,
                                hd,
                                h,
                            ) by {
                                if attributed_upto(fs, k + 1, idx, fb, p, hd, h) {
                                    let t = choose|t: int|
                                        0 <= t < k + 1 && (#[trigger] fs[t])@.used_link.href == h
                                            && fs[t]@.hard_404 == hd && attributes(
                                            fs[t]@,
                                            idx,
                                            fb,
                                            p,
                                        );
                                    if t < k {
                                        assert(attributed_upto(fs, k as int, idx, fb, p, hd, h));
                                    }
                                }
                                if attributed_upto(fs, k as int, idx, fb, p, hd, h) {
                                    let t = choose|t: int|
                                        0 <= t < k && (#[trigger] fs[t])@.used_link.href == h
                                            && fs[t]@.hard_404 == hd && attributes(
                                            fs[t]@,
                                            idx,
                                            fb,
                                            p,
                                        );
                                    assert(attributed_upto(fs, k + 1, idx, fb, p, hd, h));
                                }
                                if h == fv.used_link.href && hd == fv.hard_404 && !fb && exists|
                                    t: int,
                                |
                                    0 <= t < sources@.len() && (#[trigger] sources@[t])@ == p {
                                    assert(attributes(fv, idx, fb, p));
                                    assert(attributed_upto(fs, k + 1, idx, fb, p, hd, h));
                                }
                            }
                        }
                    },
                    Option::None => {
                        proof {
                            assert(!has_sources(fv, idx));
                        }
                    },
                }
            },
            Option::None => {
                proof {
                    assert(!has_sources(fv, idx));
                }
            },
        }
        if raw {
            add_attribution(&mut groups, true, &f.used_link.path, f.hard_404, &f.used_link.href);
            proof {
                assert(!has_sources(fv, idx));
                assert forall|fb: bool, p: Seq<u8>, hd: bool, h: HrefV|
                    group_has(groups@, fb, p, hd, h) == attributed_upto(
                    fs,
                    k + 1,
                    idx,
                    fb,
                    p,
                    hd,
                    h,
                ) by {
                    if attributed_upto(fs, k + 1, idx, fb, p, hd, h) {
                        let t = choose|t: int|
                            0 <= t < k + 1 && (#[trigger] fs[t])@.used_link.href == h
                                && fs[t]@.hard_404 == hd && attributes(fs[t]@, idx, fb, p);
                        if t < k {
                            assert(attributed_upto(fs, k as int, idx, fb, p, hd, h));
                        }
                    }
                    if attributed_upto(fs, k as int, idx, fb, p, hd, h) {
                        let t = choose|t: int|
                            0 <= t < k && (#[trigger] fs[t])@.used_link.href == h
                                && fs[t]@.hard_404 == hd && attributes(fs[t]@, idx, fb, p);
                        assert(attributed_upto(fs, k + 1, idx, fb, p, hd, h));
                    }
                    if fb && p == fv.used_link.path && hd == fv.hard_404 && h
                        == fv.used_link.href {
                        assert(attributes(fv, idx, fb, p));
                        assert(attributed_upto(fs, k + 1, idx, fb, p, hd, h));
                    }
                }
            }
        }
        k += 1;
    }
    groups
}

/// Process exit status derived from the counts: any hard failure gives the
/// hard code, otherwise any soft failure gives the anchor code, otherwise
/// success.
pub fn exit_code(hard_count: usize, soft_count: usize) -> (r: u8)
    ensures
        r == (if hard_count > 0 {
            1u8
        } else if soft_count > 0 {
            2u8
        } else {
            0u8
        }),
{
    if hard_count > 0 {
        1
    } else if soft_count > 0 {
        2
    } else {
        0
    }
}

/// Two ordered deduplicated target sets with the same members are identical.
pub proof fn lemma_sorted_hrefs_unique_equal(s1: Seq<Href>, s2: Seq<Href>)
    requires
        hrefs_sorted(s1),
        hrefs_sorted(s2),
        forall|h: HrefV| href_in(s1, h) == href_in(s2, h),
    ensures
        s1.map_values(|x: Href| x@) == s2.map_values(|x: Href| x@),
    decreases s1.len(),
{
    if s1.len() == 0 {
        if s2.len() > 0 {
            assert(href_in(s2, s2[0]@));
            let w = choose|w: int| 0 <= w < s1.len() && s1[w]@ == s2[0]@;
            assert(false);
        }
        assert(s1.map_values(|x: Href| x@) =~= s2.map_values(|x: Href| x@));
    } else if s2.len() == 0 {
        assert(href_in(s1, s1[0]@));
        let w = choose|w: int| 0 <= w < s2.len() && s2[w]@ == s1[0]@;
        assert(false);
    } else {
        // the heads are equal: each is its set's unique minimum
        assert(href_in(s1, s1[0]@));
        let w2 = choose|w: int| 0 <= w < s2.len() && s2[w]@ == s1[0]@;
        assert(href_in(s2, s2[0]@));
        let w1 = choose|w: int| 0 <= w < s1.len() && s1[w]@ == s2[0]@;
        if w1 > 0 && w2 > 0 {
            assert(href_lt(s1[0]@, s1[w1]@));
            assert(href_lt(s2[0]@, s2[w2]@));
            lemma_href_lt_trans(s1[0]@, s2[0]@, s1[0]@);
            lemma_href_lt_irrefl(s1[0]@);
            assert(false);
        }
        assert(s1[0]@ == s2[0]@);
        let d1 = s1.drop_first();
        let d2 = s2.drop_first();
        assert(hrefs_sorted(d1)) by {
            assert forall|a: int, b: int| 0 <= a < b < d1.len() implies href_lt(
                (#[trigger] d1[a])@,
                (#[trigger] d1[b])@,
            ) by {
                assert(d1[a] == s1[a + 1]);
                assert(d1[b] == s1[b + 1]);
            }
        }
        assert(hrefs_sorted(d2)) by {
            assert forall|a: int, b: int| 0 <= a < b < d2.len() implies href_lt(
                (#[trigger] d2[a])@,
                (#[trigger] d2[b])@,
            ) by {
                assert(d2[a] == s2[a + 1]);
                assert(d2[b] == s2[b + 1]);
            }
        }
        assert forall|h: HrefV| href_in(d1, h) == href_in(d2, h) by {
            if href_in(d1, h) {
                let w = choose|w: int| 0 <= w < d1.len() && (#[trigger] d1[w])@ == h;
                assert(s1[w + 1]@ == h);
                assert(href_in(s1, h));
                assert(href_lt(s1[0]@, h));
                lemma_href_lt_irrefl(h);
                let u = choose|u: int| 0 <= u < s2.len() && s2[u]@ == h;
                assert(u > 0);
                assert(d2[u - 1]@ == h);
                assert(href_in(d2, h));
            }
            if href_in(d2, h) {
                let w = choose|w: int| 0 <= w < d2.len() && (#[trigger] d2[w])@ == h;
                assert(s2[w + 1]@ == h);
                assert(href_in(s2, h));
                assert(href_lt(s2[0]@, h));
                lemma_href_lt_irrefl(h);
                let u = choose|u: int| 0 <= u < s1.len() && s1[u]@ == h;
                assert(u > 0);
                assert(d1[u - 1]@ == h);
                assert(href_in(d1, h));
            }
        }
        lemma_sorted_hrefs_unique_equal(d1, d2);
        assert(s1.map_values(|x: Href| x@) =~= s2.map_values(|x: Href| x@)) by {
            assert(s1.len() == s2.len()) by {
                assert(d1.map_values(|x: Href| x@).len() == d2.map_values(|x: Href| x@).len());
            }
            assert forall|a: int| 0 <= a < s1.len() implies s1[a]@ == s2[a]@ by {
                if a > 0 {
                    assert(d1.map_values(|x: Href| x@)[a - 1] == d2.map_values(
                        |x: Href| x@,
                    )[a - 1]);
                    assert(d1[a - 1]@ == d2[a - 1]@);
                    assert(d1[a - 1] == s1[a]);
                    assert(d2[a - 1] == s2[a]);
                }
            }
        }
    }
}

/// A nonempty report block contributes at least one association.
proof fn lemma_entry_has_member(gs: Seq<GroupEntry>, i: int) -> (r: (bool, HrefV))
    requires
        groups_wf(gs),
        0 <= i < gs.len(),
    ensures
        group_has(gs, gs[i].fallback, gs[i].path@, r.0, r.1),
{
    if gs[i].bad_links@.len() > 0 {
        let h = gs[i].bad_links@[0]@;
        assert(href_in(gs[i].bad_links@, h));
        assert(group_has(gs, gs[i].fallback, gs[i].path@, true, h));
        (true, h)
    } else {
        assert(gs[i].bad_anchors@.len() > 0);
        let h = gs[i].bad_anchors@[0]@;
        assert(href_in(gs[i].bad_anchors@, h));
        assert(group_has(gs, gs[i].fallback, gs[i].path@, false, h));
        (false, h)
    }
}

/// Law: grouping determinism.  Two well-formed grouped reports that contain
/// exactly the same attributions are identical block for block.  Since
/// `group_findings` characterizes its result purely by which attributions
/// exist — never by the order findings arrived in — identical scans grouped
/// under different thread counts or orderings print the same report.
#[verifier::rlimit(100)]
pub proof fn lemma_grouping_deterministic(g1: Seq<GroupEntry>, g2: Seq<GroupEntry>)
    requires
        groups_wf(g1),
        groups_wf(g2),
        forall|fb: bool, p: Seq<u8>, hd: bool, h: HrefV|
            group_has(g1, fb, p, hd, h) == group_has(g2, fb, p, hd, h),
    ensures
        g1.map_values(|e: GroupEntry| e@) == g2.map_values(|e: GroupEntry| e@),
    decreases g1.len(),
{
    if g1.len() == 0 {
        if g2.len() > 0 {
            let (hd, h) = lemma_entry_has_member(g2, 0);
            assert(group_has(g1, g2[0].fallback, g2[0].path@, hd, h));
            let w = choose|w: int|
                0 <= w < g1.len() && (#[trigger] g1[w]).fallback == g2[0].fallback;
            assert(false);
        }
        assert(g1.map_values(|e: GroupEntry| e@) =~= g2.map_values(|e: GroupEntry| e@));
    } else if g2.len() == 0 {
        let (hd, h) = lemma_entry_has_member(g1, 0);
        assert(group_has(g2, g1[0].fallback, g1[0].path@, hd, h));
        let w = choose|w: int| 0 <= w < g2.len() && (#[trigger] g2[w]).fallback == g1[0].fallback;
        assert(false);
    } else {
        // the head keys are equal: each is its report's first block
        let (hd1, h1) = lemma_entry_has_member(g1, 0);
        assert(group_has(g2, g1[0].fallback, g1[0].path@, hd1, h1));
        let w2 = choose|w: int|
            0 <= w < g2.len() && (#[trigger] g2[w]).fallback == g1[0].fallback && g2[w].path@
                == g1[0].path@ && href_in(
                if hd1 {
                    g2[w].bad_links@
                } else {
                    g2[w].bad_anchors@
                },
                h1,
            );
        let (hd2, h2) = lemma_entry_has_member(g2, 0);
        assert(group_has(g1, g2[0].fallback, g2[0].path@, hd2, h2));
        let w1 = choose|w: int|
            0 <= w < g1.len() && (#[trigger] g1[w]).fallback == g2[0].fallback && g1[w].path@
                == g2[0].path@ && href_in(
                if hd2 {
                    g1[w].bad_links@
                } else {
                    g1[w].bad_anchors@
                },
                h2,
            );
        if w1 > 0 && w2 > 0 {
            assert(group_key_lt(g1[0]@.fallback, g1[0]@.path, g1[w1]@.fallback, g1[w1]@.path));
            assert(group_key_lt(g2[0]@.fallback, g2[0]@.path, g2[w2]@.fallback, g2[w2]@.path));
            lemma_group_key_lt_trans(
                g1[0]@.fallback,
                g1[0]@.path,
                g2[0]@.fallback,
                g2[0]@.path,
                g1[0]@.fallback,
                g1[0]@.path,
            );
            lemma_group_key_lt_irrefl(g1[0]@.fallback, g1[0]@.path);
            assert(false);
        }
        assert(g1[0].fallback == g2[0].fallback && g1[0].path@ == g2[0].path@);
        // with equal keys the two head blocks hold the same targets
        assert forall|h: HrefV|
            href_in(g1[0].bad_links@, h) == href_in(g2[0].bad_links@, h) by {
            if href_in(g1[0].bad_links@, h) {
                assert(group_has(g1, g1[0].fallback, g1[0].path@, true, h));
                let u = choose|u: int|
                    0 <= u < g2.len() && (#[trigger] g2[u]).fallback == g1[0].fallback
                        && g2[u].path@ == g1[0].path@ && href_in(g2[u].bad_links@, h);
                if u > 0 {
                    assert(group_key_lt(
                        g2[0]@.fallback,
                        g2[0]@.path,
                        g2[u]@.fallback,
                        g2[u]@.path,
                    ));
                    lemma_group_key_lt_irrefl(g2[0]@.fallback, g2[0]@.path);
                }
                assert(href_in(g2[0].bad_links@, h));
            }
            if href_in(g2[0].bad_links@, h) {
                assert(group_has(g2, g2[0].fallback, g2[0].path@, true, h));
                let u = choose|u: int|
                    0 <= u < g1.len() && (#[trigger] g1[u]).fallback == g2[0].fallback
                        && g1[u].path@ == g2[0].path@ && href_in(g1[u].bad_links@, h);
                if u > 0 {
                    assert(group_key_lt(
                        g1[0]@.fallback,
                        g1[0]@.path,
                        g1[u]@.fallback,
                        g1[u]@.path,
                    ));
                    lemma_group_key_lt_irrefl(g1[0]@.fallback, g1[0]@.path);
                }
                assert(href_in(g1[0].bad_links@, h));
            }
        }
        assert forall|h: HrefV|
            href_in(g1[0].bad_anchors@, h) == href_in(g2[0].bad_anchors@, h) by {
            if href_in(g1[0].bad_anchors@, h) {
                assert(group_has(g1, g1[0].fallback, g1[0].path@, false, h));
                let u = choose|u: int|
                    0 <= u < g2.len() && (#[trigger] g2[u]).fallback == g1[0].fallback
                        && g2[u].path@ == g1[0].path@ && href_in(g2[u].bad_anchors@, h);
                if u > 0 {
                    assert(group_key_lt(
                        g2[0]@.fallback,
                        g2[0]@.path,
                        g2[u]@.fallback,
                        g2[u]@.path,
                    ));
                    lemma_group_key_lt_irrefl(g2[0]@.fallback, g2[0]@.path);
                }
                assert(href_in(g2[0].bad_anchors@, h));
            }
            if href_in(g2[0].bad_anchors@, h) {
                assert(group_has(g2, g2[0].fallback, g2[0].path@, false, h));
                let u = choose|u: int|
                    0 <= u < g1.len() && (#[trigger] g1[u]).fallback == g2[0].fallback
                        && g1[u].path@ == g2[0].path@ && href_in(g1[u].bad_anchors@, h);
                if u > 0 {
                    assert(group_key_lt(
                        g1[0]@.fallback,
                        g1[0]@.path,
                        g1[u]@.fallback,
                        g1[u]@.path,
                    ));
                    lemma_group_key_lt_irrefl(g1[0]@.fallback, g1[0]@.path);
                }
                assert(href_in(g1[0].bad_anchors@, h));
            }
        }
        lemma_sorted_hrefs_unique_equal(g1[0].bad_links@, g2[0].bad_links@);
        lemma_sorted_hrefs_unique_equal(g1[0].bad_anchors@, g2[0].bad_anchors@);
        assert(g1[0]@ == g2[0]@);
        // the tails match on every association, so they are equal too
        let d1 = g1.drop_first();
        let d2 = g2.drop_first();
        assert(groups_wf(d1)) by {
            assert forall|a: int, b: int| 0 <= a < b < d1.len() implies group_key_lt(
                (#[trigger] d1[a])@.fallback,
                d1[a]@.path,
                (#[trigger] d1[b])@.fallback,
                d1[b]@.path,
            ) by {
                assert(d1[a] == g1[a + 1]);
                assert(d1[b] == g1[b + 1]);
            }
            assert forall|a: int|
                0 <= a < d1.len() implies hrefs_sorted((#[trigger] d1[a]).bad_links@)
                && hrefs_sorted(d1[a].bad_anchors@) && d1[a].bad_links@.len()
                + d1[a].bad_anchors@.len() > 0 by {
                assert(d1[a] == g1[a + 1]);
            }
        }
        assert(groups_wf(d2)) by {
            assert forall|a: int, b: int| 0 <= a < b < d2.len() implies group_key_lt(
                (#[trigger] d2[a])@.fallback,
                d2[a]@.path,
                (#[trigger] d2[b])@.fallback,
                d2[b]@.path,
            ) by {
                assert(d2[a] == g2[a + 1]);
                assert(d2[b] == g2[b + 1]);
            }
            assert forall|a: int|
                0 <= a < d2.len() implies hrefs_sorted((#[trigger] d2[a]).bad_links@)
                && hrefs_sorted(d2[a].bad_anchors@) && d2[a].bad_links@.len()
                + d2[a].bad_anchors@.len() > 0 by {
                assert(d2[a] == g2[a + 1]);
            }
        }
        assert forall|fb: bool, p: Seq<u8>, hd: bool, h: HrefV|
            group_has(d1, fb, p, hd, h) == group_has(d2, fb, p, hd, h) by {
            if group_has(d1, fb, p, hd, h) {
                let w = choose|w: int|
                    0 <= w < d1.len() && (#[trigger] d1[w]).fallback == fb && d1[w].path@ == p
                        && href_in(
                        if hd {
                            d1[w].bad_links@
                        } else {
                            d1[w].bad_anchors@
                        },
                        h,
                    );
                assert(d1[w] == g1[w + 1]);
                assert(group_has(g1, fb, p, hd, h));
                let u = choose|u: int|
                    0 <= u < g2.len() && (#[trigger] g2[u]).fallback == fb && g2[u].path@ == p
                        && href_in(
                        if hd {
                            g2[u].bad_links@
                        } else {
                            g2[u].bad_anchors@
                        },
                        h,
                    );
                if u == 0 {
                    assert(group_key_lt(g1[0]@.fallback, g1[0]@.path, g1[w + 1]@.fallback, g1[w
                        + 1]@.path));
                    lemma_group_key_lt_irrefl(g1[0]@.fallback, g1[0]@.path);
                    assert(false);
                }
                assert(d2[u - 1] == g2[u]);
                assert(group_has(d2, fb, p, hd, h));
            }
            if group_has(d2, fb, p, hd, h) {
                let w = choose|w: int|
                    0 <= w < d2.len() && (#[trigger] d2[w]).fallback == fb && d2[w].path@ == p
                        && href_in(
                        if hd {
                            d2[w].bad_links@
                        } else {
                            d2[w].bad_anchors@
                        },
                        h,
                    );
                assert(d2[w] == g2[w + 1]);
                assert(group_has(g2, fb, p, hd, h));
                let u = choose|u: int|
                    0 <= u < g1.len() && (#[trigger] g1[u]).fallback == fb && g1[u].path@ == p
                        && href_in(
                        if hd {
                            g1[u].bad_links@
                        } else {
                            g1[u].bad_anchors@
                        },
                        h,
                    );
                if u == 0 {
                    assert(group_key_lt(g2[0]@.fallback, g2[0]@.path, g2[w + 1]@.fallback, g2[w
                        + 1]@.path));
                    lemma_group_key_lt_irrefl(g2[0]@.fallback, g2[0]@.path);
                    assert(false);
                }
                assert(d1[u - 1] == g1[u]);
                assert(group_has(d1, fb, p, hd, h));
            }
        }
        lemma_grouping_deterministic(d1, d2);
        assert(g1.map_values(|e: GroupEntry| e@) =~= g2.map_values(|e: GroupEntry| e@)) by {
            assert(g1.len() == g2.len()) by {
                assert(d1.map_values(|e: GroupEntry| e@).len() == d2.map_values(
                    |e: GroupEntry| e@,
                ).len());
            }
            assert forall|a: int| 0 <= a < g1.len() implies g1[a]@ == g2[a]@ by {
                if a > 0 {
                    assert(d1.map_values(|e: GroupEntry| e@)[a - 1] == d2.map_values(
                        |e: GroupEntry| e@,
                    )[a - 1]);
                    assert(d1[a - 1]@ == d2[a - 1]@);
                    assert(d1[a - 1] == g1[a]);
                    assert(d2[a - 1] == g2[a]);
                }
            }
        }
    }
}

} // verus!
