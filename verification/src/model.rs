//! Link endpoint model: targets, definition and use events.
//!
//! An [`Href`] identifies a link target by its path and an optional anchor
//! fragment.  A [`Link`] event either defines a target (the target exists) or
//! uses one (some document references it).  Paragraph fingerprints are opaque
//! content digests handed in by the caller; the crate only compares them.

use vstd::prelude::*;
use vstd::multiset::Multiset;

use crate::bytes::bytes_lt;
use crate::bytes::clone_bytes;
use crate::bytes::lemma_lex_lt_connex;
use crate::bytes::lemma_lex_lt_irrefl;
use crate::bytes::lemma_lex_lt_trans;
use crate::bytes::lex_lt;

verus! {

/// A paragraph fingerprint: a content-normalized digest of a paragraph's
/// visible text, produced outside this crate.  Only equality matters here.
pub type Fingerprint = u64;

/// Identity of a link target: a path, optionally narrowed to an anchor
/// fragment within that path.
#[derive(Debug)]
pub struct Href {
    pub path: Vec<u8>,
    pub anchor: Option<Vec<u8>>,
}

/// Mathematical image of an [`Href`].
pub struct HrefV {
    pub path: Seq<u8>,
    pub anchor: Option<Seq<u8>>,
}

pub open spec fn opt_bytes_view(a: Option<Vec<u8>>) -> Option<Seq<u8>> {
    match a {
        Option::Some(v) => Option::Some(v@),
        Option::None => Option::None,
    }
}

impl View for Href {
    type V = HrefV;

    open spec fn view(&self) -> HrefV {
        HrefV { path: self.path@, anchor: opt_bytes_view(self.anchor) }
    }
}

/// Strict order on optional anchors: no anchor precedes any anchor.
pub open spec fn opt_lex_lt(a: Option<Seq<u8>>, b: Option<Seq<u8>>) -> bool {
    match (a, b) {
        (Option::None, Option::Some(_)) => true,
        (Option::Some(x), Option::Some(y)) => lex_lt(x, y),
        _ => false,
    }
}

/// Total strict order on targets: by path, then by anchor.  This is the
/// order in which findings are reported.
pub open spec fn href_lt(a: HrefV, b: HrefV) -> bool {
    ||| lex_lt(a.path, b.path)
    ||| (a.path == b.path && opt_lex_lt(a.anchor, b.anchor))
}

pub proof fn lemma_href_lt_irrefl(a: HrefV)
    ensures
        !href_lt(a, a),
{
    lemma_lex_lt_irrefl(a.path);
    if a.anchor is Some {
        lemma_lex_lt_irrefl(a.anchor->Some_0);
    }
}

pub proof fn lemma_href_lt_trans(a: HrefV, b: HrefV, c: HrefV)
    requires
        href_lt(a, b),
        href_lt(b, c),
    ensures
        href_lt(a, c),
{
    if lex_lt(a.path, b.path) && lex_lt(b.path, c.path) {
        lemma_lex_lt_trans(a.path, b.path, c.path);
    }
    if a.path == b.path && b.path == c.path {
        lemma_lex_lt_irrefl(a.path);
        if a.anchor is Some && b.anchor is Some && c.anchor is Some {
            lemma_lex_lt_trans(a.anchor->Some_0, b.anchor->Some_0, c.anchor->Some_0);
        }
    }
}

pub proof fn lemma_href_lt_connex(a: HrefV, b: HrefV)
    ensures
        href_lt(a, b) || href_lt(b, a) || a == b,
{
    lemma_lex_lt_connex(a.path, b.path);
    if a.path == b.path {
        match (a.anchor, b.anchor) {
            (Option::Some(x), Option::Some(y)) => {
                lemma_lex_lt_connex(x, y);
            },
            _ => {},
        }
    }
}

impl Href {
    /// The path-only form of this target, used by anchor classification.
    pub fn without_anchor(&self) -> (r: Href)
        ensures
            r@.path == self@.path,
            r@.anchor is None,
    {
        Href { path: clone_bytes(&self.path), anchor: Option::None }
    }

    /// An owned copy with the same identity.
    pub fn duplicate(&self) -> (r: Href)
        ensures
            r@ == self@,
    {
        let anchor = match &self.anchor {
            Option::Some(v) => Option::Some(clone_bytes(v)),
            Option::None => Option::None,
        };
        Href { path: clone_bytes(&self.path), anchor }
    }

    /// Decides equality of target identities.
    pub fn same_as(&self, other: &Href) -> (r: bool)
        ensures
            r == (self@ == other@),
    {
        let paths_eq = self.path == other.path;
        proof {
            if self.path@ =~= other.path@ {
                assert(self.path@ == other.path@);
            }
        }
        if !paths_eq {
            proof {
                assert(self@.path != other@.path);
            }
            return false;
        }
        let r = match (&self.anchor, &other.anchor) {
            (Option::None, Option::None) => true,
            (Option::Some(x), Option::Some(y)) => {
                let e = x == y;
                proof {
                    if x@ =~= y@ {
                        assert(x@ == y@);
                    }
                }
                e
            },
            _ => false,
        };
        r
    }

    /// Decides the reporting order `href_lt` on target identities.
    pub fn before(&self, other: &Href) -> (r: bool)
        ensures
            r == href_lt(self@, other@),
    {
        if bytes_lt(&self.path, &other.path) {
            return true;
        }
        if !(self.path == other.path) {
            return false;
        }
        proof {
            assert(self.path@ =~= other.path@);
        }
        match (&self.anchor, &other.anchor) {
            (Option::None, Option::Some(_)) => true,
            (Option::Some(x), Option::Some(y)) => bytes_lt(x, y),
            _ => false,
        }
    }
}

/// Evidence that an [`Href`] resolves to a real target.
#[derive(Debug)]
pub struct DefinedLink {
    pub href: Href,
    /// Fingerprint of the paragraph that defined the target, when the parser
    /// tracked one; aggregation does not read it.
    pub paragraph: Option<Fingerprint>,
}

/// A reference to an [`Href`] from some document.
#[derive(Debug)]
pub struct UsedLink {
    /// The target being referenced.
    pub href: Href,
    /// Path of the document that holds the reference.
    pub path: Vec<u8>,
    /// Fingerprint of the paragraph the reference sits in, when provenance
    /// tracking is enabled and localization succeeded.
    pub paragraph: Option<Fingerprint>,
}

/// Mathematical image of a [`UsedLink`].
pub struct UsedLinkV {
    pub href: HrefV,
    pub path: Seq<u8>,
    pub paragraph: Option<Fingerprint>,
}

impl View for UsedLink {
    type V = UsedLinkV;

    open spec fn view(&self) -> UsedLinkV {
        UsedLinkV { href: self.href@, path: self.path@, paragraph: self.paragraph }
    }
}

impl UsedLink {
    /// An owned copy recording the same use.
    pub fn duplicate(&self) -> (r: UsedLink)
        ensures
            r@ == self@,
    {
        UsedLink {
            href: self.href.duplicate(),
            path: clone_bytes(&self.path),
            paragraph: self.paragraph,
        }
    }
}

/// One event observed while scanning a file.
#[derive(Debug)]
pub enum Link {
    /// The target exists.
    Defines(DefinedLink),
    /// Some document references the target.
    Uses(UsedLink),
}

/// The part of a [`Link`] event that aggregation is sensitive to: which
/// target was defined, or which use was recorded.  The paragraph attached to
/// a `Defines` does not influence the link table, so it is not part of the
/// event's image.
pub enum LinkEv {
    Defines(HrefV),
    Uses(UsedLinkV),
}

/// Image of one link event.
pub open spec fn ev(link: Link) -> LinkEv {
    match link {
        Link::Defines(d) => LinkEv::Defines(d.href@),
        Link::Uses(u) => LinkEv::Uses(u@),
    }
}

/// Does the event multiset `m` define target `h`?
pub open spec fn has_defines(m: Multiset<LinkEv>, h: HrefV) -> bool {
    m.count(LinkEv::Defines(h)) > 0
}

pub open spec fn is_use_of(e: LinkEv, h: HrefV) -> bool {
    e matches LinkEv::Uses(u) && u.href == h
}

pub open spec fn is_use(e: LinkEv) -> bool {
    e is Uses
}

/// All uses of target `h` in the event multiset `m`.
pub open spec fn uses_of(m: Multiset<LinkEv>, h: HrefV) -> Multiset<LinkEv> {
    m.filter(|e: LinkEv| is_use_of(e, h))
}

/// The number of use events in `m`.
pub open spec fn uses_len(m: Multiset<LinkEv>) -> nat {
    m.filter(|e: LinkEv| is_use(e)).len()
}

} // verus!
